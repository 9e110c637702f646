//! Laws of the index, stated over the spec-level views that the operations'
//! contracts use and proved from them.

use vstd::prelude::*;

use crate::dist::{edit_dist, lemma_edit_dist_self};
use crate::trie::{
    delete_updates, insert_updates, lemma_child_idx_unique, node_has, node_live, node_wf, trie_has,
    trie_wf, Trie, TrieNode,
};

verus! {

/// The set of words a fuzzy search must report: the live words within edit
/// distance `d` of the query `q`.
pub open spec fn match_set(t: Trie, q: Seq<char>, d: nat) -> Set<Seq<char>> {
    Set::new(|w: Seq<char>| w.len() > 0 && trie_has(t, w) && edit_dist(w, q) <= d)
}

/// After a word is inserted, an exact search for it (budget zero) reports it.
pub proof fn lemma_insert_finds_exact(pre: Trie, post: Trie, w: Seq<char>)
    requires
        insert_updates(pre, post, w),
        w.len() > 0,
    ensures
        match_set(post, w, 0).contains(w),
{
    lemma_edit_dist_self(w);
}

/// After a word is inserted and then deleted again, an exact search for it
/// reports nothing, and every other word is exactly as it was before the two
/// calls.
pub proof fn lemma_insert_then_delete(t0: Trie, t1: Trie, t2: Trie, w: Seq<char>)
    requires
        insert_updates(t0, t1, w),
        delete_updates(t1, t2, w),
    ensures
        !trie_has(t2, w),
        !match_set(t2, w, 0).contains(w),
        forall|x: Seq<char>| x != w ==> (trie_has(t2, x) <==> trie_has(t0, x)),
{
}

/// Inserting a word twice is the same as inserting it once: the live words,
/// and with them the result set owed to every search, are unchanged by the
/// second call.
pub proof fn lemma_insert_idempotent(t0: Trie, t1: Trie, t2: Trie, w: Seq<char>)
    requires
        insert_updates(t0, t1, w),
        insert_updates(t1, t2, w),
    ensures
        forall|x: Seq<char>| trie_has(t2, x) <==> trie_has(t1, x),
        forall|q: Seq<char>, d: nat| match_set(t2, q, d) == match_set(t1, q, d),
{
    assert forall|q: Seq<char>, d: nat| match_set(t2, q, d) == match_set(t1, q, d) by {
        assert(match_set(t2, q, d) =~= match_set(t1, q, d));
    }
}

/// Deleting a word that is not live is a no-op: the live words, and with
/// them the result set owed to every search, are unchanged.
pub proof fn lemma_delete_absent_noop(t0: Trie, t1: Trie, w: Seq<char>)
    requires
        delete_updates(t0, t1, w),
        !trie_has(t0, w),
    ensures
        forall|x: Seq<char>| trie_has(t1, x) <==> trie_has(t0, x),
        forall|q: Seq<char>, d: nat| match_set(t1, q, d) == match_set(t0, q, d),
{
    assert forall|q: Seq<char>, d: nat| match_set(t1, q, d) == match_set(t0, q, d) by {
        assert(match_set(t1, q, d) =~= match_set(t0, q, d));
    }
}

/// Raising the budget never loses results: whatever a search owes for budget
/// `d` it also owes for budget `d + 1`.
pub proof fn lemma_search_monotone(t: Trie, q: Seq<char>, d: nat)
    ensures
        match_set(t, q, d).subset_of(match_set(t, q, d + 1)),
{
}

/// A well-formed live subtree holds at least one live word.
pub proof fn lemma_live_node_has_word(n: TrieNode)
    requires
        node_wf(n),
        node_live(n),
    ensures
        exists|w: Seq<char>| node_has(n, w),
    decreases n,
{
    if n.is_terminal {
        assert(node_has(n, Seq::<char>::empty()));
    } else {
        let c = n.children@[0].0;
        let child = n.children@[0].1;
        lemma_live_node_has_word(child);
        let w1 = choose|w1: Seq<char>| node_has(child, w1);
        let w = seq![c] + w1;
        lemma_child_idx_unique(n.children@, c, 0);
        assert(w.drop_first() =~= w1);
        assert(node_has(n, w));
    }
}

/// A well-formed subtree with no live words is a bare node: deletion's
/// pruning leaves no dangling branches behind.
pub proof fn lemma_no_words_no_branches(n: TrieNode)
    requires
        node_wf(n),
        forall|w: Seq<char>| !node_has(n, w),
    ensures
        !n.is_terminal,
        n.children@.len() == 0,
{
    assert(!node_has(n, Seq::<char>::empty()));
    if n.children@.len() > 0 {
        let c = n.children@[0].0;
        let child = n.children@[0].1;
        lemma_live_node_has_word(child);
        let w1 = choose|w1: Seq<char>| node_has(child, w1);
        let w = seq![c] + w1;
        lemma_child_idx_unique(n.children@, c, 0);
        assert(w.drop_first() =~= w1);
        assert(node_has(n, w));
    }
}

/// An index that holds no words at all is structurally empty: its root has
/// no children and is not terminal.
pub proof fn lemma_empty_index_bare_root(t: Trie)
    requires
        trie_wf(t),
        forall|w: Seq<char>| !trie_has(t, w),
    ensures
        !t.root.is_terminal,
        t.root.children@.len() == 0,
{
    assert forall|w: Seq<char>| !node_has(t.root, w) by {
        assert(!trie_has(t, w));
    }
    lemma_no_words_no_branches(t.root);
}

} // verus!
