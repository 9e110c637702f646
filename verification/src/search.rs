//! The fuzzy search engine: a depth-first traversal of the prefix tree that
//! reports every live word within a given edit distance of the query, pruning
//! subtrees whose words are already provably too long to qualify.

use vstd::prelude::*;

use crate::dist::{edit_dist, lemma_edit_dist_len_bound, levenshtein_str};
use crate::trie::{
    child_idx, lemma_child_idx_props, lemma_child_idx_unique, node_has, node_wf, trie_has, trie_wf,
    Trie, TrieNode,
};

verus! {

/// One search hit: a live word and its edit distance from the query.
pub struct FuzzyResult {
    pub token: String,
    pub distance: usize,
}

/// What a hit emitted below `node` means: its token extends `prefix` by a
/// word that is live in this subtree, and its distance is the exact edit
/// distance between the whole token and the query, within the budget.
pub open spec fn hit_ok(
    node: TrieNode,
    prefix: Seq<char>,
    query: Seq<char>,
    maxd: nat,
    r: FuzzyResult,
) -> bool {
    exists|s: Seq<char>|
        #[trigger] node_has(node, s) && r.token@ == prefix + s && r.token@.len() > 0 && r.distance
            == edit_dist(r.token@, query) && r.distance <= maxd
}

/// Relies on String::push: appends one character at the end of the string.
#[verifier::external_body]
fn push_char(s: &mut String, c: char)
    ensures
        final(s)@ == old(s)@.push(c),
{
    s.push(c);
}

/// One sequence is a prefix of a third whenever it is a prefix of a prefix.
proof fn lemma_prefix_trans<A>(a: Seq<A>, b: Seq<A>, c: Seq<A>)
    requires
        a.is_prefix_of(b),
        b.is_prefix_of(c),
    ensures
        a.is_prefix_of(c),
{
    assert forall|k: int| 0 <= k < a.len() implies a[k] == c.subrange(0, a.len() as int)[k] by {
        assert(a[k] == b[k]);
        assert(b[k] == c[k]);
    }
    assert(a =~= c.subrange(0, a.len() as int));
}

/// Appends to `results` one hit for every word that is live in the subtree
/// under `node` — reached from the root by `prefix` — and lies within
/// `max_distance` of the query; everything appended is such a hit.
#[verifier::rlimit(80)]
#[verifier::loop_isolation(false)]
fn search_rec(
    node: &TrieNode,
    prefix: &String,
    query: &str,
    max_distance: usize,
    results: &mut Vec<FuzzyResult>,
)
    requires
        node_wf(*node),
    ensures
        old(results)@.is_prefix_of(final(results)@),
        forall|k: int|
            old(results)@.len() <= k < final(results)@.len() ==> hit_ok(
                *node,
                prefix@,
                query@,
                max_distance as nat,
                #[trigger] final(results)@[k],
            ),
        forall|s: Seq<char>|
            #[trigger] node_has(*node, s) && (prefix@ + s).len() > 0 && edit_dist(
                prefix@ + s,
                query@,
            ) <= max_distance ==> exists|k: int|
                0 <= k < final(results)@.len() && (#[trigger] final(results)@[k]).token@ == prefix@
                    + s,
        forall|k1: int, k2: int|
            old(results)@.len() <= k1 < k2 < final(results)@.len() ==> (
            #[trigger] final(results)@[k1]).token@ != (#[trigger] final(results)@[k2]).token@,
    decreases *node,
{
    let ghost p = prefix@;
    let ghost q = query@;
    let plen = prefix.as_str().unicode_len();
    if plen > 0 {
        let distance = levenshtein_str(prefix.as_str(), query);
        if distance <= max_distance && node.is_terminal {
            let token = prefix.clone();
            results.push(FuzzyResult { token, distance });
            proof {
                let r = results@[results@.len() - 1];
                assert(p + Seq::<char>::empty() =~= p);
                assert(node_has(*node, Seq::<char>::empty()));
                assert(hit_ok(*node, p, q, max_distance as nat, r));
            }
        }
        let qlen = query.unicode_len();
        if plen > qlen && plen - qlen > max_distance {
            // Every word of this subtree extends the prefix, so it is at
            // least as long; a length gap beyond the budget bounds the edit
            // distance of every such word from below, and none can qualify.
            proof {
                assert forall|s: Seq<char>|
                    node_has(*node, s) && (p + s).len() > 0 && edit_dist(p + s, q)
                        <= max_distance implies exists|k: int|
                    0 <= k < results@.len() && (#[trigger] results@[k]).token@ == p + s by {
                    lemma_edit_dist_len_bound(p + s, q);
                }
            }
            return;
        }
    }
    let mut idx: usize = 0;
    while idx < node.children.len()
        invariant
            node_wf(*node),
            idx <= node.children@.len(),
            old(results)@.is_prefix_of(results@),
            forall|k: int|
                old(results)@.len() <= k < results@.len() ==> hit_ok(
                    *node,
                    p,
                    q,
                    max_distance as nat,
                    #[trigger] results@[k],
                ),
            forall|s: Seq<char>|
                s.len() > 0 && 0 <= child_idx(node.children@, s[0]) < idx && #[trigger] node_has(
                    *node,
                    s,
                ) && edit_dist(p + s, q) <= max_distance ==> exists|k: int|
                    0 <= k < results@.len() && (#[trigger] results@[k]).token@ == p + s,
            (p.len() > 0 && node.is_terminal && edit_dist(p, q) <= max_distance) ==> exists|k: int|
                0 <= k < results@.len() && (#[trigger] results@[k]).token@ == p,
            forall|k: int|
                old(results)@.len() <= k < results@.len() ==> (#[trigger] results@[k]).token@ == p
                    || ((results@[k]).token@.len() > p.len() && exists|j: int|
                    0 <= j < idx && results@[k].token@[p.len() as int] == (
                    #[trigger] node.children@[j]).0),
            forall|k1: int, k2: int|
                old(results)@.len() <= k1 < k2 < results@.len() ==> (
                #[trigger] results@[k1]).token@ != (#[trigger] results@[k2]).token@,
        decreases node.children@.len() - idx,
    {
        let pair = &node.children[idx];
        let c = pair.0;
        let mut child_prefix = prefix.clone();
        push_char(&mut child_prefix, c);
        let ghost r1 = results@;
        search_rec(&pair.1, &child_prefix, query, max_distance, results);
        proof {
            let child = node.children@[idx as int].1;
            let r2 = results@;
            lemma_prefix_trans(old(results)@, r1, r2);
            lemma_child_idx_unique(node.children@, c, idx as int);
            // hits of the child subtree are hits of this one
            assert forall|k: int| r1.len() <= k < r2.len() implies hit_ok(
                *node,
                p,
                q,
                max_distance as nat,
                #[trigger] r2[k],
            ) by {
                let r = r2[k];
                assert(child_prefix@ == p.push(c));
                assert(hit_ok(child, child_prefix@, q, max_distance as nat, r));
                let s1 = choose|s1: Seq<char>|
                    #[trigger] node_has(child, s1) && r.token@ == child_prefix@ + s1
                        && r.token@.len() > 0 && r.distance == edit_dist(r.token@, q) && r.distance
                        <= max_distance as nat;
                let s = seq![c] + s1;
                assert(s[0] == c);
                assert(s.drop_first() =~= s1);
                assert(node_has(*node, s));
                assert(r.token@ == p + s) by {
                    assert(child_prefix@ + s1 =~= p + s);
                }
            }
            assert forall|k: int| old(results)@.len() <= k < r2.len() implies hit_ok(
                *node,
                p,
                q,
                max_distance as nat,
                #[trigger] r2[k],
            ) by {
                if k < r1.len() {
                    assert(r2[k] == r1[k]);
                }
            }
            // words routed through this child are now all reported
            assert forall|s: Seq<char>|
                s.len() > 0 && 0 <= child_idx(node.children@, s[0]) < idx + 1 && #[trigger] node_has(
                    *node,
                    s,
                ) && edit_dist(p + s, q) <= max_distance implies exists|k: int|
                0 <= k < r2.len() && (#[trigger] r2[k]).token@ == p + s by {
                let j = child_idx(node.children@, s[0]);
                lemma_child_idx_props(node.children@, s[0]);
                if j < idx as int {
                    let k0 = choose|k: int| 0 <= k < r1.len() && (#[trigger] r1[k]).token@ == p + s;
                    assert(r2[k0] == r1[k0]);
                } else {
                    assert(j == idx as int);
                    assert(node.children@[j].0 == c);
                    let s1 = s.drop_first();
                    assert(node_has(child, s1));
                    assert(child_prefix@ + s1 =~= p + s);
                    assert((child_prefix@ + s1).len() > 0);
                }
            }
            // tokens of this frame keep their shape: the node's own word, or
            // one routed through a child already visited
            assert forall|k: int| old(results)@.len() <= k < r2.len() implies (
            #[trigger] r2[k]).token@ == p || (r2[k].token@.len() > p.len() && exists|j: int|
                0 <= j < idx + 1 && r2[k].token@[p.len() as int] == (
                #[trigger] node.children@[j]).0) by {
                if k < r1.len() {
                    assert(r2[k] == r1[k]);
                    if r1[k].token@ != p {
                        let j0 = choose|j: int|
                            0 <= j < idx && r1[k].token@[p.len() as int] == (
                            #[trigger] node.children@[j]).0;
                        assert(0 <= j0 < idx + 1 && r2[k].token@[p.len() as int]
                            == node.children@[j0].0);
                    }
                } else {
                    let r = r2[k];
                    let s1 = choose|s1: Seq<char>|
                        #[trigger] node_has(child, s1) && r.token@ == child_prefix@ + s1
                            && r.token@.len() > 0 && r.distance == edit_dist(r.token@, q)
                            && r.distance <= max_distance as nat;
                    assert(r.token@.len() > p.len());
                    assert(r.token@[p.len() as int] == c);
                    assert(0 <= idx < idx + 1 && r.token@[p.len() as int] == (
                    node.children@[idx as int]).0);
                }
            }
            // and no two of them agree: the child's block is distinct by the
            // recursion, and its tokens differ from everything earlier in the
            // frame at the first position past the prefix
            assert forall|k1: int, k2: int|
                old(results)@.len() <= k1 < k2 < r2.len() implies (#[trigger] r2[k1]).token@ != (
            #[trigger] r2[k2]).token@ by {
                if k2 < r1.len() {
                    assert(r2[k1] == r1[k1]);
                    assert(r2[k2] == r1[k2]);
                } else if k1 < r1.len() {
                    assert(r2[k1] == r1[k1]);
                    let s1 = choose|s1: Seq<char>|
                        #[trigger] node_has(child, s1) && r2[k2].token@ == child_prefix@ + s1
                            && r2[k2].token@.len() > 0 && r2[k2].distance == edit_dist(
                            r2[k2].token@,
                            q,
                        ) && r2[k2].distance <= max_distance as nat;
                    assert(r2[k2].token@.len() > p.len());
                    assert(r2[k2].token@[p.len() as int] == c);
                    if r1[k1].token@ != p {
                        let j0 = choose|j: int|
                            0 <= j < idx && r1[k1].token@[p.len() as int] == (
                            #[trigger] node.children@[j]).0;
                        assert(node.children@[j0].0 != node.children@[idx as int].0);
                    }
                }
            }
            if p.len() > 0 && node.is_terminal && edit_dist(p, q) <= max_distance {
                let k0 = choose|k: int| 0 <= k < r1.len() && (#[trigger] r1[k]).token@ == p;
                assert(r2[k0] == r1[k0]);
            }
        }
        idx = idx + 1;
    }
    proof {
        assert forall|s: Seq<char>|
            node_has(*node, s) && (p + s).len() > 0 && edit_dist(p + s, q)
                <= max_distance implies exists|k: int|
            0 <= k < results@.len() && (#[trigger] results@[k]).token@ == p + s by {
            if s.len() == 0 {
                assert(p + s =~= p);
            } else {
                lemma_child_idx_props(node.children@, s[0]);
            }
        }
    }
}

impl Trie {
    /// Reports every live word within `max_distance` edits of `query`, each
    /// with its exact edit distance, in unspecified order.
    pub fn search_fuzzy(&self, query: &str, max_distance: usize) -> (results: Vec<FuzzyResult>)
        requires
            trie_wf(*self),
        ensures
            forall|k: int|
                0 <= k < results@.len() ==> {
                    let r = #[trigger] results@[k];
                    &&& r.token@.len() > 0
                    &&& trie_has(*self, r.token@)
                    &&& r.distance == edit_dist(r.token@, query@)
                    &&& r.distance <= max_distance
                },
            forall|w: Seq<char>|
                #[trigger] trie_has(*self, w) && w.len() > 0 && edit_dist(w, query@)
                    <= max_distance ==> exists|k: int|
                    0 <= k < results@.len() && (#[trigger] results@[k]).token@ == w,
            forall|k1: int, k2: int|
                0 <= k1 < k2 < results@.len() ==> (#[trigger] results@[k1]).token@ != (
                #[trigger] results@[k2]).token@,
    {
        let mut results: Vec<FuzzyResult> = Vec::new();
        let prefix = String::new();
        search_rec(&self.root, &prefix, query, max_distance, &mut results);
        proof {
            let q = query@;
            assert forall|k: int| 0 <= k < results@.len() implies {
                let r = #[trigger] results@[k];
                &&& r.token@.len() > 0
                &&& trie_has(*self, r.token@)
                &&& r.distance == edit_dist(r.token@, q)
                &&& r.distance <= max_distance
            } by {
                let r = results@[k];
                let s = choose|s: Seq<char>|
                    #[trigger] node_has(self.root, s) && r.token@ == prefix@ + s && r.token@.len()
                        > 0 && r.distance == edit_dist(r.token@, q) && r.distance <= max_distance
                        as nat;
                assert(prefix@ + s =~= s);
            }
            assert forall|w: Seq<char>|
                trie_has(*self, w) && w.len() > 0 && edit_dist(w, q) <= max_distance implies exists|
                k: int,
            |
                0 <= k < results@.len() && (#[trigger] results@[k]).token@ == w by {
                assert(prefix@ + w =~= w);
                assert(node_has(self.root, w));
                assert((prefix@ + w).len() > 0);
                assert(edit_dist(prefix@ + w, q) <= max_distance);
            }
        }
        results
    }
}

} // verus!
