//! The prefix-tree index: nodes with labelled edges to owned children and a
//! terminal flag, with insertion and pruning deletion.

use vstd::prelude::*;

verus! {

/// One node of the prefix tree. Each entry of `children` labels an owned
/// child with the character of its edge; `is_terminal` marks that the path
/// from the root to this node spells a currently-live word.
pub struct TrieNode {
    pub children: Vec<(char, TrieNode)>,
    pub is_terminal: bool,
}

/// The dictionary index: a rooted prefix tree.
pub struct Trie {
    pub root: TrieNode,
}

/// The index of the first entry of `s` labelled `c`, or `-1` if none is.
pub open spec fn child_idx(s: Seq<(char, TrieNode)>, c: char) -> int
    decreases s.len(),
{
    if s.len() == 0 {
        -1
    } else if s[0].0 == c {
        0
    } else {
        let r = child_idx(s.drop_first(), c);
        if r < 0 {
            -1
        } else {
            r + 1
        }
    }
}

/// Whether the word `w` is live in the subtree rooted at `n`: its characters
/// spell a path from `n` whose last node is terminal.
pub open spec fn node_has(n: TrieNode, w: Seq<char>) -> bool
    decreases w.len(),
{
    if w.len() == 0 {
        n.is_terminal
    } else {
        let j = child_idx(n.children@, w[0]);
        j >= 0 && node_has(n.children@[j].1, w.drop_first())
    }
}

/// No two entries carry the same character.
pub open spec fn keys_distinct(s: Seq<(char, TrieNode)>) -> bool {
    forall|i: int, j: int| 0 <= i < j < s.len() ==> (#[trigger] s[i]).0 != (#[trigger] s[j]).0
}

/// A node that deletion may retain: it marks a word or leads to one.
pub open spec fn node_live(n: TrieNode) -> bool {
    n.is_terminal || n.children@.len() > 0
}

/// Well-formedness of a subtree: edge labels are distinct at every node, and
/// every retained non-root node is terminal or has children (no dead
/// branches survive).
pub open spec fn node_wf(n: TrieNode) -> bool
    decreases n,
{
    &&& keys_distinct(n.children@)
    &&& forall|i: int|
        0 <= i < n.children@.len() ==> node_live(#[trigger] n.children@[i].1) && node_wf(
            n.children@[i].1,
        )
}

/// The invariant of the whole index. The root itself may be empty and
/// non-terminal; everything below it is well-formed.
pub open spec fn trie_wf(t: Trie) -> bool {
    node_wf(t.root)
}

/// Whether the word `w` is currently live in the index.
pub open spec fn trie_has(t: Trie, w: Seq<char>) -> bool {
    node_has(t.root, w)
}

/// What insertion does to the set of live words: `w` becomes live, all other
/// words are untouched.
pub open spec fn insert_updates(pre: Trie, post: Trie, w: Seq<char>) -> bool {
    forall|x: Seq<char>| trie_has(post, x) <==> trie_has(pre, x) || x == w
}

/// What deletion does to the set of live words: `w` stops being live, all
/// other words are untouched.
pub open spec fn delete_updates(pre: Trie, post: Trie, w: Seq<char>) -> bool {
    forall|x: Seq<char>| trie_has(post, x) <==> trie_has(pre, x) && x != w
}

/// `child_idx` finds an in-range entry labelled `c`, earlier entries are not
/// labelled `c`, and it fails exactly when no entry is labelled `c`.
pub proof fn lemma_child_idx_props(s: Seq<(char, TrieNode)>, c: char)
    ensures
        child_idx(s, c) == -1 <==> (forall|k: int| 0 <= k < s.len() ==> (#[trigger] s[k]).0 != c),
        child_idx(s, c) != -1 ==> 0 <= child_idx(s, c) < s.len() && s[child_idx(s, c)].0 == c,
        child_idx(s, c) != -1 ==> (forall|k: int|
            0 <= k < child_idx(s, c) ==> (#[trigger] s[k]).0 != c),
    decreases s.len(),
{
    if s.len() == 0 {
    } else if s[0].0 == c {
    } else {
        lemma_child_idx_props(s.drop_first(), c);
        assert(forall|k: int|
            1 <= k < s.len() ==> (#[trigger] s[k]).0 == s.drop_first()[k - 1].0);
    }
}

/// Two non-empty sequences are equal exactly when their heads and tails are.
pub proof fn lemma_seq_head_tail(x: Seq<char>, y: Seq<char>)
    requires
        x.len() > 0,
        y.len() > 0,
    ensures
        (x == y) <==> (x[0] == y[0] && x.drop_first() == y.drop_first()),
{
    if x[0] == y[0] && x.drop_first() =~= y.drop_first() {
        assert forall|k: int| 0 <= k < x.len() implies x[k] == y[k] by {
            if k > 0 {
                assert(x.drop_first()[k - 1] == x[k]);
                assert(y.drop_first()[k - 1] == y[k]);
            }
        }
        assert(x =~= y);
    }
}

/// With distinct labels, any entry labelled `c` is the one `child_idx` finds.
pub proof fn lemma_child_idx_unique(s: Seq<(char, TrieNode)>, c: char, m: int)
    requires
        keys_distinct(s),
        0 <= m < s.len(),
        s[m].0 == c,
    ensures
        child_idx(s, c) == m,
{
    lemma_child_idx_props(s, c);
    let j = child_idx(s, c);
    if j == -1 {
        assert(s[m].0 != c);
    } else if j < m {
        assert(s[j].0 != s[m].0);
    } else if j > m {
        assert(s[m].0 != c);
    }
}

/// Looks up the edge labelled `c` among the children.
fn find_child(children: &Vec<(char, TrieNode)>, c: char) -> (r: Option<usize>)
    ensures
        match r {
            Some(j) => j < children@.len() && child_idx(children@, c) == j as int,
            None => child_idx(children@, c) == -1,
        },
{
    let mut i: usize = 0;
    while i < children.len()
        invariant
            i <= children@.len(),
            forall|k: int| 0 <= k < i ==> (#[trigger] children@[k]).0 != c,
        decreases children@.len() - i,
    {
        if children[i].0 == c {
            proof {
                lemma_child_idx_props(children@, c);
                let j = child_idx(children@, c);
                if j == -1 {
                    assert(children@[i as int].0 != c);
                } else if j < i as int {
                    assert(children@[j].0 != c);
                } else if j > i as int {
                    assert(children@[i as int].0 != c);
                }
            }
            return Some(i);
        }
        i = i + 1;
    }
    proof {
        lemma_child_idx_props(children@, c);
    }
    None
}

/// Builds the chain of fresh nodes for the suffix of `word` that starts at
/// position `i`, ending in a terminal node: a subtree whose one live word is
/// exactly that suffix.
fn make_chain(word: &str, i: usize, n: usize) -> (r: TrieNode)
    requires
        i <= n,
        n == word@.len(),
    ensures
        node_wf(r),
        node_live(r),
        forall|x: Seq<char>| node_has(r, x) <==> x == word@.skip(i as int),
    decreases n - i,
{
    if i == n {
        let r = TrieNode { children: Vec::new(), is_terminal: true };
        proof {
            let suf = word@.skip(i as int);
            assert(suf =~= Seq::<char>::empty());
            assert forall|x: Seq<char>| node_has(r, x) <==> x == suf by {
                if x.len() == 0 {
                    assert(x =~= suf);
                } else {
                    lemma_child_idx_props(r.children@, x[0]);
                }
            }
        }
        r
    } else {
        let c = word.get_char(i);
        let child = make_chain(word, i + 1, n);
        let mut v: Vec<(char, TrieNode)> = Vec::new();
        v.push((c, child));
        let r = TrieNode { children: v, is_terminal: false };
        proof {
            let suf = word@.skip(i as int);
            assert(suf.len() > 0);
            assert(suf[0] == c);
            assert(suf.drop_first() =~= word@.skip(i + 1));
            assert forall|x: Seq<char>| node_has(r, x) <==> x == suf by {
                if x.len() == 0 {
                } else {
                    lemma_seq_head_tail(x, suf);
                    if x[0] == c {
                        lemma_child_idx_unique(r.children@, x[0], 0);
                        assert(node_has(r, x) <==> node_has(child, x.drop_first()));
                    } else {
                        lemma_child_idx_props(r.children@, x[0]);
                        assert(forall|k: int|
                            0 <= k < r.children@.len() ==> (#[trigger] r.children@[k]).0 == c);
                    }
                }
            }
            assert(node_wf(r)) by {
                assert forall|k: int| 0 <= k < r.children@.len() implies node_live(
                    #[trigger] r.children@[k].1,
                ) && node_wf(r.children@[k].1) by {
                    assert(r.children@[k].1 == child);
                }
            }
        }
        r
    }
}

/// Walks or creates the nodes that spell the suffix of `word` starting at
/// position `i` below `node`, and marks the last one terminal: exactly that
/// suffix becomes live in this subtree, and nothing else changes.
#[verifier::rlimit(50)]
fn insert_at(node: &mut TrieNode, word: &str, i: usize, n: usize)
    requires
        node_wf(*old(node)),
        i <= n,
        n == word@.len(),
    ensures
        node_wf(*final(node)),
        node_live(*final(node)),
        forall|x: Seq<char>|
            node_has(*final(node), x) <==> node_has(*old(node), x) || x == word@.skip(i as int),
    decreases n - i,
{
    if i == n {
        node.is_terminal = true;
        proof {
            let suf = word@.skip(i as int);
            assert(suf =~= Seq::<char>::empty());
            assert forall|x: Seq<char>|
                node_has(*node, x) <==> node_has(*old(node), x) || x == suf by {
                if x.len() == 0 {
                    assert(x =~= suf);
                }
            }
        }
    } else {
        let c = word.get_char(i);
        let ghost s_old = node.children@;
        match find_child(&node.children, c) {
            Some(j) => {
                let pair = vstd::std_specs::vec::vec_index_mut(&mut node.children, j);
                insert_at(&mut pair.1, word, i + 1, n);
                proof {
                    let s_new = node.children@;
                    let suf = word@.skip(i as int);
                    let child_old = s_old[j as int].1;
                    let child_new = s_new[j as int].1;
                    lemma_child_idx_props(s_old, c);
                    assert(s_old[j as int].0 == c);
                    assert(s_new == s_old.update(j as int, (c, child_new)));
                    assert(forall|k: int|
                        0 <= k < s_new.len() ==> (#[trigger] s_new[k]).0 == s_old[k].0);
                    assert(keys_distinct(s_new));
                    assert(suf.len() > 0);
                    assert(suf[0] == c);
                    assert(suf.drop_first() =~= word@.skip(i + 1));
                    assert forall|x: Seq<char>|
                        node_has(*node, x) <==> node_has(*old(node), x) || x == suf by {
                        if x.len() == 0 {
                        } else {
                            lemma_seq_head_tail(x, suf);
                            if x[0] == c {
                                lemma_child_idx_unique(s_new, c, j as int);
                                lemma_child_idx_unique(s_old, c, j as int);
                                assert(node_has(child_new, x.drop_first()) <==> node_has(
                                    child_old,
                                    x.drop_first(),
                                ) || x.drop_first() == word@.skip(i + 1));
                                assert(node_has(*node, x) <==> node_has(
                                    child_new,
                                    x.drop_first(),
                                ));
                                assert(node_has(*old(node), x) <==> node_has(child_old, x.drop_first()));
                            } else {
                                lemma_child_idx_props(s_old, x[0]);
                                lemma_child_idx_props(s_new, x[0]);
                                let j1 = child_idx(s_old, x[0]);
                                if j1 >= 0 {
                                    lemma_child_idx_unique(s_new, x[0], j1);
                                }
                            }
                        }
                    }
                    assert(node_wf(*node)) by {
                        assert forall|k: int| 0 <= k < s_new.len() implies node_live(
                            #[trigger] s_new[k].1,
                        ) && node_wf(s_new[k].1) by {
                            if k != j as int {
                                assert(s_new[k].1 == s_old[k].1);
                            }
                        }
                    }
                }
            },
            None => {
                let chain = make_chain(word, i + 1, n);
                node.children.push((c, chain));
                proof {
                    let s_new = node.children@;
                    let suf = word@.skip(i as int);
                    let m = s_old.len() as int;
                    assert(s_new == s_old.push((c, chain)));
                    lemma_child_idx_props(s_old, c);
                    assert(keys_distinct(s_new)) by {
                        assert(forall|k: int| 0 <= k < m ==> (#[trigger] s_new[k]) == s_old[k]);
                    }
                    assert(suf.len() > 0);
                    assert(suf[0] == c);
                    assert(suf.drop_first() =~= word@.skip(i + 1));
                    assert forall|x: Seq<char>|
                        node_has(*node, x) <==> node_has(*old(node), x) || x == suf by {
                        if x.len() == 0 {
                        } else {
                            lemma_seq_head_tail(x, suf);
                            if x[0] == c {
                                lemma_child_idx_unique(s_new, c, m);
                                assert(node_has(chain, x.drop_first()) <==> x.drop_first()
                                    == word@.skip(i + 1));
                                assert(node_has(*node, x) <==> node_has(chain, x.drop_first()));
                                assert(!node_has(*old(node), x));
                            } else {
                                lemma_child_idx_props(s_old, x[0]);
                                lemma_child_idx_props(s_new, x[0]);
                                let j1 = child_idx(s_old, x[0]);
                                if j1 >= 0 {
                                    lemma_child_idx_unique(s_new, x[0], j1);
                                }
                            }
                        }
                    }
                    assert(node_wf(*node)) by {
                        assert forall|k: int| 0 <= k < s_new.len() implies node_live(
                            #[trigger] s_new[k].1,
                        ) && node_wf(s_new[k].1) by {
                            if k < m {
                                assert(s_new[k].1 == s_old[k].1);
                            } else {
                                assert(s_new[k].1 == chain);
                            }
                        }
                    }
                }
            },
        }
    }
}

/// Unmarks the suffix of `word` starting at position `i` in this subtree and
/// prunes branches that died on the way back up. Returns whether this node
/// itself is now dead (non-terminal and childless), so that its parent can
/// drop the edge to it. A missing path or an unmarked last node leaves the
/// subtree as it was.
#[verifier::rlimit(50)]
fn delete_at(node: &mut TrieNode, word: &str, i: usize, n: usize) -> (prunable: bool)
    requires
        node_wf(*old(node)),
        i <= n,
        n == word@.len(),
    ensures
        node_wf(*final(node)),
        forall|x: Seq<char>|
            node_has(*final(node), x) <==> node_has(*old(node), x) && x != word@.skip(i as int),
        prunable ==> !final(node).is_terminal && final(node).children@.len() == 0,
        !prunable && node_live(*old(node)) ==> node_live(*final(node)),
    decreases n - i,
{
    if i == n {
        let ghost suf = word@.skip(i as int);
        proof {
            assert(suf =~= Seq::<char>::empty());
        }
        if !node.is_terminal {
            proof {
                assert forall|x: Seq<char>|
                    node_has(*node, x) <==> node_has(*old(node), x) && x != suf by {
                    if x.len() == 0 {
                        assert(x =~= suf);
                    }
                }
            }
            return false;
        }
        node.is_terminal = false;
        let prunable = node.children.len() == 0;
        proof {
            assert forall|x: Seq<char>|
                node_has(*node, x) <==> node_has(*old(node), x) && x != suf by {
                if x.len() == 0 {
                    assert(x =~= suf);
                }
            }
        }
        prunable
    } else {
        let c = word.get_char(i);
        let ghost s_old = node.children@;
        let ghost suf = word@.skip(i as int);
        proof {
            assert(suf.len() > 0);
            assert(suf[0] == c);
            assert(suf.drop_first() =~= word@.skip(i + 1));
        }
        match find_child(&node.children, c) {
            None => {
                proof {
                    lemma_child_idx_props(s_old, c);
                    assert forall|x: Seq<char>|
                        node_has(*node, x) <==> node_has(*old(node), x) && x != suf by {
                        if x.len() > 0 && x == suf {
                            assert(!node_has(*old(node), x));
                        }
                    }
                }
                false
            },
            Some(j) => {
                proof {
                    lemma_child_idx_props(s_old, c);
                    assert(s_old[j as int].0 == c);
                }
                let (c0, mut child) = node.children.remove(j);
                let ghost child_old = s_old[j as int].1;
                let prune_child = delete_at(&mut child, word, i + 1, n);
                if prune_child {
                    proof {
                        let s_new = node.children@;
                        assert(s_new == s_old.remove(j as int));
                        assert(forall|k: int| 0 <= k < j ==> (#[trigger] s_new[k]) == s_old[k]);
                        assert(forall|k: int|
                            j <= k < s_new.len() ==> (#[trigger] s_new[k]) == s_old[k + 1]);
                        assert(keys_distinct(s_new));
                        assert forall|x: Seq<char>| !node_has(child, x) by {
                            if x.len() > 0 {
                                lemma_child_idx_props(child.children@, x[0]);
                            }
                        }
                        assert forall|x: Seq<char>|
                            node_has(*node, x) <==> node_has(*old(node), x) && x != suf by {
                            if x.len() == 0 {
                            } else {
                                lemma_seq_head_tail(x, suf);
                                if x[0] == c {
                                    lemma_child_idx_props(s_new, x[0]);
                                    assert(forall|k: int|
                                        0 <= k < s_new.len() ==> (#[trigger] s_new[k]).0 != c);
                                    assert(!node_has(*node, x));
                                    lemma_child_idx_unique(s_old, c, j as int);
                                    assert(node_has(*old(node), x) <==> node_has(
                                        child_old,
                                        x.drop_first(),
                                    ));
                                    assert(node_has(child, x.drop_first()) <==> node_has(
                                        child_old,
                                        x.drop_first(),
                                    ) && x.drop_first() != word@.skip(i + 1));
                                } else {
                                    lemma_child_idx_props(s_old, x[0]);
                                    lemma_child_idx_props(s_new, x[0]);
                                    let j1 = child_idx(s_old, x[0]);
                                    if j1 >= 0 {
                                        assert(j1 != j as int);
                                        let j2: int = if j1 < j as int {
                                            j1
                                        } else {
                                            j1 - 1
                                        };
                                        assert(s_new[j2] == s_old[j1]);
                                        lemma_child_idx_unique(s_new, x[0], j2);
                                    }
                                }
                            }
                        }
                        assert(node_wf(*node)) by {
                            assert forall|k: int| 0 <= k < s_new.len() implies node_live(
                                #[trigger] s_new[k].1,
                            ) && node_wf(s_new[k].1) by {
                                if k < j as int {
                                    assert(s_new[k].1 == s_old[k].1);
                                } else {
                                    assert(s_new[k].1 == s_old[k + 1].1);
                                }
                            }
                        }
                    }
                    !node.is_terminal && node.children.len() == 0
                } else {
                    node.children.insert(j, (c0, child));
                    proof {
                        let s_new = node.children@;
                        assert(s_new =~= s_old.update(j as int, (c, child)));
                        assert(forall|k: int|
                            0 <= k < s_new.len() ==> (#[trigger] s_new[k]).0 == s_old[k].0);
                        assert(keys_distinct(s_new));
                        assert forall|x: Seq<char>|
                            node_has(*node, x) <==> node_has(*old(node), x) && x != suf by {
                            if x.len() == 0 {
                            } else {
                                lemma_seq_head_tail(x, suf);
                                if x[0] == c {
                                    lemma_child_idx_unique(s_new, c, j as int);
                                    lemma_child_idx_unique(s_old, c, j as int);
                                    assert(node_has(child, x.drop_first()) <==> node_has(
                                        child_old,
                                        x.drop_first(),
                                    ) && x.drop_first() != word@.skip(i + 1));
                                    assert(node_has(*node, x) <==> node_has(
                                        child,
                                        x.drop_first(),
                                    ));
                                    assert(node_has(*old(node), x) <==> node_has(
                                        child_old,
                                        x.drop_first(),
                                    ));
                                } else {
                                    lemma_child_idx_props(s_old, x[0]);
                                    lemma_child_idx_props(s_new, x[0]);
                                    let j1 = child_idx(s_old, x[0]);
                                    if j1 >= 0 {
                                        lemma_child_idx_unique(s_new, x[0], j1);
                                    }
                                }
                            }
                        }
                        assert(node_wf(*node)) by {
                            assert forall|k: int| 0 <= k < s_new.len() implies node_live(
                                #[trigger] s_new[k].1,
                            ) && node_wf(s_new[k].1) by {
                                if k != j as int {
                                    assert(s_new[k].1 == s_old[k].1);
                                }
                            }
                        }
                    }
                    false
                }
            },
        }
    }
}

impl Trie {
    /// Creates an empty index: no words are live and the root is bare.
    pub fn new() -> (t: Trie)
        ensures
            trie_wf(t),
            forall|w: Seq<char>| !trie_has(t, w),
            !t.root.is_terminal,
            t.root.children@.len() == 0,
    {
        let t = Trie { root: TrieNode { children: Vec::new(), is_terminal: false } };
        proof {
            assert forall|w: Seq<char>| !trie_has(t, w) by {
                if w.len() > 0 {
                    lemma_child_idx_props(t.root.children@, w[0]);
                }
            }
        }
        t
    }

    /// Makes `word` live, leaving every other word as it was. Inserting a
    /// word that is already live changes nothing.
    pub fn insert(&mut self, word: &str)
        requires
            trie_wf(*old(self)),
        ensures
            trie_wf(*final(self)),
            insert_updates(*old(self), *final(self), word@),
    {
        let n = word.unicode_len();
        insert_at(&mut self.root, word, 0, n);
        proof {
            assert(word@.skip(0) =~= word@);
        }
    }

    /// Removes `word` from the live words, pruning branches that no other
    /// word keeps alive. Deleting a word that is not live changes nothing.
    pub fn delete(&mut self, word: &str)
        requires
            trie_wf(*old(self)),
        ensures
            trie_wf(*final(self)),
            delete_updates(*old(self), *final(self), word@),
    {
        let n = word.unicode_len();
        delete_at(&mut self.root, word, 0, n);
        proof {
            assert(word@.skip(0) =~= word@);
        }
    }
}

} // verus!
