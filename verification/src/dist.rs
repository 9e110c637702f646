//! The Levenshtein edit distance as a mathematical function, and the facts
//! about it that the fuzzy search rests on.

use vstd::prelude::*;

verus! {

/// The least of three naturals.
pub open spec fn min3(x: nat, y: nat, z: nat) -> nat {
    if x <= y && x <= z {
        x
    } else if y <= z {
        y
    } else {
        z
    }
}

/// The Levenshtein edit distance between two character sequences: the least
/// number of single-character insertions, deletions and substitutions that
/// turns `a` into `b`.
pub open spec fn edit_dist(a: Seq<char>, b: Seq<char>) -> nat
    decreases a.len() + b.len(),
{
    if a.len() == 0 {
        b.len()
    } else if b.len() == 0 {
        a.len()
    } else {
        let sub_cost: nat = if a[0] == b[0] {
            0
        } else {
            1
        };
        min3(
            edit_dist(a.drop_first(), b) + 1,
            edit_dist(a, b.drop_first()) + 1,
            edit_dist(a.drop_first(), b.drop_first()) + sub_cost,
        )
    }
}

/// The edit distance between two sequences is at least the difference of
/// their lengths: each edit changes the length by at most one.
pub proof fn lemma_edit_dist_len_bound(a: Seq<char>, b: Seq<char>)
    ensures
        edit_dist(a, b) + a.len() >= b.len(),
        edit_dist(a, b) + b.len() >= a.len(),
    decreases a.len() + b.len(),
{
    if a.len() == 0 || b.len() == 0 {
    } else {
        lemma_edit_dist_len_bound(a.drop_first(), b);
        lemma_edit_dist_len_bound(a, b.drop_first());
        lemma_edit_dist_len_bound(a.drop_first(), b.drop_first());
    }
}

/// Relies on strsim::levenshtein: the least number of single-character
/// insertions, deletions and substitutions that turns one string into the
/// other, counted over their characters.
#[verifier::external_body]
pub(crate) fn levenshtein_str(a: &str, b: &str) -> (r: usize)
    ensures
        r == edit_dist(a@, b@),
{
    strsim::levenshtein(a, b)
}

/// A sequence is at edit distance zero from itself.
pub proof fn lemma_edit_dist_self(a: Seq<char>)
    ensures
        edit_dist(a, a) == 0,
    decreases a.len(),
{
    if a.len() > 0 {
        lemma_edit_dist_self(a.drop_first());
    }
}

} // verus!
