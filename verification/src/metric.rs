//! Levenshtein edit distance: a mathematical definition, an executable
//! function backed by an external implementation, and proofs that the
//! definition is a true metric (symmetry, zero iff equal, triangle
//! inequality).

use vstd::prelude::*;

verus! {

/// The smallest of three naturals.
pub open spec fn min3(a: nat, b: nat, c: nat) -> nat {
    if a <= b && a <= c {
        a
    } else if b <= c {
        b
    } else {
        c
    }
}

/// Levenshtein edit distance between two character sequences: the least
/// number of single-character insertions, deletions and substitutions
/// that turn `a` into `b`, written as the standard recurrence over the
/// heads of the two sequences.
pub open spec fn lev(a: Seq<char>, b: Seq<char>) -> nat
    decreases a.len() + b.len(),
{
    if a.len() == 0 {
        b.len()
    } else if b.len() == 0 {
        a.len()
    } else {
        let subst: nat = if a[0] == b[0] {
            0
        } else {
            1
        };
        min3(
            lev(a.drop_first(), b) + 1,
            lev(a, b.drop_first()) + 1,
            lev(a.drop_first(), b.drop_first()) + subst,
        )
    }
}

/// Changing either sequence by one head-edit moves the distance by at
/// most one: adding or removing the first character of either argument
/// changes `lev` by at most 1 in either direction.
proof fn lemma_lev_edit_bounds(a: Seq<char>, b: Seq<char>)
    ensures
        a.len() > 0 ==> lev(a, b) <= 1 + lev(a.drop_first(), b),
        a.len() > 0 ==> lev(a.drop_first(), b) <= 1 + lev(a, b),
        b.len() > 0 ==> lev(a, b) <= 1 + lev(a, b.drop_first()),
        b.len() > 0 ==> lev(a, b.drop_first()) <= 1 + lev(a, b),
    decreases a.len() + b.len(),
{
    if a.len() > 0 && b.len() > 0 {
        lemma_lev_edit_bounds(a.drop_first(), b);
        lemma_lev_edit_bounds(a, b.drop_first());
        lemma_lev_edit_bounds(a.drop_first(), b.drop_first());
    }
}

/// When the two sequences start with the same character, matching those
/// characters is optimal: the distance equals that of the two tails.
proof fn lemma_lev_eq_heads(a: Seq<char>, b: Seq<char>)
    requires
        a.len() > 0,
        b.len() > 0,
        a[0] == b[0],
    ensures
        lev(a, b) == lev(a.drop_first(), b.drop_first()),
{
    lemma_lev_edit_bounds(a.drop_first(), b);
    lemma_lev_edit_bounds(a, b.drop_first());
}

/// Dropping the first character of both sequences never increases the
/// distance.
proof fn lemma_lev_drop_both(a: Seq<char>, b: Seq<char>)
    requires
        a.len() > 0,
        b.len() > 0,
    ensures
        lev(a.drop_first(), b.drop_first()) <= lev(a, b),
{
    if a[0] == b[0] {
        lemma_lev_eq_heads(a, b);
    } else {
        lemma_lev_edit_bounds(a.drop_first(), b);
        lemma_lev_edit_bounds(a, b.drop_first());
    }
}

/// The distance is at most the sum of the lengths, and at least the
/// difference of the lengths.
proof fn lemma_lev_len_bounds(a: Seq<char>, b: Seq<char>)
    ensures
        lev(a, b) <= a.len() + b.len(),
        a.len() <= lev(a, b) + b.len(),
        b.len() <= lev(a, b) + a.len(),
    decreases a.len() + b.len(),
{
    if a.len() > 0 && b.len() > 0 {
        lemma_lev_len_bounds(a.drop_first(), b);
        lemma_lev_len_bounds(a, b.drop_first());
        lemma_lev_len_bounds(a.drop_first(), b.drop_first());
    }
}

/// A sequence is at distance zero from itself.
pub proof fn lemma_lev_self(a: Seq<char>)
    ensures
        lev(a, a) == 0,
    decreases a.len(),
{
    if a.len() > 0 {
        lemma_lev_eq_heads(a, a);
        lemma_lev_self(a.drop_first());
    }
}

/// The distance is zero exactly when the two sequences are equal.
pub proof fn lemma_lev_zero(a: Seq<char>, b: Seq<char>)
    ensures
        lev(a, b) == 0 <==> a == b,
    decreases a.len() + b.len(),
{
    if a == b {
        lemma_lev_self(a);
    } else if a.len() == 0 {
        if b.len() == 0 {
            assert(a =~= b);
        }
    } else if b.len() == 0 {
    } else if a[0] == b[0] {
        lemma_lev_eq_heads(a, b);
        lemma_lev_zero(a.drop_first(), b.drop_first());
        if a.drop_first() == b.drop_first() {
            assert(a =~= b) by {
                assert(a.len() == b.len());
                assert forall|i: int| 0 <= i < a.len() implies a[i] == b[i] by {
                    if i > 0 {
                        assert(a[i] == a.drop_first()[i - 1]);
                        assert(b[i] == b.drop_first()[i - 1]);
                    }
                }
            };
            assert(false);
        }
    }
}

/// The distance is symmetric in its two arguments.
pub proof fn lemma_lev_sym(a: Seq<char>, b: Seq<char>)
    ensures
        lev(a, b) == lev(b, a),
    decreases a.len() + b.len(),
{
    if a.len() > 0 && b.len() > 0 {
        lemma_lev_sym(a.drop_first(), b);
        lemma_lev_sym(a, b.drop_first());
        lemma_lev_sym(a.drop_first(), b.drop_first());
    }
}

/// The triangle inequality: a path of edits from `a` to `b` and on from
/// `b` to `c` is no shorter than an optimal path from `a` to `c`.
pub proof fn lemma_lev_triangle(a: Seq<char>, b: Seq<char>, c: Seq<char>)
    ensures
        lev(a, c) <= lev(a, b) + lev(b, c),
    decreases a.len() + b.len() + c.len(),
{
    if b.len() == 0 {
        lemma_lev_len_bounds(a, c);
    } else if a.len() == 0 {
        lemma_lev_len_bounds(b, c);
    } else if c.len() == 0 {
        lemma_lev_len_bounds(a, b);
    } else {
        let a1 = a.drop_first();
        let b1 = b.drop_first();
        let c1 = c.drop_first();
        if a[0] == b[0] {
            lemma_lev_eq_heads(a, b);
            if b[0] == c[0] {
                lemma_lev_eq_heads(b, c);
                lemma_lev_eq_heads(a, c);
                lemma_lev_triangle(a1, b1, c1);
            } else {
                lemma_lev_triangle(a1, b1, c);
                lemma_lev_triangle(a, b, c1);
                lemma_lev_triangle(a1, b1, c1);
            }
        } else {
            lemma_lev_triangle(a1, b, c);
            lemma_lev_triangle(a, b1, c);
            lemma_lev_triangle(a1, b1, c1);
            lemma_lev_edit_bounds(b, c);
            lemma_lev_drop_both(b, c);
            lemma_lev_edit_bounds(a, c);
            if a[0] == c[0] {
                lemma_lev_eq_heads(a, c);
            }
        }
    }
}

/// Relies on strsim::levenshtein: it returns the Levenshtein edit
/// distance between the character sequences of the two strings, the
/// value computed by the standard dynamic-programming recurrence.
#[verifier::external_body]
fn levenshtein_exec(a: &str, b: &str) -> (d: usize)
    ensures
        d == lev(a@, b@),
{
    strsim::levenshtein(a, b)
}

/// Edit distance between two strings.
pub fn distance(a: &str, b: &str) -> (d: usize)
    ensures
        d == lev(a@, b@),
{
    levenshtein_exec(a, b)
}

} // verus!
