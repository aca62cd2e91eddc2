//! The edit (Levenshtein) distance between two sequences of characters, and
//! the laws it obeys.
use vstd::prelude::*;

verus! {

pub open spec fn min3(a: nat, b: nat, c: nat) -> nat {
    if a <= b && a <= c {
        a
    } else if b <= c {
        b
    } else {
        c
    }
}

/// Edits needed to turn `a` into `b`, where inserting, deleting or replacing one
/// character each costs one.
pub open spec fn edit_distance(a: Seq<char>, b: Seq<char>) -> nat
    decreases a.len() + b.len(),
{
    if a.len() == 0 {
        b.len()
    } else if b.len() == 0 {
        a.len()
    } else {
        let cost: nat = if a.last() == b.last() { 0 } else { 1 };
        min3(
            edit_distance(a.drop_last(), b.drop_last()) + cost,
            edit_distance(a.drop_last(), b) + 1,
            edit_distance(a, b.drop_last()) + 1,
        )
    }
}

/// The recurrence on prefixes, as the matrix fills it: the cell for the first `i`
/// characters of `a` and the first `j` of `b` follows from its three neighbours.
pub proof fn lemma_prefix_step(a: Seq<char>, b: Seq<char>, i: int, j: int)
    requires
        1 <= i <= a.len(),
        1 <= j <= b.len(),
    ensures
        edit_distance(a.take(i), b.take(j)) == min3(
            edit_distance(a.take(i - 1), b.take(j - 1)) + if a[i - 1] == b[j - 1] { 0nat } else { 1nat },
            edit_distance(a.take(i - 1), b.take(j)) + 1,
            edit_distance(a.take(i), b.take(j - 1)) + 1,
        ),
{
    assert(a.take(i).drop_last() =~= a.take(i - 1));
    assert(b.take(j).drop_last() =~= b.take(j - 1));
}

/// Comparing with the empty sequence costs one edit per character.
pub proof fn lemma_empty_side(s: Seq<char>)
    ensures
        edit_distance(Seq::empty(), s) == s.len(),
        edit_distance(s, Seq::empty()) == s.len(),
{
}

/// A sequence is at distance zero from itself.
pub proof fn lemma_identity(s: Seq<char>)
    ensures
        edit_distance(s, s) == 0,
    decreases s.len(),
{
    if s.len() > 0 {
        lemma_identity(s.drop_last());
    }
}

/// The distance does not depend on which side each sequence stands.
pub proof fn lemma_symmetric(a: Seq<char>, b: Seq<char>)
    ensures
        edit_distance(a, b) == edit_distance(b, a),
    decreases a.len() + b.len(),
{
    if a.len() > 0 && b.len() > 0 {
        lemma_symmetric(a.drop_last(), b.drop_last());
        lemma_symmetric(a.drop_last(), b);
        lemma_symmetric(a, b.drop_last());
    }
}

/// The distance never exceeds the longer length.
pub proof fn lemma_upper_bound(a: Seq<char>, b: Seq<char>)
    ensures
        edit_distance(a, b) <= if a.len() >= b.len() { a.len() } else { b.len() },
    decreases a.len() + b.len(),
{
    if a.len() > 0 && b.len() > 0 {
        lemma_upper_bound(a.drop_last(), b.drop_last());
    }
}

/// The distance is at least the difference of the lengths.
pub proof fn lemma_lower_bound(a: Seq<char>, b: Seq<char>)
    ensures
        edit_distance(a, b) >= a.len() - b.len(),
        edit_distance(a, b) >= b.len() - a.len(),
    decreases a.len() + b.len(),
{
    if a.len() > 0 && b.len() > 0 {
        lemma_lower_bound(a.drop_last(), b.drop_last());
        lemma_lower_bound(a.drop_last(), b);
        lemma_lower_bound(a, b.drop_last());
    }
}

/// Going from `a` to `c` by way of `b` is never shorter than going directly.
pub proof fn lemma_triangle(a: Seq<char>, b: Seq<char>, c: Seq<char>)
    ensures
        edit_distance(a, c) <= edit_distance(a, b) + edit_distance(b, c),
    decreases a.len() + b.len() + c.len(),
{
    if a.len() == 0 {
        lemma_lower_bound(b, c);
    } else if c.len() == 0 {
        lemma_lower_bound(a, b);
    } else if b.len() == 0 {
        lemma_upper_bound(a, c);
    } else {
        let (a1, b1, c1) = (a.drop_last(), b.drop_last(), c.drop_last());
        let ab = edit_distance(a, b);
        let bc = edit_distance(b, c);
        if ab == edit_distance(a1, b) + 1 {
            lemma_triangle(a1, b, c);
        } else if bc == edit_distance(b, c1) + 1 {
            lemma_triangle(a, b, c1);
        } else if ab == edit_distance(a, b1) + 1 {
            if bc == edit_distance(b1, c) + 1 {
                lemma_triangle(a, b1, c);
            } else {
                lemma_triangle(a, b1, c1);
            }
        } else if bc == edit_distance(b1, c) + 1 {
            lemma_triangle(a1, b1, c);
        } else {
            lemma_triangle(a1, b1, c1);
        }
    }
}

} // verus!
