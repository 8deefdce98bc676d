//! The length of a longest common subsequence, and the edit distance that
//! follows from it.

use vstd::prelude::*;

verus! {

/// The length of a longest common subsequence of `a` and `b`.
pub open spec fn lcs_len<T>(a: Seq<T>, b: Seq<T>) -> nat
    decreases a.len() + b.len(),
{
    if a.len() == 0 || b.len() == 0 {
        0
    } else if a.last() == b.last() {
        1 + lcs_len(a.drop_last(), b.drop_last())
    } else {
        let without_a = lcs_len(a.drop_last(), b);
        let without_b = lcs_len(a, b.drop_last());
        if without_a >= without_b {
            without_a
        } else {
            without_b
        }
    }
}

/// The least number of single-item insertions and deletions that turn `b`
/// into `a`: every item outside a longest common subsequence is touched once.
pub open spec fn edit_distance<T>(a: Seq<T>, b: Seq<T>) -> int {
    a.len() + b.len() - 2 * lcs_len(a, b)
}

/// A common subsequence is no longer than either sequence.
pub proof fn lemma_lcs_le_len<T>(a: Seq<T>, b: Seq<T>)
    ensures
        lcs_len(a, b) <= a.len(),
        lcs_len(a, b) <= b.len(),
    decreases a.len() + b.len(),
{
    if a.len() == 0 || b.len() == 0 {
    } else {
        lemma_lcs_le_len(a.drop_last(), b.drop_last());
        lemma_lcs_le_len(a.drop_last(), b);
        lemma_lcs_le_len(a, b.drop_last());
    }
}

/// Dropping the last item of either sequence lowers the length of a longest
/// common subsequence by at most one, and never raises it.
pub proof fn lemma_lcs_drop_last<T>(a: Seq<T>, b: Seq<T>)
    ensures
        a.len() > 0 ==> lcs_len(a.drop_last(), b) <= lcs_len(a, b) <= lcs_len(a.drop_last(), b)
            + 1,
        b.len() > 0 ==> lcs_len(a, b.drop_last()) <= lcs_len(a, b) <= lcs_len(a, b.drop_last())
            + 1,
    decreases a.len() + b.len(),
{
    if a.len() == 0 || b.len() == 0 {
    } else {
        lemma_lcs_drop_last(a.drop_last(), b);
        lemma_lcs_drop_last(a, b.drop_last());
    }
}

/// The order of the two sequences does not matter.
pub proof fn lemma_lcs_symmetric<T>(a: Seq<T>, b: Seq<T>)
    ensures
        lcs_len(a, b) == lcs_len(b, a),
    decreases a.len() + b.len(),
{
    if a.len() == 0 || b.len() == 0 {
    } else {
        lemma_lcs_symmetric(a.drop_last(), b.drop_last());
        lemma_lcs_symmetric(a.drop_last(), b);
        lemma_lcs_symmetric(a, b.drop_last());
    }
}

/// A sequence is its own longest common subsequence with itself.
pub proof fn lemma_lcs_self<T>(a: Seq<T>)
    ensures
        lcs_len(a, a) == a.len(),
    decreases a.len(),
{
    if a.len() > 0 {
        lemma_lcs_self(a.drop_last());
    }
}

/// `s` is what is left of `a` when some of its items are taken away.
pub open spec fn is_subsequence<T>(s: Seq<T>, a: Seq<T>) -> bool
    decreases a.len(),
{
    s.len() == 0 || (a.len() > 0 && (is_subsequence(s, a.drop_last()) || (s.last() == a.last()
        && is_subsequence(s.drop_last(), a.drop_last()))))
}

/// One longest common subsequence of `a` and `b`.
pub open spec fn longest_common<T>(a: Seq<T>, b: Seq<T>) -> Seq<T>
    decreases a.len() + b.len(),
{
    if a.len() == 0 || b.len() == 0 {
        Seq::empty()
    } else if a.last() == b.last() {
        longest_common(a.drop_last(), b.drop_last()).push(a.last())
    } else if lcs_len(a.drop_last(), b) >= lcs_len(a, b.drop_last()) {
        longest_common(a.drop_last(), b)
    } else {
        longest_common(a, b.drop_last())
    }
}

/// No common subsequence of `a` and `b` is longer than `lcs_len` says.
pub proof fn lemma_common_subsequence_le<T>(s: Seq<T>, a: Seq<T>, b: Seq<T>)
    requires
        is_subsequence(s, a),
        is_subsequence(s, b),
    ensures
        s.len() <= lcs_len(a, b),
    decreases a.len() + b.len(),
{
    if s.len() > 0 {
        lemma_lcs_drop_last(a, b);
        if is_subsequence(s, a.drop_last()) {
            lemma_common_subsequence_le(s, a.drop_last(), b);
        } else if is_subsequence(s, b.drop_last()) {
            lemma_common_subsequence_le(s, a, b.drop_last());
        } else {
            lemma_common_subsequence_le(s.drop_last(), a.drop_last(), b.drop_last());
        }
    }
}

/// A common subsequence of `a` and `b` exists that is as long as `lcs_len`
/// says.
pub proof fn lemma_longest_common<T>(a: Seq<T>, b: Seq<T>)
    ensures
        is_subsequence(longest_common(a, b), a),
        is_subsequence(longest_common(a, b), b),
        longest_common(a, b).len() == lcs_len(a, b),
    decreases a.len() + b.len(),
{
    if a.len() == 0 || b.len() == 0 {
    } else if a.last() == b.last() {
        lemma_longest_common(a.drop_last(), b.drop_last());
        let found = longest_common(a, b);
        assert(found.drop_last() =~= longest_common(a.drop_last(), b.drop_last()));
    } else if lcs_len(a.drop_last(), b) >= lcs_len(a, b.drop_last()) {
        lemma_longest_common(a.drop_last(), b);
        lemma_subsequence_of_longer(longest_common(a, b), a.drop_last(), a.last());
    } else {
        lemma_longest_common(a, b.drop_last());
        lemma_subsequence_of_longer(longest_common(a, b), b.drop_last(), b.last());
    }
}

/// A subsequence of a sequence is one of every sequence that continues it.
pub proof fn lemma_subsequence_of_longer<T>(s: Seq<T>, a: Seq<T>, item: T)
    requires
        is_subsequence(s, a),
    ensures
        is_subsequence(s, a.push(item)),
{
    assert(a.push(item).drop_last() =~= a);
}

} // verus!
