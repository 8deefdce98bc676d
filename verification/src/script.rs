//! Edit scripts as mathematics: what a list of kept, inserted and deleted
//! items says about the two sequences it relates.

use vstd::prelude::*;
use crate::lcs::{edit_distance, lcs_len, lemma_lcs_drop_last};
use crate::operation::Operation;

verus! {

/// The items that the script finds in `actual`, in order: those that it
/// deletes and those that it keeps.
pub open spec fn actual_side<T>(ops: Seq<(Operation, T)>) -> Seq<T>
    decreases ops.len(),
{
    if ops.len() == 0 {
        Seq::empty()
    } else if ops.last().0 == Operation::Insert {
        actual_side(ops.drop_last())
    } else {
        actual_side(ops.drop_last()).push(ops.last().1)
    }
}

/// The items that the script leaves in `expected`, in order: those that it
/// inserts and those that it keeps.
pub open spec fn expected_side<T>(ops: Seq<(Operation, T)>) -> Seq<T>
    decreases ops.len(),
{
    if ops.len() == 0 {
        Seq::empty()
    } else if ops.last().0 == Operation::Delete {
        expected_side(ops.drop_last())
    } else {
        expected_side(ops.drop_last()).push(ops.last().1)
    }
}

/// The number of operations of kind `kind` in the script.
pub open spec fn count_of<T>(ops: Seq<(Operation, T)>, kind: Operation) -> nat
    decreases ops.len(),
{
    if ops.len() == 0 {
        0
    } else if ops.last().0 == kind {
        count_of(ops.drop_last(), kind) + 1
    } else {
        count_of(ops.drop_last(), kind)
    }
}

/// The number of insertions and deletions in the script.
pub open spec fn changes<T>(ops: Seq<(Operation, T)>) -> nat {
    count_of(ops, Operation::Insert) + count_of(ops, Operation::Delete)
}

/// The script turns `actual` into `expected`: taking its deleted and kept
/// items gives `actual`, and taking its inserted and kept items gives
/// `expected`.
pub open spec fn is_edit_script<T>(ops: Seq<(Operation, T)>, expected: Seq<T>, actual: Seq<T>) -> bool {
    actual_side(ops) == actual && expected_side(ops) == expected
}

/// Both sides of two scripts in a row are those of the first followed by
/// those of the second.
pub proof fn lemma_script_concat<T>(first: Seq<(Operation, T)>, second: Seq<(Operation, T)>)
    ensures
        actual_side(first + second) == actual_side(first) + actual_side(second),
        expected_side(first + second) == expected_side(first) + expected_side(second),
    decreases second.len(),
{
    if second.len() == 0 {
        assert(first + second =~= first);
        assert(actual_side(first) + actual_side(second) =~= actual_side(first));
        assert(expected_side(first) + expected_side(second) =~= expected_side(first));
    } else {
        lemma_script_concat(first, second.drop_last());
        assert((first + second).drop_last() =~= first + second.drop_last());
        assert((first + second).last() == second.last());
        assert(actual_side(first + second) =~= actual_side(first) + actual_side(second));
        assert(expected_side(first + second) =~= expected_side(first) + expected_side(second));
    }
}

/// Two scripts in a row hold as many operations of a kind as the two hold
/// together.
pub proof fn lemma_count_concat<T>(
    first: Seq<(Operation, T)>,
    second: Seq<(Operation, T)>,
    kind: Operation,
)
    ensures
        count_of(first + second, kind) == count_of(first, kind) + count_of(second, kind),
    decreases second.len(),
{
    if second.len() == 0 {
        assert(first + second =~= first);
    } else {
        lemma_count_concat(first, second.drop_last(), kind);
        assert((first + second).drop_last() =~= first + second.drop_last());
        assert((first + second).last() == second.last());
    }
}

/// Each operation of a script is of exactly one kind.
pub proof fn lemma_counts<T>(ops: Seq<(Operation, T)>)
    ensures
        count_of(ops, Operation::Insert) + count_of(ops, Operation::Delete) + count_of(
            ops,
            Operation::Nothing,
        ) == ops.len(),
        actual_side(ops).len() == count_of(ops, Operation::Delete) + count_of(ops, Operation::Nothing),
        expected_side(ops).len() == count_of(ops, Operation::Insert) + count_of(
            ops,
            Operation::Nothing,
        ),
    decreases ops.len(),
{
    if ops.len() > 0 {
        lemma_counts(ops.drop_last());
    }
}

/// No script that turns `actual` into `expected` has fewer insertions and
/// deletions than the edit distance of the two: what it keeps is a common
/// subsequence.
pub proof fn lemma_no_shorter_script<T>(ops: Seq<(Operation, T)>, expected: Seq<T>, actual: Seq<T>)
    requires
        is_edit_script(ops, expected, actual),
    ensures
        changes(ops) >= edit_distance(expected, actual),
        count_of(ops, Operation::Nothing) <= lcs_len(expected, actual),
    decreases ops.len(),
{
    if ops.len() > 0 {
        let rest = ops.drop_last();
        let line = ops.last().1;
        lemma_counts(ops);
        lemma_counts(rest);
        match ops.last().0 {
            Operation::Nothing => {
                assert(actual.drop_last() =~= actual_side(rest));
                assert(expected.drop_last() =~= expected_side(rest));
                lemma_no_shorter_script(rest, expected.drop_last(), actual.drop_last());
            },
            Operation::Delete => {
                assert(actual.drop_last() =~= actual_side(rest));
                lemma_no_shorter_script(rest, expected, actual.drop_last());
                lemma_lcs_drop_last(expected, actual);
            },
            Operation::Insert => {
                assert(expected.drop_last() =~= expected_side(rest));
                lemma_no_shorter_script(rest, expected.drop_last(), actual);
                lemma_lcs_drop_last(expected, actual);
            },
        }
    }
}

} // verus!
