//! The record of the greedy search: for each depth and each diagonal, the
//! furthest x reached.

use vstd::prelude::*;
use crate::frontier::{
    arrives, entry, explored, frontier, lemma_arrival, lemma_distance_at_least,
    lemma_frontier_cost, lemma_frontier_unfold, none_arrives_before,
    none_arrives_left_of, slide,
};
use crate::lcs::{edit_distance, lemma_lcs_le_len, lemma_lcs_symmetric};
use crate::line::{lines_of, same_line};

verus! {

/// What the search has recorded for diagonal `k` at depth `d`, when it has
/// worked through that depth up to diagonal `last_k`: the furthest x on the
/// diagonal where the diagonal has been explored, and zero elsewhere.
pub open spec fn recorded<T>(a: Seq<T>, e: Seq<T>, d: int, k: int, last_k: int) -> int {
    if explored(d, k) && k <= last_k {
        frontier(a, e, d, k)
    } else {
        0
    }
}

/// `row` is the record of depth `d`, worked through up to diagonal `last_k`.
/// Diagonal `k` is held at offset `k + max`.
pub open spec fn row_records<T>(
    row: Seq<usize>,
    a: Seq<T>,
    e: Seq<T>,
    d: int,
    last_k: int,
    max: int,
) -> bool {
    &&& row.len() == 2 * max + 1
    &&& forall|j: int|
        0 <= j < row.len() ==> (#[trigger] row[j]) as int == recorded(a, e, d, j - max, last_k)
}

/// A table of recorded x coordinates as plain numbers, row by row.
pub open spec fn table_of(t: Seq<Vec<usize>>) -> Seq<Seq<int>> {
    Seq::new(t.len(), |d: int| Seq::new(t[d]@.len(), |j: int| t[d]@[j] as int))
}

/// The record of the search of the edit graph of `a` and `e` that ends at
/// depth `depth` on diagonal `k`: one complete row for each depth below
/// `depth`, and the row of `depth` worked through up to diagonal `k`. Each
/// row has `2 * max + 1` entries, where `max` is the sum of the two lengths,
/// and holds diagonal `j` at offset `j + max`.
pub open spec fn search_record<T>(a: Seq<T>, e: Seq<T>, depth: int, k: int) -> Seq<Seq<int>> {
    let max = (a.len() + e.len()) as int;
    Seq::new(
        (depth + 1) as nat,
        |d: int|
            Seq::new(
                (2 * max + 1) as nat,
                |j: int|
                    recorded(
                        a,
                        e,
                        d,
                        j - max,
                        if d < depth {
                            d
                        } else {
                            k
                        },
                    ),
            ),
    )
}

/// The rows of the record of a search of `expected` and `actual` can be
/// held: their length fits the machine's word.
pub open spec fn rows_fit(expected: Seq<&str>, actual: Seq<&str>) -> bool {
    2 * (expected.len() + actual.len()) + 1 <= usize::MAX
}

/// Makes a row of the record with a zero for every diagonal.
///
/// The row is built item by item, and so its length is known to fit the
/// machine's word whatever the lengths of the two sequences are.
fn blank_row(expected: &[&str], actual: &[&str]) -> (row: Vec<usize>)
    ensures
        row@.len() == 2 * (expected.len() + actual.len()) + 1,
        rows_fit(expected@, actual@),
        forall|j: int| 0 <= j < row@.len() ==> row@[j] == 0,
{
    let mut row: Vec<usize> = Vec::new();
    row.push(0);
    let mut seen: usize = 0;
    while seen < actual.len()
        invariant
            seen <= actual.len(),
            row@.len() == 2 * seen + 1,
            forall|j: int| 0 <= j < row@.len() ==> row@[j] == 0,
        decreases actual.len() - seen,
    {
        row.push(0);
        row.push(0);
        seen += 1;
    }
    let mut seen: usize = 0;
    while seen < expected.len()
        invariant
            seen <= expected.len(),
            row@.len() == 2 * (actual.len() + seen) + 1,
            forall|j: int| 0 <= j < row@.len() ==> row@[j] == 0,
        decreases expected.len() - seen,
    {
        row.push(0);
        row.push(0);
        seen += 1;
    }
    assert(row@.len() == row.len());
    row
}

/// Follows the run of equal lines that starts at `(start, start - k)` and
/// returns the x coordinate at which it ends.
fn follow_snake(expected: &[&str], actual: &[&str], start: usize, k: i128) -> (end: usize)
    requires
        rows_fit(expected@, actual@),
        -(expected.len() + actual.len()) <= k <= expected.len() + actual.len(),
        k <= start,
    ensures
        end == slide(lines_of(actual@), lines_of(expected@), start as int, k as int),
{
    let ghost a = lines_of(actual@);
    let ghost e = lines_of(expected@);
    let mut x: usize = start;
    while x < actual.len() && (x as i128 - k) < expected.len() as i128 && same_line(
        actual[x],
        expected[(x as i128 - k) as usize],
    )
        invariant
            a == lines_of(actual@),
            e == lines_of(expected@),
            rows_fit(expected@, actual@),
            -(expected.len() + actual.len()) <= k <= expected.len() + actual.len(),
            k <= start <= x,
            slide(a, e, x as int, k as int) == slide(a, e, start as int, k as int),
        decreases actual.len() - x,
    {
        x += 1;
    }
    x
}

/// Computes the furthest x on diagonal `k` at depth `depth` from the rows of
/// the depths below.
fn furthest_on_diagonal(
    expected: &[&str],
    actual: &[&str],
    trace: &Vec<Vec<usize>>,
    depth: usize,
    k: i128,
) -> (x: usize)
    requires
        rows_fit(expected@, actual@),
        depth <= expected.len() + actual.len(),
        explored(depth as int, k as int),
        trace.len() == depth,
        depth > 0 ==> row_records(
            trace@[depth - 1]@,
            lines_of(actual@),
            lines_of(expected@),
            depth - 1,
            depth - 1,
            expected.len() + actual.len(),
        ),
    ensures
        x == frontier(lines_of(actual@), lines_of(expected@), depth as int, k as int),
{
    let ghost a = lines_of(actual@);
    let ghost e = lines_of(expected@);
    let max_diff: usize = expected.len() + actual.len();
    let index: usize = (max_diff as i128 + k) as usize;
    let mut start: usize = 0;
    proof {
        lemma_frontier_cost(a, e, depth as int, k as int);
        lemma_frontier_unfold(a, e, depth as int, k as int);
    }
    if depth > 0 {
        let prev: &Vec<usize> = &trace[depth - 1];
        proof {
            if k != -depth {
                lemma_frontier_cost(a, e, depth - 1, k - 1);
                assert(prev@[index - 1] as int == recorded(
                    a,
                    e,
                    depth - 1,
                    index - 1 - max_diff,
                    depth - 1,
                ));
            }
            if k != depth {
                lemma_frontier_cost(a, e, depth - 1, k + 1);
                assert(prev@[index + 1] as int == recorded(
                    a,
                    e,
                    depth - 1,
                    index + 1 - max_diff,
                    depth - 1,
                ));
            }
        }
        if k == -(depth as i128) || (k != depth as i128 && prev[index - 1] < prev[index + 1]) {
            start = prev[index + 1];
        } else {
            start = prev[index - 1] + 1;
        }
    }
    assert(start == entry(a, e, depth as int, k as int));
    follow_snake(expected, actual, start, k)
}

/// Explores the diagonals of depth `depth` from the lowest upwards, until one
/// reaches the far corner, and records them in `row`, which comes blank.
/// Returns the row, and the diagonal that reached the corner if one did.
fn explore_depth(
    expected: &[&str],
    actual: &[&str],
    trace: &Vec<Vec<usize>>,
    depth: usize,
    row: Vec<usize>,
) -> (out: (Vec<usize>, Option<i64>))
    requires
        rows_fit(expected@, actual@),
        depth <= expected.len() + actual.len(),
        trace.len() == depth,
        depth > 0 ==> row_records(
            trace@[depth - 1]@,
            lines_of(actual@),
            lines_of(expected@),
            depth - 1,
            depth - 1,
            expected.len() + actual.len(),
        ),
        row@.len() == 2 * (expected.len() + actual.len()) + 1,
        forall|j: int| 0 <= j < row@.len() ==> row@[j] == 0,
    ensures
        ({
            let a = lines_of(actual@);
            let e = lines_of(expected@);
            let max = expected.len() + actual.len();
            match out.1 {
                Some(k) => {
                    &&& explored(depth as int, k as int)
                    &&& arrives(a, e, depth as int, k as int)
                    &&& row_records(out.0@, a, e, depth as int, k as int, max)
                },
                None => {
                    &&& none_arrives_left_of(a, e, depth as int, depth + 1)
                    &&& row_records(out.0@, a, e, depth as int, depth as int, max)
                },
            }
        }),
{
    let ghost a = lines_of(actual@);
    let ghost e = lines_of(expected@);
    let max_diff: usize = expected.len() + actual.len();
    let mut row: Vec<usize> = row;
    let mut k: i128 = -(depth as i128);
    while k <= depth as i128
        invariant
            a == lines_of(actual@),
            e == lines_of(expected@),
            max_diff == expected.len() + actual.len(),
            rows_fit(expected@, actual@),
            depth <= max_diff,
            trace.len() == depth,
            depth > 0 ==> row_records(trace@[depth - 1]@, a, e, depth - 1, depth - 1, max_diff as int),
            -depth <= k <= depth + 2,
            (depth + k) % 2 == 0,
            row_records(row@, a, e, depth as int, k - 1, max_diff as int),
            none_arrives_left_of(a, e, depth as int, k as int),
        decreases depth + 2 - k,
    {
        let x: usize = furthest_on_diagonal(expected, actual, trace, depth, k);
        let index: usize = (max_diff as i128 + k) as usize;
        proof {
            lemma_frontier_cost(a, e, depth as int, k as int);
        }
        let ghost before = row@;
        row.set(index, x);
        proof {
            assert forall|j: int| 0 <= j < row@.len() implies (#[trigger] row@[j]) as int == recorded(
                a,
                e,
                depth as int,
                j - max_diff,
                k as int,
            ) by {
                if j != index {
                    assert(row@[j] == before[j]);
                }
            }
        }
        if x >= actual.len() && x as i128 - k >= expected.len() as i128 {
            return (row, Some(k as i64));
        }
        proof {
            assert forall|j: int| 0 <= j < row@.len() implies (#[trigger] row@[j]) as int == recorded(
                a,
                e,
                depth as int,
                j - max_diff,
                k + 1,
            ) by {
                assert(row@[j] as int == recorded(a, e, depth as int, j - max_diff, k as int));
            }
            assert(!arrives(a, e, depth as int, k as int));
            assert forall|j: int| j < k + 2 && explored(depth as int, j) implies !#[trigger] arrives(
                a,
                e,
                depth as int,
                j,
            ) by {
                if j < k {
                } else {
                    assert(j == k);
                }
            }
        }
        k += 2;
    }
    proof {
        assert forall|j: int| 0 <= j < row@.len() implies (#[trigger] row@[j]) as int == recorded(
            a,
            e,
            depth as int,
            j - max_diff,
            depth as int,
        ) by {
            assert(row@[j] as int == recorded(a, e, depth as int, j - max_diff, k - 1));
        }
    }
    (row, None)
}

/// Searches the edit graph of `expected` and `actual` depth by depth until a
/// diagonal reaches the far corner, and returns the record of the search
/// with the depth and the diagonal at which it ended.
///
/// At depth zero the search follows the snake from the origin. At each
/// further depth it enters each diagonal `k` of the depth's parity between
/// `-depth` and `depth` from the diagonal above, keeping x, where there is
/// none below or the one above was recorded strictly further along x, and
/// else from the diagonal below, one step further along x; then it follows
/// the snake.
///
/// The record holds one row of `2 * max + 1` entries for each depth tried,
/// where `max` is the sum of the two lengths, so it grows with the product of
/// `max` and the edit distance, and with the square of `max` at worst. The
/// search always ends, no later than at depth `max`: the depth at which it
/// ends is the edit distance of the two sequences, and the diagonal is that
/// of the far corner.
///
/// No length is asked of the two sequences: the first row is built item by
/// item, so where the rows can be held at all, their length fits the
/// machine's word, and with it every number that the search computes.
pub fn compute_trace(expected: &[&str], actual: &[&str]) -> (found: (Vec<Vec<usize>>, usize, i64))
    ensures
        table_of(found.0@) == search_record(
            lines_of(actual@),
            lines_of(expected@),
            found.1 as int,
            found.2 as int,
        ),
        found.1 == edit_distance(lines_of(expected@), lines_of(actual@)),
        found.2 == actual.len() - expected.len(),
{
    let ghost a = lines_of(actual@);
    let ghost e = lines_of(expected@);
    let mut blank: Vec<usize> = blank_row(expected, actual);
    let max_diff: usize = expected.len() + actual.len();
    let width: usize = blank.len();
    let mut trace: Vec<Vec<usize>> = Vec::new();
    let mut depth: usize = 0;
    proof {
        lemma_lcs_le_len(a, e);
        lemma_lcs_symmetric(a, e);
    }
    loop
        invariant
            a == lines_of(actual@),
            e == lines_of(expected@),
            max_diff == expected.len() + actual.len(),
            rows_fit(expected@, actual@),
            width == 2 * max_diff + 1,
            blank@.len() == width,
            forall|j: int| 0 <= j < blank@.len() ==> blank@[j] == 0,
            depth <= edit_distance(a, e) <= max_diff,
            edit_distance(a, e) == edit_distance(e, a),
            trace.len() == depth,
            forall|d: int|
                0 <= d < depth ==> row_records(#[trigger] trace@[d]@, a, e, d, d, max_diff as int),
            none_arrives_before(a, e, depth as int),
        decreases max_diff - depth,
    {
        let (row, arrival) = explore_depth(expected, actual, &trace, depth, blank);
        let ghost earlier = trace@;
        trace.push(row);
        assert forall|d: int| 0 <= d < depth implies row_records(
            #[trigger] trace@[d]@,
            a,
            e,
            d,
            d,
            max_diff as int,
        ) by {
            assert(trace@[d] == earlier[d]);
        }
        match arrival {
            Some(k) => {
                proof {
                    lemma_arrival(a, e, depth as int, k as int);
                    let record = search_record(a, e, depth as int, k as int);
                    assert forall|d: int| 0 <= d <= depth implies #[trigger] table_of(trace@)[d]
                        == record[d] by {
                        let last: int = if d < depth {
                            d
                        } else {
                            k as int
                        };
                        assert(row_records(trace@[d]@, a, e, d, last, max_diff as int));
                        assert(table_of(trace@)[d] =~= record[d]);
                    }
                    assert(table_of(trace@) =~= record);
                }
                return (trace, depth, k);
            },
            None => {
                proof {
                    assert forall|d: int, j: int| 0 <= d < depth + 1 && explored(d, j) implies !#[trigger] arrives(
                        a,
                        e,
                        d,
                        j,
                    ) by {
                    }
                    lemma_distance_at_least(a, e, depth + 1);
                }
                depth += 1;
                blank = vec![0usize; width];
            },
        }
    }
}

} // verus!
