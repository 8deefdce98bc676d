//! The backward walk, stated over the search itself: which diagonals it
//! visits, and what holds of the points it meets.

use vstd::prelude::*;
use crate::frontier::{
    entry, explored, frontier, lemma_frontier_cost, lemma_frontier_unfold, lemma_slide_run,
};
use crate::lcs::edit_distance;
use crate::operation::Operation;
use crate::path::{cell, path_of, previous_diagonal, walkable};
use crate::render::{
    advance, consumed, kept, lead, renderable, rendering, segment, segment_fits, turn,
};
use crate::script::{
    actual_side, count_of, expected_side, lemma_count_concat, lemma_script_concat,
};
use crate::trace::search_record;

verus! {

/// Whether the walk leaves diagonal `k` at depth `d > 0` for diagonal
/// `k + 1`, rather than for diagonal `k - 1`.
pub open spec fn steps_up<T>(a: Seq<T>, e: Seq<T>, d: int, k: int) -> bool {
    k == -d || (k != d && frontier(a, e, d - 1, k + 1) >= frontier(a, e, d - 1, k - 1))
}

/// The diagonal that the walk visits at depth `d - 1`, coming from diagonal
/// `k` at depth `d`.
pub open spec fn predecessor<T>(a: Seq<T>, e: Seq<T>, d: int, k: int) -> int {
    if steps_up(a, e, d, k) {
        k + 1
    } else {
        k - 1
    }
}

/// The two neighbours of diagonal `k` were recorded with the same x at depth
/// `d - 1`.
///
/// On a tie the search and the walk part ways: the search enters diagonal
/// `k` from the diagonal below, one step further along x, while the walk
/// leaves it for the diagonal above. The walk then takes the item of
/// `actual` at the tied x for part of the snake, though the search did not
/// compare it with the item of `expected` beside it.
pub open spec fn tied<T>(a: Seq<T>, e: Seq<T>, d: int, k: int) -> bool {
    d > 0 && k != -d && k != d && frontier(a, e, d - 1, k - 1) == frontier(a, e, d - 1, k + 1)
}

/// The points that the walk meets from diagonal `k` at depth `d` down to
/// depth zero, in the order of rising depth.
pub open spec fn snake_ends<T>(a: Seq<T>, e: Seq<T>, d: int, k: int) -> Seq<(int, int)>
    decreases d,
{
    let x = frontier(a, e, d, k);
    if d <= 0 {
        seq![(x, x - k)]
    } else {
        snake_ends(a, e, d - 1, predecessor(a, e, d, k)).push((x, x - k))
    }
}

/// The points that the walk meets when it starts where the search of the
/// edit graph of `a` and `e` ends: at the depth of their edit distance, on
/// the diagonal of the far corner.
pub open spec fn snake_path<T>(a: Seq<T>, e: Seq<T>) -> Seq<(int, int)> {
    snake_ends(a, e, edit_distance(a, e), a.len() - e.len())
}

/// One step of the walk leads to an explored diagonal of the depth below, and
/// to a point that lies no further along either axis. Unless the two
/// neighbours are tied, it undoes the step by which the search entered the
/// diagonal.
pub proof fn lemma_predecessor<T>(a: Seq<T>, e: Seq<T>, d: int, k: int)
    requires
        explored(d, k),
        d > 0,
    ensures
        ({
            let p = predecessor(a, e, d, k);
            let x = frontier(a, e, d, k);
            let px = frontier(a, e, d - 1, p);
            &&& explored(d - 1, p)
            &&& 0 <= px
            &&& 0 <= px - p
            &&& p == k - 1 ==> px + 1 == entry(a, e, d, k)
            &&& p == k + 1 && !tied(a, e, d, k) ==> px == entry(a, e, d, k)
            &&& tied(a, e, d, k) ==> p == k + 1 && px + 1 == entry(a, e, d, k)
            &&& entry(a, e, d, k) <= x
        }),
{
    let p = predecessor(a, e, d, k);
    lemma_frontier_cost(a, e, d - 1, p);
    lemma_frontier_unfold(a, e, d, k);
}

/// The walk through the record of a search visits the diagonals, and meets
/// the points, that the walk over the search itself does.
pub proof fn lemma_record_walk<T>(a: Seq<T>, e: Seq<T>, depth: int, last: int, d: int, k: int)
    requires
        a.len() + e.len() <= usize::MAX,
        explored(d, k),
        d < depth || (d == depth && k == last),
        depth <= a.len() + e.len(),
        frontier(a, e, d, k) <= a.len(),
        frontier(a, e, d, k) - k <= e.len(),
    ensures
        walkable(search_record(a, e, depth, last), d, k, (a.len() + e.len()) as int),
        path_of(search_record(a, e, depth, last), d, k, (a.len() + e.len()) as int) == snake_ends(
            a,
            e,
            d,
            k,
        ),
    decreases d,
{
    let max = (a.len() + e.len()) as int;
    let t = search_record(a, e, depth, last);
    lemma_frontier_cost(a, e, d, k);
    assert(cell(t, d, k, max) == frontier(a, e, d, k));
    if d > 0 {
        lemma_predecessor(a, e, d, k);
        if k != -d {
            lemma_frontier_cost(a, e, d - 1, k - 1);
            assert(cell(t, d - 1, k - 1, max) == frontier(a, e, d - 1, k - 1));
        }
        if k != d {
            lemma_frontier_cost(a, e, d - 1, k + 1);
            assert(cell(t, d - 1, k + 1, max) == frontier(a, e, d - 1, k + 1));
        }
        let p = predecessor(a, e, d, k);
        assert(previous_diagonal(t, d, k, max) == p);
        lemma_record_walk(a, e, depth, last, d - 1, p);
    }
}

/// At every tie that the walk from diagonal `k` at depth `d` meets, the
/// item of `a` at the tied x equals the item of `e` beside it on the
/// diagonal that the walk leaves.
pub open spec fn ties_agree<T>(a: Seq<T>, e: Seq<T>, d: int, k: int) -> bool
    decreases d,
{
    d <= 0 || {
        let v = frontier(a, e, d - 1, k + 1);
        &&& tied(a, e, d, k) ==> a[v] == e[v - k]
        &&& ties_agree(a, e, d - 1, predecessor(a, e, d, k))
    }
}

/// The sides and counts of a script of one operation.
pub proof fn lemma_single<T>(kind: Operation, item: T)
    ensures
        actual_side(seq![(kind, item)]) == if kind == Operation::Insert {
            Seq::<T>::empty()
        } else {
            seq![item]
        },
        expected_side(seq![(kind, item)]) == if kind == Operation::Delete {
            Seq::<T>::empty()
        } else {
            seq![item]
        },
        forall|other: Operation| #[trigger]
            count_of(seq![(kind, item)], other) == if other == kind {
                1nat
            } else {
                0nat
            },
{
    let one = seq![(kind, item)];
    assert(one.drop_last() =~= Seq::<(Operation, T)>::empty());
    assert(one.last() == (kind, item));
    assert(actual_side(one.drop_last()) =~= Seq::<T>::empty());
    assert(expected_side(one.drop_last()) =~= Seq::<T>::empty());
    assert(Seq::<T>::empty().push(item) =~= seq![item]);
    assert forall|other: Operation| #[trigger]
        count_of(one, other) == if other == kind {
            1nat
        } else {
            0nat
        } by {
        assert(count_of(one.drop_last(), other) == 0);
    }
}

/// A run of kept items stands on both sides, and changes nothing.
pub proof fn lemma_kept<T>(a: Seq<T>, from: int, to: int)
    requires
        0 <= from,
        to <= a.len(),
    ensures
        actual_side(kept(a, from, to)) == if from < to {
            a.subrange(from, to)
        } else {
            Seq::<T>::empty()
        },
        expected_side(kept(a, from, to)) == actual_side(kept(a, from, to)),
        count_of(kept(a, from, to), Operation::Insert) == 0,
        count_of(kept(a, from, to), Operation::Delete) == 0,
    decreases to - from,
{
    if from < to {
        lemma_kept(a, from, to - 1);
        let run = kept(a, from, to);
        assert(run.drop_last() =~= kept(a, from, to - 1));
        assert(run.last() == (Operation::Nothing, a[to - 1]));
        if from < to - 1 {
            assert(a.subrange(from, to - 1).push(a[to - 1]) =~= a.subrange(from, to));
        } else {
            assert(Seq::<T>::empty().push(a[to - 1]) =~= a.subrange(from, to));
        }
    }
}

/// What the walk writes for the snake at the origin: the items of the
/// snake, kept, which stand in both sequences.
pub proof fn lemma_first_segment<T>(a: Seq<T>, e: Seq<T>)
    requires
        frontier(a, e, 0, 0) <= a.len(),
        frontier(a, e, 0, 0) <= e.len(),
    ensures
        ({
            let x = frontier(a, e, 0, 0);
            let written = segment(a, e, (0int, 0int), (x, x));
            &&& 0 <= x
            &&& advance((0int, 0int), (x, x)) == (x, x)
            &&& segment_fits((0int, 0int), (x, x), a.len() as int, e.len() as int)
            &&& actual_side(written) == a.take(x)
            &&& expected_side(written) == e.take(x)
            &&& count_of(written, Operation::Insert) == 0
            &&& count_of(written, Operation::Delete) == 0
        }),
{
    let x = frontier(a, e, 0, 0);
    lemma_frontier_cost(a, e, 0, 0);
    lemma_frontier_unfold(a, e, 0, 0);
    lemma_slide_run(a, e, 0, 0);
    assert(forall|i: int| 0 <= i < x ==> a[i] == e[i]);
    assert(segment(a, e, (0int, 0int), (x, x)) =~= kept(a, 0, x));
    lemma_kept(a, 0, x);
    if 0 < x {
        assert(a.subrange(0, x) =~= a.take(x));
        assert(a.subrange(0, x) =~= e.take(x));
    } else {
        assert(a.take(x) =~= Seq::<T>::empty());
        assert(e.take(x) =~= Seq::<T>::empty());
    }
}

/// What the walk writes between the point of depth `d - 1` and the point of
/// depth `d`: one deletion or insertion, then the kept items of `actual` up
/// to the point. Unless a tie lies before a pair of unequal items, the
/// inserted and kept items are those of `expected` between the two points.
pub proof fn lemma_next_segment<T>(a: Seq<T>, e: Seq<T>, d: int, k: int)
    requires
        explored(d, k),
        d > 0,
        frontier(a, e, d, k) <= a.len(),
        frontier(a, e, d, k) - k <= e.len(),
    ensures
        ({
            let p = predecessor(a, e, d, k);
            let px = frontier(a, e, d - 1, p);
            let x = frontier(a, e, d, k);
            let at = (px, px - p);
            let to = (x, x - k);
            let written = segment(a, e, at, to);
            &&& explored(d - 1, p)
            &&& 0 <= px <= x
            &&& 0 <= px - p <= x - k
            &&& advance(at, to) == to
            &&& segment_fits(at, to, a.len() as int, e.len() as int)
            &&& actual_side(written).len() == x - px
            &&& a.take(px) + actual_side(written) == a.take(x)
            &&& expected_side(written).len() == (x - k) - (px - p)
            &&& count_of(written, Operation::Insert) + count_of(written, Operation::Delete) == 1
            &&& (tied(a, e, d, k) ==> a[px] == e[px - k]) <==> e.take(px - p) + expected_side(
                written,
            ) == e.take(x - k)
        }),
{
    let p = predecessor(a, e, d, k);
    let px = frontier(a, e, d - 1, p);
    let py = px - p;
    let x = frontier(a, e, d, k);
    let y = x - k;
    let at = (px, py);
    let to = (x, y);
    let start = entry(a, e, d, k);
    lemma_frontier_cost(a, e, d, k);
    lemma_frontier_unfold(a, e, d, k);
    lemma_slide_run(a, e, start, k);
    lemma_predecessor(a, e, d, k);
    assert(forall|i: int| start <= i < x ==> a[i] == e[i - k]);
    let turned = turn(at, to);
    let first = lead(a, e, at, to);
    let run = kept(a, turned.0, x);
    lemma_script_concat(first, run);
    lemma_count_concat(first, run, Operation::Insert);
    lemma_count_concat(first, run, Operation::Delete);
    lemma_kept(a, turned.0, x);
    if p == k - 1 {
        lemma_single(Operation::Delete, a[px]);
        assert(first == seq![(Operation::Delete, a[px])]);
        assert(turned == (px + 1, py));
        assert(a.take(px) + (seq![a[px]] + actual_side(run)) =~= a.take(x));
        assert(e.take(py) + (Seq::<T>::empty() + expected_side(run)) =~= e.take(y));
    } else {
        lemma_single(Operation::Insert, e[py]);
        assert(first == seq![(Operation::Insert, e[py])]);
        assert(turned == (px, py + 1));
        assert(a.take(px) + (Seq::<T>::empty() + actual_side(run)) =~= a.take(x));
        if tied(a, e, d, k) ==> a[px] == e[px - k] {
            assert(forall|i: int| px <= i < x ==> a[i] == e[i - k]);
            assert(e.take(py) + (seq![e[py]] + expected_side(run)) =~= e.take(y));
        } else {
            let beside = e.take(py) + (seq![e[py]] + expected_side(run));
            assert(expected_side(run) == a.subrange(px, x));
            assert(beside[py + 1] == a[px]);
            assert(e.take(y)[py + 1] == e[px - k]);
        }
    }
}

/// What the rendering of the walk from diagonal `k` at depth `d` holds: it
/// consumes `actual` up to the point of that depth, with one insertion or
/// deletion for each depth; and where the ties agree, it yields `expected`
/// up to that point.
pub proof fn lemma_render_walk<T>(a: Seq<T>, e: Seq<T>, d: int, k: int)
    requires
        explored(d, k),
        frontier(a, e, d, k) <= a.len(),
        frontier(a, e, d, k) - k <= e.len(),
    ensures
        ({
            let path = snake_ends(a, e, d, k);
            let script = rendering(path, a, e);
            let x = frontier(a, e, d, k);
            &&& path.len() == d + 1
            &&& path.last() == (x, x - k)
            &&& consumed(path) == (x, x - k)
            &&& renderable(path, a.len() as int, e.len() as int)
            &&& actual_side(script) == a.take(x)
            &&& expected_side(script).len() == x - k
            &&& count_of(script, Operation::Insert) + count_of(script, Operation::Delete) == d
            &&& ties_agree(a, e, d, k) <==> expected_side(script) == e.take(x - k)
        }),
    decreases d,
{
    let path = snake_ends(a, e, d, k);
    let x = frontier(a, e, d, k);
    let to = (x, x - k);
    let earlier = path.drop_last();
    let at = consumed(earlier);
    let written = rendering(earlier, a, e);
    let next = segment(a, e, at, to);
    assert(path.last() == to);
    assert(rendering(path, a, e) == written + next);
    lemma_script_concat(written, next);
    lemma_count_concat(written, next, Operation::Insert);
    lemma_count_concat(written, next, Operation::Delete);
    if d == 0 {
        assert(earlier =~= Seq::<(int, int)>::empty());
        assert(written =~= Seq::<(Operation, T)>::empty());
        lemma_first_segment(a, e);
        assert(written + next =~= next);
        assert forall|i: int| 0 <= i < path.len() implies segment_fits(
            consumed(#[trigger] path.take(i)),
            path[i],
            a.len() as int,
            e.len() as int,
        ) by {
            assert(path.take(0) =~= earlier);
        }
    } else {
        let p = predecessor(a, e, d, k);
        lemma_next_segment(a, e, d, k);
        lemma_render_walk(a, e, d - 1, p);
        assert(earlier =~= snake_ends(a, e, d - 1, p));
        let px = frontier(a, e, d - 1, p);
        let beside = expected_side(written) + expected_side(next);
        if beside == e.take(x - k) {
            assert(expected_side(written) =~= beside.take(px - p));
            assert(e.take(px - p) =~= e.take(x - k).take(px - p));
        }
        assert forall|i: int| 0 <= i < path.len() implies segment_fits(
            consumed(#[trigger] path.take(i)),
            path[i],
            a.len() as int,
            e.len() as int,
        ) by {
            if i < d {
                assert(path.take(i) =~= earlier.take(i));
                assert(path[i] == earlier[i]);
            } else {
                assert(path.take(i) =~= earlier);
            }
        }
    }
}

} // verus!
