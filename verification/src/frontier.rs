//! The greedy search of the edit graph, as mathematics.
//!
//! Throughout, `a` is the `actual` sequence, laid along the x axis of the edit
//! graph, and `e` is the `expected` sequence, laid along the y axis. A point
//! `(x, y)` stands for "x items of `a` and y items of `e` consumed", and its
//! diagonal is `k = x - y`.

use vstd::prelude::*;
use crate::lcs::{edit_distance, lemma_lcs_drop_last, lemma_lcs_le_len};

verus! {

/// The x coordinate at which the run of matches that starts at `(x, x - k)`
/// ends: the end of the snake on diagonal `k` entered at `x`.
pub open spec fn slide<T>(a: Seq<T>, e: Seq<T>, x: int, k: int) -> int
    decreases a.len() - x,
{
    if 0 <= x < a.len() && 0 <= x - k < e.len() && a[x] == e[x - k] {
        slide(a, e, x + 1, k)
    } else {
        x
    }
}

/// The x coordinate recorded for diagonal `k` at search depth `d`: the end of
/// the snake entered from the better of the two neighbouring diagonals of the
/// previous depth.
pub open spec fn frontier<T>(a: Seq<T>, e: Seq<T>, d: int, k: int) -> int
    decreases d,
{
    if d <= 0 {
        slide(a, e, 0, k)
    } else {
        let below = frontier(a, e, d - 1, k - 1);
        let above = frontier(a, e, d - 1, k + 1);
        if k == -d || (k != d && below < above) {
            slide(a, e, above, k)
        } else {
            slide(a, e, below + 1, k)
        }
    }
}

/// Whether the search enters diagonal `k` at depth `d > 0` from diagonal
/// `k + 1`, keeping x, rather than from diagonal `k - 1`, advancing x by one.
pub open spec fn enters_from_above<T>(a: Seq<T>, e: Seq<T>, d: int, k: int) -> bool {
    k == -d || (k != d && frontier(a, e, d - 1, k - 1) < frontier(a, e, d - 1, k + 1))
}

/// The x coordinate at which the search enters diagonal `k` at depth `d`,
/// before it slides down the snake.
pub open spec fn entry<T>(a: Seq<T>, e: Seq<T>, d: int, k: int) -> int {
    if d <= 0 {
        0
    } else if enters_from_above(a, e, d, k) {
        frontier(a, e, d - 1, k + 1)
    } else {
        frontier(a, e, d - 1, k - 1) + 1
    }
}

/// Diagonal `k` is explored at depth `d`.
pub open spec fn explored(d: int, k: int) -> bool {
    0 <= d && -d <= k <= d && (d + k) % 2 == 0
}

/// The point `(x, x - k)` lies at or beyond the far corner of the edit graph.
pub open spec fn at_corner<T>(a: Seq<T>, e: Seq<T>, x: int, k: int) -> bool {
    x >= a.len() && x - k >= e.len()
}

/// The search has reached the far corner on diagonal `k` at depth `d`.
pub open spec fn arrives<T>(a: Seq<T>, e: Seq<T>, d: int, k: int) -> bool {
    at_corner(a, e, frontier(a, e, d, k), k)
}

/// No diagonal explored at a depth below `depth` reaches the far corner.
pub open spec fn none_arrives_before<T>(a: Seq<T>, e: Seq<T>, depth: int) -> bool {
    forall|d: int, k: int| 0 <= d < depth && explored(d, k) ==> !#[trigger] arrives(a, e, d, k)
}

/// No diagonal below `k` explored at depth `d` reaches the far corner.
pub open spec fn none_arrives_left_of<T>(a: Seq<T>, e: Seq<T>, d: int, k: int) -> bool {
    forall|j: int| j < k && explored(d, j) ==> !#[trigger] arrives(a, e, d, j)
}

/// The edit distance between the first `x` items of `a` and the first `y`
/// items of `e`.
pub open spec fn prefix_distance<T>(a: Seq<T>, e: Seq<T>, x: int, y: int) -> int {
    edit_distance(a.take(x), e.take(y))
}

/// The least number of horizontal and vertical moves on a path from the
/// origin to `(x, y)`, where the graph is continued beyond its far edges
/// without any diagonal move.
pub open spec fn reach_cost<T>(a: Seq<T>, e: Seq<T>, x: int, y: int) -> int {
    let cx = if x <= a.len() {
        x
    } else {
        a.len() as int
    };
    let cy = if y <= e.len() {
        y
    } else {
        e.len() as int
    };
    prefix_distance(a, e, cx, cy) + (x - cx) + (y - cy)
}

pub proof fn lemma_prefix_bounds<T>(a: Seq<T>, e: Seq<T>, x: int, y: int)
    requires
        0 <= x <= a.len(),
        0 <= y <= e.len(),
    ensures
        0 <= prefix_distance(a, e, x, y) <= x + y,
        x - y <= prefix_distance(a, e, x, y),
        y - x <= prefix_distance(a, e, x, y),
        (prefix_distance(a, e, x, y) + x - y) % 2 == 0,
{
    lemma_lcs_le_len(a.take(x), e.take(y));
}

/// A diagonal move costs nothing.
pub proof fn lemma_prefix_match<T>(a: Seq<T>, e: Seq<T>, x: int, y: int)
    requires
        0 <= x < a.len(),
        0 <= y < e.len(),
        a[x] == e[y],
    ensures
        prefix_distance(a, e, x + 1, y + 1) == prefix_distance(a, e, x, y),
{
    assert(a.take(x + 1).drop_last() =~= a.take(x));
    assert(e.take(y + 1).drop_last() =~= e.take(y));
}

/// Where the last items differ, or one prefix is empty, the cheapest path
/// ends in a horizontal or a vertical move.
pub proof fn lemma_prefix_mismatch<T>(a: Seq<T>, e: Seq<T>, x: int, y: int)
    requires
        0 <= x <= a.len(),
        0 <= y <= e.len(),
        x > 0 || y > 0,
        !(x > 0 && y > 0 && a[x - 1] == e[y - 1]),
    ensures
        x > 0 && y > 0 ==> prefix_distance(a, e, x, y) == 1 + if prefix_distance(a, e, x - 1, y)
            <= prefix_distance(a, e, x, y - 1) {
            prefix_distance(a, e, x - 1, y)
        } else {
            prefix_distance(a, e, x, y - 1)
        },
        y == 0 ==> prefix_distance(a, e, x, y) == 1 + prefix_distance(a, e, x - 1, y),
        x == 0 ==> prefix_distance(a, e, x, y) == 1 + prefix_distance(a, e, x, y - 1),
{
    if x > 0 {
        assert(a.take(x).drop_last() =~= a.take(x - 1));
    }
    if y > 0 {
        assert(e.take(y).drop_last() =~= e.take(y - 1));
    }
}

/// A horizontal move changes the distance by exactly one.
pub proof fn lemma_prefix_step_x<T>(a: Seq<T>, e: Seq<T>, x: int, y: int)
    requires
        0 <= x < a.len(),
        0 <= y <= e.len(),
    ensures
        prefix_distance(a, e, x, y) - 1 <= prefix_distance(a, e, x + 1, y) <= prefix_distance(
            a,
            e,
            x,
            y,
        ) + 1,
{
    assert(a.take(x + 1).drop_last() =~= a.take(x));
    lemma_lcs_drop_last(a.take(x + 1), e.take(y));
}

/// A vertical move changes the distance by exactly one.
pub proof fn lemma_prefix_step_y<T>(a: Seq<T>, e: Seq<T>, x: int, y: int)
    requires
        0 <= x <= a.len(),
        0 <= y < e.len(),
    ensures
        prefix_distance(a, e, x, y) - 1 <= prefix_distance(a, e, x, y + 1) <= prefix_distance(
            a,
            e,
            x,
            y,
        ) + 1,
{
    assert(e.take(y + 1).drop_last() =~= e.take(y));
    lemma_lcs_drop_last(a.take(x), e.take(y + 1));
}

pub proof fn lemma_cost_right<T>(a: Seq<T>, e: Seq<T>, x: int, y: int)
    requires
        0 <= x,
        0 <= y,
    ensures
        reach_cost(a, e, x + 1, y) <= reach_cost(a, e, x, y) + 1,
{
    if x < a.len() {
        let cy = if y <= e.len() {
            y
        } else {
            e.len() as int
        };
        lemma_prefix_step_x(a, e, x, cy);
    }
}

pub proof fn lemma_cost_down<T>(a: Seq<T>, e: Seq<T>, x: int, y: int)
    requires
        0 <= x,
        0 <= y,
    ensures
        reach_cost(a, e, x, y + 1) <= reach_cost(a, e, x, y) + 1,
{
    if y < e.len() {
        let cx = if x <= a.len() {
            x
        } else {
            a.len() as int
        };
        lemma_prefix_step_y(a, e, cx, y);
    }
}

/// A snake never runs backwards.
pub proof fn lemma_slide_ge<T>(a: Seq<T>, e: Seq<T>, x: int, k: int)
    ensures
        x <= slide(a, e, x, k),
    decreases a.len() - x,
{
    if 0 <= x < a.len() && 0 <= x - k < e.len() && a[x] == e[x - k] {
        lemma_slide_ge(a, e, x + 1, k);
    }
}

/// A snake ends where the next pair of items differs or a sequence ends.
pub proof fn lemma_slide_stops<T>(a: Seq<T>, e: Seq<T>, x: int, k: int)
    ensures
        ({
            let r = slide(a, e, x, k);
            !(0 <= r < a.len() && 0 <= r - k < e.len() && a[r] == e[r - k])
        }),
    decreases a.len() - x,
{
    if 0 <= x < a.len() && 0 <= x - k < e.len() && a[x] == e[x - k] {
        lemma_slide_stops(a, e, x + 1, k);
    }
}

/// Along a snake every pair of items matches, the snake stays inside the
/// graph wherever it moves at all, and it costs nothing.
pub proof fn lemma_slide_run<T>(a: Seq<T>, e: Seq<T>, x: int, k: int)
    requires
        0 <= x,
        0 <= x - k,
    ensures
        ({
            let r = slide(a, e, x, k);
            &&& x <= r
            &&& r == x || r <= a.len()
            &&& r == x || r - k <= e.len()
            &&& forall|i: int| x <= i < r ==> i < a.len() && i - k < e.len() && a[i] == e[i - k]
            &&& reach_cost(a, e, r, r - k) == reach_cost(a, e, x, x - k)
        }),
    decreases a.len() - x,
{
    if 0 <= x < a.len() && 0 <= x - k < e.len() && a[x] == e[x - k] {
        lemma_slide_run(a, e, x + 1, k);
        lemma_prefix_match(a, e, x, x - k);
    }
}

/// The recorded x is the end of the snake entered at `entry`.
pub proof fn lemma_frontier_unfold<T>(a: Seq<T>, e: Seq<T>, d: int, k: int)
    ensures
        frontier(a, e, d, k) == slide(a, e, entry(a, e, d, k), k),
        entry(a, e, d, k) <= frontier(a, e, d, k),
        ({
            let r = frontier(a, e, d, k);
            !(0 <= r < a.len() && 0 <= r - k < e.len() && a[r] == e[r - k])
        }),
{
    lemma_slide_ge(a, e, entry(a, e, d, k), k);
    lemma_slide_stops(a, e, entry(a, e, d, k), k);
}

/// Every recorded point can be reached with as many horizontal and vertical
/// moves as its depth says, and lies at or after the origin.
pub proof fn lemma_frontier_cost<T>(a: Seq<T>, e: Seq<T>, d: int, k: int)
    requires
        explored(d, k),
    ensures
        0 <= entry(a, e, d, k) <= frontier(a, e, d, k),
        k <= entry(a, e, d, k),
        reach_cost(a, e, frontier(a, e, d, k), frontier(a, e, d, k) - k) <= d,
        frontier(a, e, d, k) <= a.len() + d,
        frontier(a, e, d, k) - k <= e.len() + d,
    decreases d,
{
    let s = entry(a, e, d, k);
    if d == 0 {
        assert(a.take(0) =~= Seq::<T>::empty());
        assert(e.take(0) =~= Seq::<T>::empty());
        assert(reach_cost(a, e, 0, 0) == 0);
    } else if k == -d {
        lemma_frontier_cost(a, e, d - 1, k + 1);
        lemma_cost_down(a, e, s, s - (k + 1));
    } else if k == d {
        lemma_frontier_cost(a, e, d - 1, k - 1);
        lemma_cost_right(a, e, s - 1, s - k);
    } else {
        lemma_frontier_cost(a, e, d - 1, k + 1);
        lemma_frontier_cost(a, e, d - 1, k - 1);
        if enters_from_above(a, e, d, k) {
            lemma_cost_down(a, e, s, s - (k + 1));
        } else {
            lemma_cost_right(a, e, s - 1, s - k);
        }
    }
    lemma_slide_run(a, e, s, k);
    lemma_frontier_unfold(a, e, d, k);
    let r = frontier(a, e, d, k);
    let cx = if r <= a.len() {
        r
    } else {
        a.len() as int
    };
    let cy = if r - k <= e.len() {
        r - k
    } else {
        e.len() as int
    };
    lemma_prefix_bounds(a, e, cx, cy);
}

/// The search is furthest-reaching: on its diagonal, the recorded x is at
/// least that of any point of the graph whose distance from the origin is at
/// most the depth and has the depth's parity.
pub proof fn lemma_frontier_covers<T>(a: Seq<T>, e: Seq<T>, d: int, x: int, y: int)
    requires
        0 <= x <= a.len(),
        0 <= y <= e.len(),
        prefix_distance(a, e, x, y) <= d,
        (d - prefix_distance(a, e, x, y)) % 2 == 0,
    ensures
        explored(d, x - y),
        x <= frontier(a, e, d, x - y),
    decreases d, x + y,
{
    let k = x - y;
    lemma_prefix_bounds(a, e, x, y);
    assert(explored(d, k));
    lemma_frontier_cost(a, e, d, k);
    lemma_frontier_unfold(a, e, d, k);
    if x > 0 && y > 0 && a[x - 1] == e[y - 1] {
        lemma_prefix_match(a, e, x - 1, y - 1);
        lemma_frontier_covers(a, e, d, x - 1, y - 1);
    } else if x == 0 && y == 0 {
    } else {
        lemma_prefix_mismatch(a, e, x, y);
        if x > 0 {
            lemma_prefix_bounds(a, e, x - 1, y);
        }
        if y > 0 {
            lemma_prefix_bounds(a, e, x, y - 1);
        }
        if x > 0 && (y == 0 || prefix_distance(a, e, x - 1, y) <= prefix_distance(a, e, x, y - 1)) {
            lemma_frontier_covers(a, e, d - 1, x - 1, y);
        } else {
            lemma_frontier_covers(a, e, d - 1, x, y - 1);
        }
    }
}

/// While no explored diagonal below `depth` has reached the far corner, the
/// edit distance of the two sequences is at least `depth`.
pub proof fn lemma_distance_at_least<T>(a: Seq<T>, e: Seq<T>, depth: int)
    requires
        none_arrives_before(a, e, depth),
    ensures
        depth <= edit_distance(a, e),
{
    let dist = edit_distance(a, e);
    assert(a.take(a.len() as int) =~= a);
    assert(e.take(e.len() as int) =~= e);
    lemma_prefix_bounds(a, e, a.len() as int, e.len() as int);
    if dist < depth {
        lemma_frontier_covers(a, e, dist, a.len() as int, e.len() as int);
        assert(arrives(a, e, dist, a.len() - e.len()));
    }
}

/// The first diagonal to reach the far corner does so exactly at the corner,
/// and its depth is the edit distance of the two sequences.
pub proof fn lemma_arrival<T>(a: Seq<T>, e: Seq<T>, d: int, k: int)
    requires
        explored(d, k),
        none_arrives_before(a, e, d),
        arrives(a, e, d, k),
    ensures
        d == edit_distance(a, e),
        k == a.len() - e.len(),
        frontier(a, e, d, k) == a.len(),
{
    lemma_distance_at_least(a, e, d);
    lemma_frontier_cost(a, e, d, k);
    assert(a.take(a.len() as int) =~= a);
    assert(e.take(e.len() as int) =~= e);
}

} // verus!
