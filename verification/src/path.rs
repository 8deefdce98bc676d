//! The backward walk through the record of a search, from the diagonal on
//! which the search ended to depth zero, which yields the ends of the snakes
//! of one shortest path in order.

use vstd::prelude::*;
use crate::frontier::explored;
use crate::trace::table_of;

verus! {

/// The x coordinate that the table `t` holds for diagonal `k` at depth `d`.
pub open spec fn cell(t: Seq<Seq<int>>, d: int, k: int, max: int) -> int {
    t[d][k + max]
}

/// The diagonal on which the walk continues at depth `d - 1`: the one above
/// where there is no diagonal below, or where there is one above and its
/// entry is at least that of the one below; else the one below.
pub open spec fn previous_diagonal(t: Seq<Seq<int>>, d: int, k: int, max: int) -> int {
    if k == -d || (k != d && cell(t, d - 1, k + 1, max) >= cell(t, d - 1, k - 1, max)) {
        k + 1
    } else {
        k - 1
    }
}

/// The walk from diagonal `k` at depth `d` down to depth zero stays inside
/// the table `t`, on explored diagonals, and meets no point above the x axis.
pub open spec fn walkable(t: Seq<Seq<int>>, d: int, k: int, max: int) -> bool
    decreases d,
{
    &&& explored(d, k)
    &&& d < t.len()
    &&& d <= max
    &&& t[d].len() == 2 * max + 1
    &&& 0 <= cell(t, d, k, max) - k <= usize::MAX
    &&& d > 0 ==> t[d - 1].len() == 2 * max + 1 && walkable(
        t,
        d - 1,
        previous_diagonal(t, d, k, max),
        max,
    )
}

/// The points met by the walk from diagonal `k` at depth `d` down to depth
/// zero, in the order of rising depth.
pub open spec fn path_of(t: Seq<Seq<int>>, d: int, k: int, max: int) -> Seq<(int, int)>
    decreases d,
{
    let x = cell(t, d, k, max);
    if d <= 0 {
        seq![(x, x - k)]
    } else {
        path_of(t, d - 1, previous_diagonal(t, d, k, max), max).push((x, x - k))
    }
}

/// A list of coordinate pairs as plain numbers.
pub open spec fn points_of(path: Seq<(usize, usize)>) -> Seq<(int, int)> {
    Seq::new(path.len(), |i: int| (path[i].0 as int, path[i].1 as int))
}

pub proof fn lemma_path_len(t: Seq<Seq<int>>, d: int, k: int, max: int)
    requires
        0 <= d,
    ensures
        path_of(t, d, k, max).len() == d + 1,
        path_of(t, d, k, max).last() == (cell(t, d, k, max), cell(t, d, k, max) - k),
        d > 0 ==> path_of(t, d, k, max).take(d) == path_of(
            t,
            d - 1,
            previous_diagonal(t, d, k, max),
            max,
        ),
    decreases d,
{
    if d > 0 {
        let k2 = previous_diagonal(t, d, k, max);
        lemma_path_len(t, d - 1, k2, max);
        assert(path_of(t, d, k, max).take(d) =~= path_of(t, d - 1, k2, max));
    }
}

/// Returns the items of `points` in the opposite order.
fn reversed(points: Vec<(usize, usize)>) -> (turned: Vec<(usize, usize)>)
    ensures
        turned@ == points@.reverse(),
{
    let mut turned: Vec<(usize, usize)> = Vec::new();
    let mut left: usize = points.len();
    while left > 0
        invariant
            left <= points.len(),
            turned.len() == points.len() - left,
            forall|i: int| 0 <= i < turned.len() ==> turned[i] == points[points.len() - 1 - i],
        decreases left,
    {
        left -= 1;
        turned.push(points[left]);
    }
    assert(turned@ =~= points@.reverse());
    turned
}

/// Walks the record of a search backwards from diagonal `k` at depth `depth`
/// and returns the points met, from that of depth zero to that of `depth`.
///
/// At each depth the point is the recorded x with `y = x - k`. `max_diff` is
/// the sum of the lengths of the two sequences that were searched: each row
/// of `traversal` has `2 * max_diff + 1` entries.
pub fn walk_back(traversal: Vec<Vec<usize>>, depth: usize, k: i64, max_diff: usize) -> (path: Vec<
    (usize, usize),
>)
    requires
        walkable(table_of(traversal@), depth as int, k as int, max_diff as int),
    ensures
        points_of(path@) == path_of(table_of(traversal@), depth as int, k as int, max_diff as int),
{
    let ghost t = table_of(traversal@);
    let ghost full = path_of(t, depth as int, k as int, max_diff as int);
    let mut backwards: Vec<(usize, usize)> = Vec::new();
    let mut d: usize = depth;
    let mut diagonal: i128 = k as i128;
    proof {
        lemma_path_len(t, depth as int, k as int, max_diff as int);
        assert(full.take(depth + 1) =~= full);
    }
    while d > 0
        invariant
            t == table_of(traversal@),
            d <= depth,
            walkable(t, d as int, diagonal as int, max_diff as int),
            backwards.len() == depth - d,
            full.len() == depth + 1,
            full.take(d + 1) == path_of(t, d as int, diagonal as int, max_diff as int),
            forall|i: int|
                0 <= i < backwards.len() ==> (backwards[i].0 as int, backwards[i].1 as int)
                    == full[depth - i],
        decreases d,
    {
        assert(t[d as int].len() == traversal@[d as int]@.len());
        let index: usize = (max_diff as i128 + diagonal) as usize;
        let x: usize = traversal[d][index];
        let y: usize = (x as i128 - diagonal) as usize;
        proof {
            lemma_path_len(t, d as int, diagonal as int, max_diff as int);
            assert(full[d as int] == full.take(d + 1).last());
            assert(full.take(d as int) =~= full.take(d + 1).take(d as int));
        }
        backwards.push((x, y));
        let prev: &Vec<usize> = &traversal[d - 1];
        if diagonal == -(d as i128) || (diagonal != d as i128 && prev[index + 1] >= prev[index
            - 1]) {
            diagonal += 1;
        } else {
            diagonal -= 1;
        }
        d -= 1;
    }
    assert(t[0].len() == traversal@[0]@.len());
    let index: usize = (max_diff as i128 + diagonal) as usize;
    let x: usize = traversal[0][index];
    let y: usize = (x as i128 - diagonal) as usize;
    proof {
        assert(full[0] == full.take(1).last());
    }
    backwards.push((x, y));
    let path = reversed(backwards);
    assert(points_of(path@) =~= full);
    path
}

/// Walks the record of a search backwards, as `walk_back` does, from a
/// diagonal given as a 32-bit number.
pub fn get_path(traversal: Vec<Vec<usize>>, depth: usize, k: i32, max_diff: usize) -> (path: Vec<
    (usize, usize),
>)
    requires
        walkable(table_of(traversal@), depth as int, k as int, max_diff as int),
    ensures
        points_of(path@) == path_of(table_of(traversal@), depth as int, k as int, max_diff as int),
{
    walk_back(traversal, depth, k as i64, max_diff)
}

} // verus!
