//! The forward walk along a list of snake ends, which writes out the edit
//! script: one insertion or deletion where the diagonal changes, then the
//! lines of the snake as kept.

use vstd::prelude::*;
use crate::line::lines_of;
use crate::operation::{Operation, Printer};
use crate::path::points_of;

verus! {

/// The diagonal of a point.
pub open spec fn diagonal(p: (int, int)) -> int {
    p.0 - p.1
}

/// Where the walk stands after the single deletion or insertion, if any,
/// that brings it from `at` towards the diagonal of `to`.
pub open spec fn turn(at: (int, int), to: (int, int)) -> (int, int) {
    if diagonal(to) > diagonal(at) {
        (at.0 + 1, at.1)
    } else if diagonal(to) < diagonal(at) {
        (at.0, at.1 + 1)
    } else {
        at
    }
}

/// Where the walk stands after it has dealt with the point `to`, coming from
/// `at`: after the turn, it moves along the diagonal up to the x of `to`.
pub open spec fn advance(at: (int, int), to: (int, int)) -> (int, int) {
    let turned = turn(at, to);
    if turned.0 < to.0 {
        (to.0, turned.1 + (to.0 - turned.0))
    } else {
        turned
    }
}

/// How many items of `actual` and of `expected` the walk has consumed when
/// it has dealt with every point of `path`.
pub open spec fn consumed(path: Seq<(int, int)>) -> (int, int)
    decreases path.len(),
{
    if path.len() == 0 {
        (0, 0)
    } else {
        advance(consumed(path.drop_last()), path.last())
    }
}

/// The items of `a` from `from` up to `to`, each as kept.
pub open spec fn kept<T>(a: Seq<T>, from: int, to: int) -> Seq<(Operation, T)> {
    if from < to {
        Seq::new((to - from) as nat, |i: int| (Operation::Nothing, a[from + i]))
    } else {
        Seq::empty()
    }
}

/// The single deletion or insertion, if any, with which the walk turns from
/// `at` towards the diagonal of `to`.
pub open spec fn lead<T>(a: Seq<T>, e: Seq<T>, at: (int, int), to: (int, int)) -> Seq<
    (Operation, T),
> {
    if diagonal(to) > diagonal(at) {
        seq![(Operation::Delete, a[at.0])]
    } else if diagonal(to) < diagonal(at) {
        seq![(Operation::Insert, e[at.1])]
    } else {
        Seq::empty()
    }
}

/// What the walk writes when it deals with the point `to`, coming from `at`.
pub open spec fn segment<T>(a: Seq<T>, e: Seq<T>, at: (int, int), to: (int, int)) -> Seq<
    (Operation, T),
> {
    lead(a, e, at, to) + kept(a, turn(at, to).0, to.0)
}

/// The edit script that the walk along `path` writes for `a` as `actual` and
/// `e` as `expected`.
pub open spec fn rendering<T>(path: Seq<(int, int)>, a: Seq<T>, e: Seq<T>) -> Seq<(Operation, T)>
    decreases path.len(),
{
    if path.len() == 0 {
        Seq::empty()
    } else {
        rendering(path.drop_last(), a, e) + segment(
            a,
            e,
            consumed(path.drop_last()),
            path.last(),
        )
    }
}

/// The point `to` lies on the diagonal of `at` or on one beside it, so that
/// one deletion or insertion at most leads there; and dealing with it,
/// coming from `at`, reads no item beyond the ends of sequences of `a_len`
/// and `e_len` items.
pub open spec fn segment_fits(at: (int, int), to: (int, int), a_len: int, e_len: int) -> bool {
    &&& -1 <= diagonal(to) - diagonal(at) <= 1
    &&& diagonal(to) > diagonal(at) ==> at.0 < a_len
    &&& diagonal(to) < diagonal(at) ==> at.1 < e_len
    &&& turn(at, to).0 < to.0 ==> to.0 <= a_len
}

/// The walk along `path` never jumps over a diagonal, and reads no item
/// beyond the ends of sequences of `a_len` and `e_len` items.
pub open spec fn renderable(path: Seq<(int, int)>, a_len: int, e_len: int) -> bool {
    forall|i: int|
        0 <= i < path.len() ==> segment_fits(
            consumed(#[trigger] path.take(i)),
            path[i],
            a_len,
            e_len,
        )
}

/// A list of lines with their operations as an edit script.
pub open spec fn script_of(ops: Seq<Printer>) -> Seq<(Operation, Seq<char>)> {
    Seq::new(ops.len(), |i: int| ops[i]@)
}

/// Walks the path from its first point to its last and returns the edit
/// script.
///
/// The walk starts at the origin. For each point of the path, if the point's
/// diagonal is greater than that of the walk, the next line of `actual` is
/// deleted; if it is less, the next line of `expected` is inserted. Then the
/// lines of `actual` up to the point's x are kept. A path with a point whose
/// diagonal lies further than one from that of the walk is no path of a
/// search, and is not accepted.
pub fn render<'a>(coordinates: Vec<(usize, usize)>, expected: &[&'a str], actual: &[&'a str]) -> (ops:
    Vec<Printer<'a>>)
    requires
        renderable(points_of(coordinates@), actual.len() as int, expected.len() as int),
    ensures
        script_of(ops@) == rendering(
            points_of(coordinates@),
            lines_of(actual@),
            lines_of(expected@),
        ),
{
    let ghost a = lines_of(actual@);
    let ghost e = lines_of(expected@);
    let ghost path = points_of(coordinates@);
    let mut ops: Vec<Printer<'a>> = Vec::new();
    let mut prev_x: usize = 0;
    let mut prev_y: usize = 0;
    let mut i: usize = 0;
    assert(path.take(0) =~= Seq::<(int, int)>::empty());
    while i < coordinates.len()
        invariant
            a == lines_of(actual@),
            e == lines_of(expected@),
            path == points_of(coordinates@),
            renderable(path, actual.len() as int, expected.len() as int),
            i <= coordinates.len(),
            (prev_x as int, prev_y as int) == consumed(path.take(i as int)),
            script_of(ops@) == rendering(path.take(i as int), a, e),
            prev_x <= actual.len(),
        decreases coordinates.len() - i,
    {
        let x: usize = coordinates[i].0;
        let y: usize = coordinates[i].1;
        let ghost at = (prev_x as int, prev_y as int);
        let ghost to = (x as int, y as int);
        let ghost before = script_of(ops@);
        proof {
            assert(path[i as int] == to);
            assert(segment_fits(consumed(path.take(i as int)), path[i as int], actual.len() as int, expected.len() as int));
            assert(path.take(i + 1).drop_last() =~= path.take(i as int));
            assert(path.take(i + 1).last() == to);
        }
        if x as u128 + prev_y as u128 > prev_x as u128 + y as u128 {
            ops.push(Printer { operation: Operation::Delete, line: actual[prev_x] });
            prev_x += 1;
        } else if (x as u128 + prev_y as u128) < prev_x as u128 + y as u128 {
            ops.push(Printer { operation: Operation::Insert, line: expected[prev_y] });
            prev_y += 1;
        }
        assert(script_of(ops@) =~= before + lead(a, e, at, to));
        let ghost turned = turn(at, to);
        while prev_x < x
            invariant
                a == lines_of(actual@),
                e == lines_of(expected@),
                diagonal((prev_x as int, prev_y as int)) == diagonal(to),
                to == (x as int, y as int),
                turned.0 < x ==> x <= actual.len(),
                turned.0 <= prev_x,
                turned.0 < x ==> prev_x <= x,
                turned.0 >= x ==> prev_x == turned.0,
                prev_x <= actual.len(),
                prev_y == turned.1 + (prev_x - turned.0),
                script_of(ops@) == before + lead(a, e, at, to) + kept(a, turned.0, prev_x as int),
            decreases x - prev_x,
        {
            let ghost so_far = script_of(ops@);
            ops.push(Printer { operation: Operation::Nothing, line: actual[prev_x] });
            prev_x += 1;
            prev_y += 1;
            assert(script_of(ops@) =~= so_far.push((Operation::Nothing, a[prev_x - 1])));
            assert(kept(a, turned.0, prev_x as int) =~= kept(a, turned.0, prev_x - 1).push(
                (Operation::Nothing, a[prev_x - 1]),
            ));
            assert(script_of(ops@) =~= before + lead(a, e, at, to) + kept(a, turned.0, prev_x as int));
        }
        proof {
            assert(kept(a, turned.0, prev_x as int) =~= kept(a, turned.0, to.0));
            assert(script_of(ops@) =~= before + segment(a, e, at, to));
        }
        i += 1;
    }
    assert(path.take(i as int) =~= path);
    ops
}

} // verus!
