//! The edit script of two sequences of lines: search, walk back, render.

use vstd::prelude::*;
use crate::frontier::{explored, frontier, lemma_frontier_cost, lemma_frontier_covers, slide};
use crate::lcs::{
    edit_distance, lcs_len, lemma_lcs_le_len, lemma_lcs_self, lemma_lcs_symmetric,
};
use crate::line::lines_of;
use crate::operation::{Operation, Printer};
use crate::path::{points_of, walk_back};
use crate::render::{kept, render, renderable, rendering, script_of};
use crate::script::{
    actual_side, changes, count_of, expected_side, is_edit_script, lemma_counts,
    lemma_no_shorter_script,
};
use crate::trace::{compute_trace, search_record};
use crate::walk::{
    lemma_predecessor, lemma_record_walk, lemma_render_walk, predecessor, snake_ends, snake_path,
    ties_agree,
};

verus! {

/// The edit script that relates `expected` and `actual`: the rendering of
/// the walk back from where the search of their edit graph ends.
pub open spec fn diff_script<T>(expected: Seq<T>, actual: Seq<T>) -> Seq<(Operation, T)> {
    rendering(snake_path(actual, expected), actual, expected)
}

/// Every tie that the walk back through the search of `expected` and
/// `actual` meets lies before a pair of equal items.
///
/// This fails, for one, for `expected = [a, b]` and `actual = [b, c]`: at
/// depth two both neighbours of diagonal zero were recorded with x = 1, and
/// the script is delete `b`, insert `a`, keep `c`, though `expected` holds no
/// `c`.
pub open spec fn ties_resolved<T>(expected: Seq<T>, actual: Seq<T>) -> bool {
    ties_agree(actual, expected, edit_distance(actual, expected), actual.len() - expected.len())
}

/// The search of the edit graph of `a` and `e` ends at the depth of their
/// edit distance, on the diagonal of the far corner, at the far corner.
pub proof fn lemma_search_ends<T>(a: Seq<T>, e: Seq<T>)
    ensures
        explored(edit_distance(a, e), a.len() - e.len()),
        frontier(a, e, edit_distance(a, e), a.len() - e.len()) == a.len(),
        0 <= edit_distance(a, e) <= a.len() + e.len(),
        edit_distance(a, e) == edit_distance(e, a),
{
    let d = edit_distance(a, e);
    let k = a.len() - e.len();
    assert(a.take(a.len() as int) =~= a);
    assert(e.take(e.len() as int) =~= e);
    lemma_lcs_le_len(a, e);
    lemma_lcs_symmetric(a, e);
    lemma_frontier_covers(a, e, d, a.len() as int, e.len() as int);
    lemma_frontier_cost(a, e, d, k);
}

/// From one point of the walk to the next, neither coordinate falls, and
/// the diagonal changes by exactly one, so at least one coordinate rises.
pub proof fn lemma_path_rises<T>(a: Seq<T>, e: Seq<T>, d: int, k: int)
    requires
        explored(d, k),
    ensures
        ({
            let path = snake_ends(a, e, d, k);
            &&& path.len() == d + 1
            &&& path.last() == (frontier(a, e, d, k), frontier(a, e, d, k) - k)
            &&& 0 <= path[0].0 && 0 <= path[0].1
            &&& forall|i: int|
                0 <= i < d ==> {
                    &&& (#[trigger] path[i]).0 <= path[i + 1].0
                    &&& path[i].1 <= path[i + 1].1
                    &&& path[i].0 + path[i].1 < path[i + 1].0 + path[i + 1].1
                }
        }),
    decreases d,
{
    let path = snake_ends(a, e, d, k);
    lemma_frontier_cost(a, e, d, k);
    if d > 0 {
        let p = predecessor(a, e, d, k);
        lemma_predecessor(a, e, d, k);
        lemma_path_rises(a, e, d - 1, p);
        let earlier = snake_ends(a, e, d - 1, p);
        assert forall|i: int| 0 <= i < d implies {
            &&& (#[trigger] path[i]).0 <= path[i + 1].0
            &&& path[i].1 <= path[i + 1].1
            &&& path[i].0 + path[i].1 < path[i + 1].0 + path[i + 1].1
        } by {
            assert(path[i] == earlier[i]);
            if i + 1 < d {
                assert(path[i + 1] == earlier[i + 1]);
            }
        }
    }
}

/// What holds of the edit script of any two sequences: it consumes
/// `actual` exactly, it holds as many insertions and deletions as the edit
/// distance says, and so as many kept items as a longest common
/// subsequence has, and as many inserted and kept items as `expected` is
/// long.
pub proof fn lemma_diff_counts<T>(expected: Seq<T>, actual: Seq<T>)
    ensures
        actual_side(diff_script(expected, actual)) == actual,
        expected_side(diff_script(expected, actual)).len() == expected.len(),
        changes(diff_script(expected, actual)) == edit_distance(expected, actual),
        count_of(diff_script(expected, actual), Operation::Nothing) == lcs_len(expected, actual),
        count_of(diff_script(expected, actual), Operation::Insert) == expected.len() - lcs_len(
            expected,
            actual,
        ),
        count_of(diff_script(expected, actual), Operation::Delete) == actual.len() - lcs_len(
            expected,
            actual,
        ),
{
    let d = edit_distance(actual, expected);
    let k = actual.len() - expected.len();
    lemma_search_ends(actual, expected);
    lemma_render_walk(actual, expected, d, k);
    lemma_counts(diff_script(expected, actual));
    lemma_lcs_symmetric(actual, expected);
    assert(actual.take(actual.len() as int) =~= actual);
}

/// Where no tie gets in the way, the edit script turns `actual` into
/// `expected`: its deleted and kept items are `actual`, and its inserted and
/// kept items are `expected`.
pub proof fn lemma_diff_rebuilds<T>(expected: Seq<T>, actual: Seq<T>)
    requires
        ties_resolved(expected, actual),
    ensures
        is_edit_script(diff_script(expected, actual), expected, actual),
{
    let d = edit_distance(actual, expected);
    let k = actual.len() - expected.len();
    lemma_search_ends(actual, expected);
    lemma_render_walk(actual, expected, d, k);
    assert(actual.take(actual.len() as int) =~= actual);
    assert(expected.take(expected.len() as int) =~= expected);
}

/// Only where no tie gets in the way does the edit script turn `actual`
/// into `expected`: at an unresolved tie it keeps an item of `actual` where
/// `expected` holds another.
pub proof fn lemma_diff_rebuilds_only_then<T>(expected: Seq<T>, actual: Seq<T>)
    requires
        is_edit_script(diff_script(expected, actual), expected, actual),
    ensures
        ties_resolved(expected, actual),
{
    let d = edit_distance(actual, expected);
    let k = actual.len() - expected.len();
    lemma_search_ends(actual, expected);
    lemma_render_walk(actual, expected, d, k);
    assert(expected.take(expected.len() as int) =~= expected);
}

/// No script that turns `actual` into `expected` holds fewer insertions and
/// deletions than the edit script does.
pub proof fn lemma_diff_minimal<T>(expected: Seq<T>, actual: Seq<T>, other: Seq<(Operation, T)>)
    requires
        is_edit_script(other, expected, actual),
    ensures
        changes(diff_script(expected, actual)) <= changes(other),
{
    lemma_diff_counts(expected, actual);
    lemma_no_shorter_script(other, expected, actual);
}

/// The snake that starts at the origin of the edit graph of a sequence with
/// itself runs to the far corner.
proof fn lemma_slide_self<T>(s: Seq<T>, x: int)
    requires
        0 <= x <= s.len(),
    ensures
        slide(s, s, x, 0) == s.len(),
    decreases s.len() - x,
{
    if x < s.len() {
        lemma_slide_self(s, x + 1);
    }
}

/// The walk back through the search of a sequence with itself meets one
/// point, the far corner: the path is a single snake.
pub proof fn lemma_path_self<T>(s: Seq<T>)
    ensures
        snake_path(s, s) == seq![(s.len() as int, s.len() as int)],
{
    lemma_lcs_self(s);
    lemma_slide_self(s, 0);
    assert(snake_path(s, s) =~= seq![(s.len() as int, s.len() as int)]);
}

/// The walk back through the search of any two sequences meets one point
/// more than their edit distance says, the last of them the far corner, and
/// from one point to the next neither coordinate falls and at least one
/// rises.
pub proof fn lemma_path_shape<T>(expected: Seq<T>, actual: Seq<T>)
    ensures
        ({
            let path = snake_path(actual, expected);
            &&& path.len() == expected.len() + actual.len() - 2 * lcs_len(expected, actual) + 1
            &&& path.last() == (actual.len() as int, expected.len() as int)
            &&& 0 <= path[0].0 && 0 <= path[0].1
            &&& forall|i: int|
                0 <= i < path.len() - 1 ==> {
                    &&& (#[trigger] path[i]).0 <= path[i + 1].0
                    &&& path[i].1 <= path[i + 1].1
                    &&& path[i].0 + path[i].1 < path[i + 1].0 + path[i + 1].1
                }
        }),
{
    lemma_search_ends(actual, expected);
    lemma_path_rises(
        actual,
        expected,
        edit_distance(actual, expected),
        actual.len() - expected.len(),
    );
}

/// The edit script of a sequence with itself keeps every item, in order.
pub proof fn lemma_diff_self<T>(s: Seq<T>)
    ensures
        diff_script(s, s) == kept(s, 0, s.len() as int),
        diff_script(s, s).len() == s.len(),
        forall|i: int|
            0 <= i < s.len() ==> (#[trigger] diff_script(s, s)[i]) == (Operation::Nothing, s[i]),
{
    lemma_path_self(s);
    let path = snake_path(s, s);
    let n = s.len() as int;
    assert(path.drop_last() =~= Seq::<(int, int)>::empty());
    assert(rendering(path.drop_last(), s, s) =~= Seq::<(Operation, T)>::empty());
    assert(diff_script(s, s) =~= kept(s, 0, n));
}

/// Searches the edit graph of `expected` and `actual` and returns the ends
/// of the snakes of one shortest path, from the end of the snake at the
/// origin to the far corner.
pub fn get_diff(expected: &[&str], actual: &[&str]) -> (path: Vec<(usize, usize)>)
    ensures
        points_of(path@) == snake_path(lines_of(actual@), lines_of(expected@)),
        path.len() == edit_distance(lines_of(expected@), lines_of(actual@)) + 1,
        path[path.len() - 1] == (actual.len(), expected.len()),
        forall|i: int|
            0 <= i < path.len() - 1 ==> {
                &&& (#[trigger] path[i]).0 <= path[i + 1].0
                &&& path[i].1 <= path[i + 1].1
                &&& path[i].0 + path[i].1 < path[i + 1].0 + path[i + 1].1
            },
        renderable(points_of(path@), actual.len() as int, expected.len() as int),
        lines_of(expected@) == lines_of(actual@) ==> path@ == seq![(actual.len(), actual.len())],
{
    let ghost a = lines_of(actual@);
    let ghost e = lines_of(expected@);
    let (trace, depth, k) = compute_trace(expected, actual);
    proof {
        let record = search_record(a, e, depth as int, k as int);
        assert(trace@.len() == record.len());
        assert(trace@[0]@.len() == record[0].len());
        assert(trace@[0]@.len() == trace@[0].len());
        lemma_search_ends(a, e);
        lemma_record_walk(a, e, depth as int, k as int, depth as int, k as int);
        lemma_render_walk(a, e, depth as int, k as int);
        lemma_path_rises(a, e, depth as int, k as int);
    }
    let path = walk_back(trace, depth, k, expected.len() + actual.len());
    proof {
        let points = points_of(path@);
        assert(points == snake_path(a, e));
        assert forall|i: int| 0 <= i < path.len() - 1 implies {
            &&& (#[trigger] path[i]).0 <= path[i + 1].0
            &&& path[i].1 <= path[i + 1].1
            &&& path[i].0 + path[i].1 < path[i + 1].0 + path[i + 1].1
        } by {
            assert(points[i] == (path[i].0 as int, path[i].1 as int));
            assert(points[i + 1] == (path[i + 1].0 as int, path[i + 1].1 as int));
        }
        assert(points[path.len() - 1] == (path[path.len() - 1].0 as int, path[path.len() - 1].1 as int));
        if e == a {
            lemma_path_self(a);
            assert(path@ =~= seq![(actual.len(), actual.len())]);
        }
    }
    path
}

/// Computes the edit script that relates `expected` and `actual`: for each
/// line, in display order, whether it is kept, inserted or deleted.
///
/// A deleted line is one of `actual` only, an inserted line one of
/// `expected` only. The deleted and kept lines are always those of
/// `actual`, in order, and the script holds as few insertions and deletions
/// as any script that turns `actual` into `expected`. Its inserted and kept
/// lines are those of `expected` exactly where every tie met on the walk
/// back lies before a pair of equal lines (see `ties_resolved`).
pub fn diff<'a>(expected: &[&'a str], actual: &[&'a str]) -> (ops: Vec<Printer<'a>>)
    ensures
        script_of(ops@) == diff_script(lines_of(expected@), lines_of(actual@)),
        actual_side(script_of(ops@)) == lines_of(actual@),
        changes(script_of(ops@)) == expected.len() + actual.len() - 2 * lcs_len(
            lines_of(expected@),
            lines_of(actual@),
        ),
        count_of(script_of(ops@), Operation::Nothing) == lcs_len(
            lines_of(expected@),
            lines_of(actual@),
        ),
        count_of(script_of(ops@), Operation::Insert) == expected.len() - lcs_len(
            lines_of(expected@),
            lines_of(actual@),
        ),
        count_of(script_of(ops@), Operation::Delete) == actual.len() - lcs_len(
            lines_of(expected@),
            lines_of(actual@),
        ),
        ties_resolved(lines_of(expected@), lines_of(actual@)) <==> expected_side(script_of(ops@))
            == lines_of(expected@),
        lines_of(expected@) == lines_of(actual@) ==> script_of(ops@) == kept(
            lines_of(actual@),
            0,
            actual.len() as int,
        ),
{
    let path = get_diff(expected, actual);
    let ops = render(path, expected, actual);
    proof {
        let e = lines_of(expected@);
        let a = lines_of(actual@);
        lemma_diff_counts(e, a);
        if ties_resolved(e, a) {
            lemma_diff_rebuilds(e, a);
        }
        if expected_side(script_of(ops@)) == e {
            lemma_diff_rebuilds_only_then(e, a);
        }
        if e == a {
            lemma_diff_self(a);
        }
    }
    ops
}

} // verus!
