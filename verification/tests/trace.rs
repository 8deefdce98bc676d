use query_diff::path::{get_path, walk_back};
use query_diff::render::render;
use query_diff::operation::{Color, Operation};
use query_diff::trace::compute_trace;

#[test]
fn trace_of_identical_sequences_has_one_row() {
    let lines = ["a", "b"];
    let (trace, depth, k) = compute_trace(&lines, &lines);
    assert_eq!(depth, 0);
    assert_eq!(k, 0);
    assert_eq!(trace, vec![vec![0, 0, 0, 0, 2, 0, 0, 0, 0]]);
}

#[test]
fn trace_of_empty_sequences_is_trivial() {
    let none: [&str; 0] = [];
    let (trace, depth, k) = compute_trace(&none, &none);
    assert_eq!((depth, k), (0, 0));
    assert_eq!(trace, vec![vec![0]]);
}

#[test]
fn trace_records_furthest_x_per_diagonal() {
    let (trace, depth, k) = compute_trace(&["a", "b", "c"], &["a", "x", "c"]);
    assert_eq!((depth, k), (2, 0));
    assert_eq!(trace.len(), 3);
    // Diagonal k is held at offset k + 6.
    assert_eq!(trace[0], vec![0, 0, 0, 0, 0, 0, 1, 0, 0, 0, 0, 0, 0]);
    assert_eq!(trace[1], vec![0, 0, 0, 0, 0, 1, 0, 2, 0, 0, 0, 0, 0]);
    assert_eq!(trace[2], vec![0, 0, 0, 0, 1, 0, 3, 0, 0, 0, 0, 0, 0]);
}

#[test]
fn trace_ends_at_the_edit_distance() {
    let (trace, depth, k) = compute_trace(&["x"], &["y"]);
    assert_eq!((depth, k), (2, 0));
    assert_eq!(trace.len(), 3);
    let none: [&str; 0] = [];
    let (_, depth, k) = compute_trace(&none, &["a", "b"]);
    assert_eq!((depth, k), (2, 2));
    let (_, depth, k) = compute_trace(&["a", "b", "c"], &none);
    assert_eq!((depth, k), (3, -3));
}

#[test]
fn path_walks_back_through_a_table() {
    let table = vec![
        vec![0, 0, 0, 0, 0, 0, 1, 0, 0, 0, 0, 0, 0],
        vec![0, 0, 0, 0, 0, 1, 0, 2, 0, 0, 0, 0, 0],
        vec![0, 0, 0, 0, 1, 0, 3, 0, 0, 0, 0, 0, 0],
    ];
    assert_eq!(get_path(table, 2, 0, 6), vec![(1, 1), (2, 1), (3, 3)]);
}

#[test]
fn walk_back_takes_a_wide_diagonal() {
    let table = vec![
        vec![0, 0, 0, 0, 0, 0, 1, 0, 0, 0, 0, 0, 0],
        vec![0, 0, 0, 0, 0, 1, 0, 2, 0, 0, 0, 0, 0],
        vec![0, 0, 0, 0, 1, 0, 3, 0, 0, 0, 0, 0, 0],
    ];
    let k: i64 = 0;
    assert_eq!(walk_back(table, 2, k, 6), vec![(1, 1), (2, 1), (3, 3)]);
}

#[test]
fn trace_feeds_the_walk_back() {
    let expected = ["a", "b", "c", "d", "e", "f"];
    let actual = ["a", "b", "x", "y", "e", "f"];
    let (trace, depth, k) = compute_trace(&expected, &actual);
    assert_eq!((depth, k), (4, 0));
    assert_eq!(trace.len(), 5);
    for row in &trace {
        assert_eq!(row.len(), 2 * 12 + 1);
    }
    assert_eq!(
        walk_back(trace, depth, k, 12),
        vec![(2, 2), (3, 2), (4, 2), (4, 3), (6, 6)]
    );
}

#[test]
fn path_prefers_the_diagonal_above_on_equal_entries() {
    let table = vec![
        vec![0, 0, 0, 0, 0, 0, 0, 0, 0],
        vec![0, 0, 0, 1, 0, 1, 0, 0, 0],
        vec![0, 0, 0, 0, 2, 0, 0, 0, 0],
    ];
    assert_eq!(get_path(table, 2, 0, 4), vec![(0, 0), (1, 0), (2, 2)]);
}

#[test]
fn path_takes_the_diagonal_below_when_it_is_ahead() {
    let table = vec![
        vec![0, 0, 0, 0, 0, 0, 0, 0, 0],
        vec![0, 0, 0, 2, 0, 1, 0, 0, 0],
        vec![0, 0, 0, 0, 3, 0, 0, 0, 0],
    ];
    assert_eq!(get_path(table, 2, 0, 4), vec![(0, 0), (2, 3), (3, 3)]);
}

#[test]
fn path_at_the_outer_diagonals() {
    let table = vec![vec![0, 0, 0, 0, 0], vec![0, 0, 0, 1, 0], vec![0, 0, 0, 0, 2]];
    assert_eq!(get_path(table, 2, 2, 2), vec![(0, 0), (1, 0), (2, 0)]);
    let table = vec![vec![0, 0, 0, 0, 0], vec![0, 0, 0, 0, 0], vec![0, 0, 0, 0, 0]];
    assert_eq!(get_path(table, 2, -2, 2), vec![(0, 0), (0, 1), (0, 2)]);
}

#[test]
fn render_fills_a_single_snake_with_kept_lines() {
    let lines = ["a", "b"];
    let ops = render(vec![(2, 2)], &lines, &lines);
    assert_eq!(ops.len(), 2);
    assert_eq!((ops[0].operation, ops[0].line), (Operation::Nothing, "a"));
    assert_eq!((ops[1].operation, ops[1].line), (Operation::Nothing, "b"));
}

#[test]
fn render_turns_once_per_point() {
    let ops = render(vec![(1, 1), (2, 1), (3, 3)], &["a", "b", "c"], &["a", "x", "c"]);
    let shown: Vec<(Operation, &str)> = ops.iter().map(|op| (op.operation, op.line)).collect();
    assert_eq!(
        shown,
        vec![
            (Operation::Nothing, "a"),
            (Operation::Delete, "x"),
            (Operation::Insert, "b"),
            (Operation::Nothing, "c"),
        ]
    );
}

#[test]
fn render_of_no_points_is_empty() {
    let ops = render(Vec::new(), &["a"], &["b"]);
    assert!(ops.is_empty());
}

#[test]
fn symbols_of_the_operations() {
    assert_eq!(Operation::Delete.symbol(), "-");
    assert_eq!(Operation::Insert.symbol(), "+");
    assert_eq!(Operation::Nothing.symbol(), " ");
}

#[test]
fn colors_of_the_operations() {
    assert_eq!(Operation::Delete.color(), Color::Red);
    assert_eq!(Operation::Insert.color(), Color::Green);
    assert_eq!(Operation::Nothing.color(), Color::White);
}
