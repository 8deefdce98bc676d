use query_diff::diff::{diff, get_diff};
use query_diff::operation::{Operation, Printer};

fn shown<'a>(ops: &[Printer<'a>]) -> Vec<(Operation, &'a str)> {
    ops.iter().map(|op| (op.operation, op.line)).collect()
}

fn lines_with(ops: &[Printer<'_>], skipped: Operation) -> Vec<String> {
    ops.iter()
        .filter(|op| op.operation != skipped)
        .map(|op| op.line.to_string())
        .collect()
}

fn changes(ops: &[Printer<'_>]) -> usize {
    ops.iter().filter(|op| op.operation != Operation::Nothing).count()
}

#[test]
fn identical_sequences_keep_every_line() {
    let lines = ["query {", "  user {", "    id", "  }", "}"];
    let ops = diff(&lines, &lines);
    assert_eq!(
        shown(&ops),
        vec![
            (Operation::Nothing, "query {"),
            (Operation::Nothing, "  user {"),
            (Operation::Nothing, "    id"),
            (Operation::Nothing, "  }"),
            (Operation::Nothing, "}"),
        ]
    );
}

#[test]
fn identical_sequences_have_a_single_point() {
    let lines = ["a", "b", "c"];
    assert_eq!(get_diff(&lines, &lines), vec![(3, 3)]);
}

#[test]
fn empty_sequences_give_an_empty_script() {
    let none: [&str; 0] = [];
    let ops = diff(&none, &none);
    assert!(ops.is_empty());
    assert_eq!(get_diff(&none, &none), vec![(0, 0)]);
}

#[test]
fn empty_expected_deletes_every_line() {
    let none: [&str; 0] = [];
    let ops = diff(&none, &["a", "b"]);
    assert_eq!(shown(&ops), vec![(Operation::Delete, "a"), (Operation::Delete, "b")]);
}

#[test]
fn empty_actual_inserts_every_line() {
    let none: [&str; 0] = [];
    let ops = diff(&["a", "b"], &none);
    assert_eq!(shown(&ops), vec![(Operation::Insert, "a"), (Operation::Insert, "b")]);
}

#[test]
fn disjoint_lines_are_deleted_and_inserted() {
    let ops = diff(&["x"], &["y"]);
    assert_eq!(ops.len(), 2);
    assert_eq!(shown(&ops), vec![(Operation::Delete, "y"), (Operation::Insert, "x")]);
}

#[test]
fn one_line_replaced_in_the_middle() {
    let ops = diff(&["a", "b", "c"], &["a", "x", "c"]);
    assert_eq!(
        shown(&ops),
        vec![
            (Operation::Nothing, "a"),
            (Operation::Delete, "x"),
            (Operation::Insert, "b"),
            (Operation::Nothing, "c"),
        ]
    );
    assert_eq!(changes(&ops), 2);
}

#[test]
fn one_line_replaced_path() {
    assert_eq!(
        get_diff(&["a", "b", "c"], &["a", "x", "c"]),
        vec![(1, 1), (2, 1), (3, 3)]
    );
}

#[test]
fn deleted_line_after_a_common_start() {
    let ops = diff(&["a", "c"], &["a", "b", "c"]);
    assert_eq!(
        shown(&ops),
        vec![
            (Operation::Nothing, "a"),
            (Operation::Delete, "b"),
            (Operation::Nothing, "c"),
        ]
    );
}

#[test]
fn inserted_line_after_a_common_start() {
    let ops = diff(&["a", "b", "c"], &["a", "c"]);
    assert_eq!(
        shown(&ops),
        vec![
            (Operation::Nothing, "a"),
            (Operation::Insert, "b"),
            (Operation::Nothing, "c"),
        ]
    );
}

#[test]
fn change_count_is_lengths_minus_twice_the_common_part() {
    // A longest common subsequence of the two is a, b, d, f: four lines.
    let expected = ["a", "b", "c", "d", "e", "f"];
    let actual = ["a", "x", "b", "d", "y", "z", "f"];
    let ops = diff(&expected, &actual);
    assert_eq!(changes(&ops), 6 + 7 - 2 * 4);
    let kept = ops.iter().filter(|op| op.operation == Operation::Nothing).count();
    assert_eq!(kept, 4);
    let inserted = ops.iter().filter(|op| op.operation == Operation::Insert).count();
    assert_eq!(inserted, 6 - 4);
    let deleted = ops.iter().filter(|op| op.operation == Operation::Delete).count();
    assert_eq!(deleted, 7 - 4);
}

#[test]
fn script_rebuilds_both_sequences() {
    let expected = ["a", "b", "c", "d", "e", "f"];
    let actual = ["a", "b", "x", "y", "e", "f"];
    let ops = diff(&expected, &actual);
    assert_eq!(
        shown(&ops),
        vec![
            (Operation::Nothing, "a"),
            (Operation::Nothing, "b"),
            (Operation::Delete, "x"),
            (Operation::Delete, "y"),
            (Operation::Insert, "c"),
            (Operation::Insert, "d"),
            (Operation::Nothing, "e"),
            (Operation::Nothing, "f"),
        ]
    );
    assert_eq!(lines_with(&ops, Operation::Insert), actual.to_vec());
    assert_eq!(lines_with(&ops, Operation::Delete), expected.to_vec());
}

#[test]
fn script_rebuilds_sequences_of_different_length() {
    let expected = ["one", "two", "three", "four"];
    let actual = ["two", "three", "five"];
    let ops = diff(&expected, &actual);
    assert_eq!(
        shown(&ops),
        vec![
            (Operation::Insert, "one"),
            (Operation::Nothing, "two"),
            (Operation::Nothing, "three"),
            (Operation::Delete, "five"),
            (Operation::Insert, "four"),
        ]
    );
    assert_eq!(lines_with(&ops, Operation::Insert), actual.to_vec());
    assert_eq!(lines_with(&ops, Operation::Delete), expected.to_vec());
}

#[test]
fn script_always_consumes_actual_in_order() {
    let expected = ["a", "b", "c", "d", "e", "f"];
    let actual = ["a", "x", "b", "d", "y", "z", "f"];
    let ops = diff(&expected, &actual);
    assert_eq!(lines_with(&ops, Operation::Insert), actual.to_vec());
    assert_eq!(lines_with(&ops, Operation::Delete).len(), expected.len());
}

#[test]
fn path_rises_to_the_far_corner() {
    let expected = ["a", "b", "c", "d", "e", "f"];
    let actual = ["a", "x", "b", "d", "y", "z", "f"];
    let path = get_diff(&expected, &actual);
    assert_eq!(path.len(), 5 + 1);
    assert_eq!(path[path.len() - 1], (7, 6));
    for pair in path.windows(2) {
        assert!(pair[0].0 <= pair[1].0);
        assert!(pair[0].1 <= pair[1].1);
        assert!(pair[0].0 + pair[0].1 < pair[1].0 + pair[1].1);
    }
}

#[test]
fn tied_neighbours_step_up() {
    // At depth two both neighbours of diagonal zero were recorded with x = 1.
    let ops = diff(&["r", "p"], &["p", "q"]);
    assert_eq!(get_diff(&["r", "p"], &["p", "q"]), vec![(0, 0), (1, 0), (2, 2)]);
    assert_eq!(
        shown(&ops),
        vec![
            (Operation::Delete, "p"),
            (Operation::Insert, "r"),
            (Operation::Nothing, "q"),
        ]
    );
    assert_eq!(changes(&ops), 2);
    assert_eq!(lines_with(&ops, Operation::Insert), vec!["p", "q"]);
}

#[test]
fn unresolved_tie_keeps_a_line_of_actual() {
    let ops = diff(&["a", "b"], &["b", "c"]);
    assert_eq!(
        shown(&ops),
        vec![
            (Operation::Delete, "b"),
            (Operation::Insert, "a"),
            (Operation::Nothing, "c"),
        ]
    );
    assert_eq!(lines_with(&ops, Operation::Insert), vec!["b", "c"]);
    assert_eq!(lines_with(&ops, Operation::Delete), vec!["a", "c"]);
}

#[test]
fn lines_are_compared_by_content() {
    let one = String::from("same line");
    let other = String::from("same line");
    let ops = diff(&[one.as_str()], &[other.as_str()]);
    assert_eq!(shown(&ops), vec![(Operation::Nothing, "same line")]);
}
