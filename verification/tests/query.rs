use query_diff::operation::Operation;
use query_diff::query::{
    accept, diff_documents, get_operation_type, has_plain_spaces, is_wide_space, load_document,
    split_lines, try_load_document, DefinitionKind, GraphqlOpType, QueryDocument, QueryError,
};

fn document(operation: GraphqlOpType, text: &str) -> QueryDocument {
    QueryDocument { operation, text: text.to_string() }
}

#[test]
fn operation_type_of_each_keyword() {
    assert_eq!(get_operation_type(DefinitionKind::Query), GraphqlOpType::Query);
    assert_eq!(get_operation_type(DefinitionKind::Mutation), GraphqlOpType::Mutation);
    assert_eq!(get_operation_type(DefinitionKind::Subscription), GraphqlOpType::Subscription);
}

#[test]
fn load_prints_a_query_in_canonical_form() {
    let loaded = load_document("query Foo { user { id } }").unwrap();
    assert_eq!(loaded.operation, GraphqlOpType::Query);
    assert_eq!(loaded.text, "query Foo {\n  user {\n    id\n  }\n}\n");
}

#[test]
fn load_tells_the_operations_apart() {
    let mutation = load_document("mutation { like(id: 1) }").unwrap();
    assert_eq!(mutation.operation, GraphqlOpType::Mutation);
    assert_eq!(mutation.text, "mutation {\n  like(id: 1)\n}\n");
    let subscription = load_document("subscription S { feed }").unwrap();
    assert_eq!(subscription.operation, GraphqlOpType::Subscription);
    assert_eq!(subscription.text, "subscription S {\n  feed\n}\n");
}

#[test]
fn load_goes_by_the_first_definition() {
    let loaded = load_document("query Q { a } mutation M { b }").unwrap();
    assert_eq!(loaded.operation, GraphqlOpType::Query);
    assert_eq!(loaded.text, "query Q {\n  a\n}\n\nmutation M {\n  b\n}\n");
}

#[test]
fn load_refuses_a_bare_selection_set() {
    assert!(matches!(load_document("{ a }"), Err(QueryError::NotAnOperation)));
}

#[test]
fn load_refuses_a_leading_fragment() {
    assert!(matches!(
        load_document("fragment F on User { id } query { a }"),
        Err(QueryError::NotAnOperation)
    ));
}

#[test]
fn load_hands_on_the_parser_message() {
    match load_document("query {") {
        Err(QueryError::Syntax(message)) => {
            assert!(message.starts_with("query parse error"));
        }
        other => panic!("unexpected: {:?}", other),
    }
}

#[test]
fn accept_maps_each_answer() {
    let accepted = accept(Ok((
        vec![DefinitionKind::Subscription],
        "subscription {\n}\n".to_string(),
    )))
    .unwrap();
    assert_eq!(accepted.operation, GraphqlOpType::Subscription);
    assert_eq!(accepted.text, "subscription {\n}\n");
    assert!(matches!(
        accept(Ok((vec![DefinitionKind::SelectionSet], String::new()))),
        Err(QueryError::NotAnOperation)
    ));
    assert!(matches!(
        accept(Ok((vec![DefinitionKind::Fragment], String::new()))),
        Err(QueryError::NotAnOperation)
    ));
    match accept(Err("no".to_string())) {
        Err(QueryError::Syntax(message)) => assert_eq!(message, "no"),
        other => panic!("unexpected: {:?}", other),
    }
}

#[test]
fn accept_goes_by_the_first_definition() {
    let accepted = accept(Ok((
        vec![DefinitionKind::Mutation, DefinitionKind::Fragment, DefinitionKind::Query],
        "m".to_string(),
    )))
    .unwrap();
    assert_eq!(accepted.operation, GraphqlOpType::Mutation);
    assert!(matches!(
        accept(Ok((vec![DefinitionKind::Fragment, DefinitionKind::Query], String::new()))),
        Err(QueryError::NotAnOperation)
    ));
}

#[test]
fn accept_refuses_a_document_without_definitions() {
    assert!(matches!(
        accept(Ok((Vec::new(), String::new()))),
        Err(QueryError::NotAnOperation)
    ));
}

#[test]
fn wide_spaces_are_told_apart() {
    for c in ['\u{85}', '\u{a0}', '\u{1680}', '\u{2000}', '\u{2005}', '\u{200a}', '\u{2028}',
        '\u{2029}', '\u{202f}', '\u{205f}', '\u{3000}']
    {
        assert!(is_wide_space(c));
        assert!(c.is_whitespace() && c.len_utf8() > 1);
    }
    for c in [' ', '\t', '\n', '\r', 'a', '\u{e9}', '\u{1fff}', '\u{200b}', '\u{3001}'] {
        assert!(!is_wide_space(c));
    }
}

#[test]
fn wide_spaces_are_exactly_the_white_space_of_more_than_one_byte() {
    for code in 0..=0x10ffffu32 {
        if let Some(c) = char::from_u32(code) {
            assert_eq!(is_wide_space(c), c.is_whitespace() && c.len_utf8() > 1);
        }
    }
}

#[test]
fn plain_spaces_of_a_text() {
    assert!(has_plain_spaces(""));
    assert!(has_plain_spaces("query {\n\ta b\r\n}"));
    assert!(has_plain_spaces("query { a(x: \"caf\u{e9}\") }"));
    assert!(!has_plain_spaces("query {\u{a0}a }"));
    assert!(!has_plain_spaces("\u{3000}"));
}

#[test]
fn try_load_answers_for_plain_texts_only() {
    match try_load_document("query Foo { user { id } }") {
        Some(Ok(loaded)) => {
            assert_eq!(loaded.operation, GraphqlOpType::Query);
            assert_eq!(loaded.text, "query Foo {\n  user {\n    id\n  }\n}\n");
        }
        other => panic!("unexpected: {:?}", other),
    }
    assert!(matches!(try_load_document("{ a }"), Some(Err(QueryError::NotAnOperation))));
    assert!(matches!(try_load_document("query {"), Some(Err(QueryError::Syntax(_)))));
    assert!(try_load_document("{ a(x: \"\"\"\n x\n\u{a0}y\n\"\"\") }").is_none());
    assert!(try_load_document("query {\u{2003}a }").is_none());
}

#[test]
fn block_strings_are_printed_without_their_common_indent() {
    let loaded = load_document("query { a(x: \"\"\"\n  one\n   two\n\"\"\") }").unwrap();
    assert_eq!(loaded.operation, GraphqlOpType::Query);
    assert_eq!(split_lines(&loaded.text)[0], "query {");
}

#[test]
fn split_lines_at_each_line_feed() {
    assert_eq!(split_lines("a\nb\n"), vec!["a", "b", ""]);
    assert_eq!(split_lines("abc"), vec!["abc"]);
    assert_eq!(split_lines(""), vec![""]);
    assert_eq!(split_lines("\n"), vec!["", ""]);
    assert_eq!(split_lines("a\n\nb"), vec!["a", "", "b"]);
}

#[test]
fn documents_of_one_kind_keep_the_first_line_of_expected() {
    let expected = load_document("query A { user { id name } }").unwrap();
    let actual = load_document("query B { user { id email } }").unwrap();
    let ops = diff_documents(&expected, &actual);
    let shown: Vec<(Operation, &str)> = ops.iter().map(|op| (op.operation, op.line)).collect();
    assert_eq!(
        shown,
        vec![
            (Operation::Nothing, "query A {"),
            (Operation::Nothing, "  user {"),
            (Operation::Nothing, "    id"),
            (Operation::Delete, "    email"),
            (Operation::Insert, "    name"),
            (Operation::Nothing, "  }"),
            (Operation::Nothing, "}"),
            (Operation::Nothing, ""),
        ]
    );
}

#[test]
fn documents_of_different_kinds_are_compared_from_the_first_line() {
    let expected = document(GraphqlOpType::Mutation, "mutation {\n  user {\n    id\n  }\n}\n");
    let actual = document(GraphqlOpType::Query, "query {\n  user {\n    id\n  }\n}\n");
    let ops = diff_documents(&expected, &actual);
    let shown: Vec<(Operation, &str)> = ops.iter().map(|op| (op.operation, op.line)).collect();
    assert_eq!(
        shown,
        vec![
            (Operation::Delete, "query {"),
            (Operation::Insert, "mutation {"),
            (Operation::Nothing, "  user {"),
            (Operation::Nothing, "    id"),
            (Operation::Nothing, "  }"),
            (Operation::Nothing, "}"),
            (Operation::Nothing, ""),
        ]
    );
}

#[test]
fn identical_documents_keep_every_line() {
    let expected = load_document("query { a b }").unwrap();
    let actual = load_document("query {\n a\n b\n}").unwrap();
    let ops = diff_documents(&expected, &actual);
    let shown: Vec<(Operation, &str)> = ops.iter().map(|op| (op.operation, op.line)).collect();
    assert_eq!(
        shown,
        vec![
            (Operation::Nothing, "query {"),
            (Operation::Nothing, "  a"),
            (Operation::Nothing, "  b"),
            (Operation::Nothing, "}"),
            (Operation::Nothing, ""),
        ]
    );
}
