//! Query documents: their canonical text, the kind of operation they start
//! with, and the edit script of two of them.

use vstd::prelude::*;
use vstd::slice::slice_subrange;
use graphql_parser::query::{Definition, OperationDefinition};
use crate::diff::{diff, diff_script};
use crate::line::lines_of;
use crate::operation::{Operation, Printer};
use crate::render::script_of;

verus! {

/// The kind of an executable definition of a query document.
#[derive(Debug, Clone, Copy, PartialEq, Eq, Structural)]
pub enum DefinitionKind {
    /// A bare selection set, the shorthand of a query.
    SelectionSet,
    Query,
    Mutation,
    Subscription,
    Fragment,
}

/// The kind of a query operation that starts with its keyword.
#[derive(Debug, Clone, Copy, PartialEq, Eq, Structural)]
pub enum GraphqlOpType {
    Query,
    Subscription,
    Mutation,
}

/// A parsed query document: the kind of its first operation, and its text in
/// canonical form.
#[derive(Debug)]
pub struct QueryDocument {
    pub operation: GraphqlOpType,
    pub text: String,
}

/// Why a text is no query document that can be compared.
#[derive(Debug)]
pub enum QueryError {
    /// The text is no query document; the parser's message says why.
    Syntax(String),
    /// The document's first definition is no operation that starts with its
    /// keyword.
    NotAnOperation,
}

/// What the parser makes of a query text: the kinds of the document's
/// definitions in order with the document's canonical text, or the parser's
/// message.
pub uninterp spec fn parsed_query(query: Seq<char>) -> Result<
    (Seq<DefinitionKind>, Seq<char>),
    Seq<char>,
>;

/// A parser's answer as plain values.
pub open spec fn answer_of(out: Result<(Vec<DefinitionKind>, String), String>) -> Result<
    (Seq<DefinitionKind>, Seq<char>),
    Seq<char>,
> {
    match out {
        Ok(found) => Ok((found.0@, found.1@)),
        Err(message) => Err(message@),
    }
}

/// A white-space character that takes more than one byte in UTF-8.
pub open spec fn wide_space(c: char) -> bool {
    let code = c as u32;
    code == 0x85 || code == 0xa0 || code == 0x1680 || 0x2000 <= code <= 0x200a || code == 0x2028
        || code == 0x2029 || code == 0x202f || code == 0x205f || code == 0x3000
}

/// The text holds no white space but that of one byte.
pub open spec fn plain_spaces(text: Seq<char>) -> bool {
    forall|i: int| 0 <= i < text.len() ==> !wide_space(#[trigger] text[i])
}

/// Parses a query text and prints the document in canonical form.
///
/// Trusted: this calls `graphql_parser::parse_query`, and converts what it
/// returns. Of a document it takes the variant of each definition, in
/// order, and the text that the document's `Display` writes; of an error,
/// the text that the error's `Display` writes. The contract only names the
/// result: it is a function of the query text alone.
///
/// The parser strips the common indentation from the lines of a block
/// string by cutting each line at a byte offset, and panics where the
/// offset falls inside a character. That takes a white-space character of
/// more than one byte at the start of a line, so such texts are left out.
#[verifier::external_body]
fn parse_document(query: &str) -> (out: Result<(Vec<DefinitionKind>, String), String>)
    requires
        plain_spaces(query@),
    ensures
        answer_of(out) == parsed_query(query@),
{
    match graphql_parser::parse_query::<&str>(query) {
        Err(error) => Err(error.to_string()),
        Ok(document) => {
            let kinds = document.definitions.iter().map(|definition| match definition {
                Definition::Operation(OperationDefinition::SelectionSet(_)) => DefinitionKind::SelectionSet,
                Definition::Operation(OperationDefinition::Query(_)) => DefinitionKind::Query,
                Definition::Operation(OperationDefinition::Mutation(_)) => DefinitionKind::Mutation,
                Definition::Operation(OperationDefinition::Subscription(_)) => DefinitionKind::Subscription,
                Definition::Fragment(_) => DefinitionKind::Fragment,
            });
            Ok((kinds.collect(), document.to_string()))
        },
    }
}

impl DefinitionKind {
    /// The definition is an operation that starts with its keyword.
    pub open spec fn is_operation(self) -> bool {
        self == DefinitionKind::Query || self == DefinitionKind::Mutation || self
            == DefinitionKind::Subscription
    }

    /// The kind of operation that the definition is.
    pub open spec fn operation_type(self) -> GraphqlOpType {
        match self {
            DefinitionKind::Mutation => GraphqlOpType::Mutation,
            DefinitionKind::Subscription => GraphqlOpType::Subscription,
            _ => GraphqlOpType::Query,
        }
    }
}

/// The kind of operation that a definition is.
pub fn get_operation_type(definition: DefinitionKind) -> (kind: GraphqlOpType)
    requires
        definition.is_operation(),
    ensures
        kind == definition.operation_type(),
{
    match definition {
        DefinitionKind::Mutation => GraphqlOpType::Mutation,
        DefinitionKind::Subscription => GraphqlOpType::Subscription,
        _ => GraphqlOpType::Query,
    }
}

/// The document that a parser's answer stands for, if it is one that can be
/// compared: the first definition decides.
pub open spec fn accepted(parsed: Result<(Seq<DefinitionKind>, Seq<char>), Seq<char>>) -> Result<
    (GraphqlOpType, Seq<char>),
    Option<Seq<char>>,
> {
    match parsed {
        Ok((kinds, text)) => if kinds.len() > 0 && kinds[0].is_operation() {
            Ok((kinds[0].operation_type(), text))
        } else {
            Err(None)
        },
        Err(message) => Err(Some(message)),
    }
}

/// A document, or the reason why there is none, as plain values: the kind of
/// operation with the text, or the parser's message where there is one.
pub open spec fn outcome(out: Result<QueryDocument, QueryError>) -> Result<
    (GraphqlOpType, Seq<char>),
    Option<Seq<char>>,
> {
    match out {
        Ok(document) => Ok((document.operation, document.text@)),
        Err(QueryError::Syntax(message)) => Err(Some(message@)),
        Err(QueryError::NotAnOperation) => Err(None),
    }
}

/// Turns a parser's answer into a document. A parsed text whose first
/// definition is a query, a mutation or a subscription is accepted; one that
/// starts with another definition, or holds none, is refused; and the
/// parser's message is handed on.
pub fn accept(parsed: Result<(Vec<DefinitionKind>, String), String>) -> (out: Result<
    QueryDocument,
    QueryError,
>)
    ensures
        outcome(out) == accepted(answer_of(parsed)),
{
    match parsed {
        Ok(found) => {
            if found.0.len() == 0 {
                return Err(QueryError::NotAnOperation);
            }
            let first: DefinitionKind = found.0[0];
            match first {
                DefinitionKind::Query | DefinitionKind::Mutation | DefinitionKind::Subscription => {
                    Ok(QueryDocument { operation: get_operation_type(first), text: found.1 })
                },
                _ => Err(QueryError::NotAnOperation),
            }
        },
        Err(message) => Err(QueryError::Syntax(message)),
    }
}

/// Whether a character is a white-space character of more than one byte.
pub fn is_wide_space(c: char) -> (wide: bool)
    ensures
        wide == wide_space(c),
{
    let code: u32 = c as u32;
    code == 0x85 || code == 0xa0 || code == 0x1680 || (0x2000 <= code && code <= 0x200a) || code
        == 0x2028 || code == 0x2029 || code == 0x202f || code == 0x205f || code == 0x3000
}

/// Whether a text holds no white space but that of one byte.
pub fn has_plain_spaces(text: &str) -> (plain: bool)
    ensures
        plain == plain_spaces(text@),
{
    let chars = text.chars();
    for c in it: chars
        invariant
            it.seq() == text@,
            forall|i: int| 0 <= i < it.index() ==> !wide_space(#[trigger] text@[i]),
    {
        if is_wide_space(c) {
            return false;
        }
    }
    true
}

/// Parses a query text into a document that can be compared.
pub fn load_document(query: &str) -> (out: Result<QueryDocument, QueryError>)
    requires
        plain_spaces(query@),
    ensures
        outcome(out) == accepted(parsed_query(query@)),
{
    accept(parse_document(query))
}

/// Parses a query text into a document that can be compared, unless the
/// text holds a white-space character of more than one byte: then it is not
/// handed to the parser, and there is no answer.
pub fn try_load_document(query: &str) -> (out: Option<Result<QueryDocument, QueryError>>)
    ensures
        plain_spaces(query@) ==> out is Some && outcome(out->0) == accepted(parsed_query(query@)),
        !plain_spaces(query@) ==> out is None,
{
    if has_plain_spaces(query) {
        Some(load_document(query))
    } else {
        None
    }
}

/// The number of characters before the first line feed of `text`, or the
/// length of `text` where it holds none.
pub open spec fn first_line_len(text: Seq<char>) -> nat
    decreases text.len(),
{
    if text.len() == 0 || text[0] == '\n' {
        0
    } else {
        1 + first_line_len(text.skip(1))
    }
}

/// The lines of `text`: the pieces between its line feeds. A text without a
/// line feed is one line, and a text that ends in a line feed ends in an
/// empty line.
pub open spec fn lines_in(text: Seq<char>) -> Seq<Seq<char>>
    decreases text.len(),
{
    let n = first_line_len(text) as int;
    if n >= text.len() {
        seq![text]
    } else {
        seq![text.take(n)] + lines_in(text.skip(n + 1))
    }
}

/// Splits a text at its first line feed.
///
/// Trusted: this is `str::split_once` with a line feed as the delimiter,
/// which splits a string slice on the first occurrence of the delimiter and
/// returns what stands before it and what stands after it, or `None` where
/// the delimiter does not occur.
#[verifier::external_body]
fn split_at_line_feed<'a>(text: &'a str) -> (parts: Option<(&'a str, &'a str)>)
    ensures
        parts matches Some(pair) ==> text@ == pair.0@ + seq!['\n'] + pair.1@,
        parts matches Some(pair) ==> forall|i: int| 0 <= i < pair.0@.len() ==> pair.0@[i] != '\n',
        parts is None ==> forall|i: int| 0 <= i < text@.len() ==> text@[i] != '\n',
{
    text.split_once('\n')
}

proof fn lemma_first_line(text: Seq<char>, head: Seq<char>, tail: Seq<char>)
    requires
        text == head + seq!['\n'] + tail,
        forall|i: int| 0 <= i < head.len() ==> head[i] != '\n',
    ensures
        first_line_len(text) == head.len(),
        text.take(head.len() as int) == head,
        text.skip(head.len() as int + 1) == tail,
    decreases head.len(),
{
    assert(text.take(head.len() as int) =~= head);
    assert(text.skip(head.len() as int + 1) =~= tail);
    if head.len() > 0 {
        assert(text[0] == head[0]);
        assert(text.skip(1) =~= head.skip(1) + seq!['\n'] + tail);
        lemma_first_line(text.skip(1), head.skip(1), tail);
    } else {
        assert(text[0] == '\n');
    }
}

proof fn lemma_one_line(text: Seq<char>)
    requires
        forall|i: int| 0 <= i < text.len() ==> text[i] != '\n',
    ensures
        first_line_len(text) == text.len(),
    decreases text.len(),
{
    if text.len() > 0 {
        lemma_one_line(text.skip(1));
    }
}

/// Splits a text into its lines.
pub fn split_lines<'a>(text: &'a str) -> (lines: Vec<&'a str>)
    ensures
        lines_of(lines@) == lines_in(text@),
        lines.len() >= 1,
{
    let mut lines: Vec<&'a str> = Vec::new();
    let mut rest: &'a str = text;
    assert(lines_of(lines@) + lines_in(rest@) =~= lines_in(text@));
    loop
        invariant
            lines_of(lines@) + lines_in(rest@) == lines_in(text@),
        decreases rest@.len(),
    {
        let ghost before = lines_of(lines@);
        match split_at_line_feed(rest) {
            Some((head, tail)) => {
                proof {
                    lemma_first_line(rest@, head@, tail@);
                }
                lines.push(head);
                assert(lines_of(lines@) =~= before + seq![head@]);
                assert(lines_of(lines@) + lines_in(tail@) =~= before + lines_in(rest@));
                rest = tail;
            },
            None => {
                proof {
                    lemma_one_line(rest@);
                }
                lines.push(rest);
                assert(lines_of(lines@) =~= before + seq![rest@]);
                return lines;
            },
        }
    }
}

/// The edit script of two documents. Where both start with the same kind of
/// operation, their first lines are not compared: the first line of
/// `expected` is kept, and the script of the remaining lines follows.
pub open spec fn document_script(
    expected_operation: GraphqlOpType,
    expected: Seq<Seq<char>>,
    actual_operation: GraphqlOpType,
    actual: Seq<Seq<char>>,
) -> Seq<(Operation, Seq<char>)> {
    if actual_operation == expected_operation {
        seq![(Operation::Nothing, expected[0])] + diff_script(expected.skip(1), actual.skip(1))
    } else {
        diff_script(expected, actual)
    }
}

/// Computes the edit script that relates the canonical texts of two
/// documents, line by line.
pub fn diff_documents<'a>(expected: &'a QueryDocument, actual: &'a QueryDocument) -> (ops: Vec<
    Printer<'a>,
>)
    ensures
        script_of(ops@) == document_script(
            expected.operation,
            lines_in(expected.text@),
            actual.operation,
            lines_in(actual.text@),
        ),
{
    let expected_lines: Vec<&'a str> = split_lines(expected.text.as_str());
    let actual_lines: Vec<&'a str> = split_lines(actual.text.as_str());
    let same: bool = match (actual.operation, expected.operation) {
        (GraphqlOpType::Query, GraphqlOpType::Query) => true,
        (GraphqlOpType::Mutation, GraphqlOpType::Mutation) => true,
        (GraphqlOpType::Subscription, GraphqlOpType::Subscription) => true,
        _ => false,
    };
    if same {
        let expected_rest: &[&'a str] = slice_subrange(
            expected_lines.as_slice(),
            1,
            expected_lines.len(),
        );
        let actual_rest: &[&'a str] = slice_subrange(actual_lines.as_slice(), 1, actual_lines.len());
        let mut ops: Vec<Printer<'a>> = Vec::new();
        ops.push(Printer { operation: Operation::Nothing, line: expected_lines[0] });
        let mut rest: Vec<Printer<'a>> = diff(expected_rest, actual_rest);
        proof {
            assert(lines_of(expected_rest@) =~= lines_in(expected.text@).skip(1));
            assert(lines_of(actual_rest@) =~= lines_in(actual.text@).skip(1));
        }
        let ghost first = script_of(ops@);
        let ghost following = script_of(rest@);
        ops.append(&mut rest);
        assert(script_of(ops@) =~= first + following);
        assert(first =~= seq![(Operation::Nothing, lines_in(expected.text@)[0])]);
        ops
    } else {
        diff(expected_lines.as_slice(), actual_lines.as_slice())
    }
}

} // verus!
