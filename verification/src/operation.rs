//! The classification of a line in an edit script, and its display metadata.

use vstd::prelude::*;

verus! {

/// What an edit script does with one line.
#[derive(Debug, Clone, Copy, PartialEq, Eq, Structural)]
pub enum Operation {
    /// The line occurs only in `actual`.
    Delete,
    /// The line occurs only in `expected`.
    Insert,
    /// The line is common to both sequences at this point.
    Nothing,
}

/// The colour in which a line of an edit script is shown.
#[derive(Debug, Clone, Copy, PartialEq, Eq, Structural)]
pub enum Color {
    Red,
    Green,
    White,
}

/// One line of an edit script: the line's text and what happens to it.
#[derive(Debug, Clone, Copy)]
pub struct Printer<'a> {
    pub operation: Operation,
    pub line: &'a str,
}

impl Operation {
    /// The one-character marker that precedes a line of this kind.
    pub open spec fn symbol_text(self) -> Seq<char> {
        match self {
            Operation::Delete => seq!['-'],
            Operation::Insert => seq!['+'],
            Operation::Nothing => seq![' '],
        }
    }

    /// The colour of a line of this kind.
    pub open spec fn display_color(self) -> Color {
        match self {
            Operation::Delete => Color::Red,
            Operation::Insert => Color::Green,
            Operation::Nothing => Color::White,
        }
    }

    pub fn symbol(&self) -> (s: &'static str)
        ensures
            s@ == self.symbol_text(),
    {
        proof {
            reveal_strlit("-");
            reveal_strlit("+");
            reveal_strlit(" ");
        }
        match self {
            Operation::Delete => {
                assert("-"@ =~= seq!['-']);
                "-"
            },
            Operation::Insert => {
                assert("+"@ =~= seq!['+']);
                "+"
            },
            Operation::Nothing => {
                assert(" "@ =~= seq![' ']);
                " "
            },
        }
    }

    pub fn color(&self) -> (c: Color)
        ensures
            c == self.display_color(),
    {
        match self {
            Operation::Delete => Color::Red,
            Operation::Insert => Color::Green,
            Operation::Nothing => Color::White,
        }
    }
}

impl<'a> Printer<'a> {
    /// The line as a pair of its kind and its characters.
    pub open spec fn view(self) -> (Operation, Seq<char>) {
        (self.operation, self.line@)
    }
}

} // verus!
