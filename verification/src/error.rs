//! The error that reading a text format can give.

use vstd::prelude::*;

verus! {

/// What was wrong with the token that a parse error names.
#[derive(Debug, Clone, Copy, PartialEq, Eq, Structural)]
pub enum ParseErrorKind {
    /// The token stands where a number is expected and writes none.
    InvalidNumber,
    /// The first token of an adjacency line is no node.
    InvalidNode,
    /// A later token of an adjacency line is no node.
    InvalidSuccessor,
    /// The opcode, named by the token, has too few or too many arguments.
    WrongArgumentCount,
    /// The token stands where an opcode is expected and is none.
    UnknownOpcode,
}

/// A parse error: the line on which it was found, counted from 1, its kind
/// and the offending token.
#[derive(Debug, Clone, PartialEq, Eq)]
pub struct ParseError {
    pub line: usize,
    pub kind: ParseErrorKind,
    pub token: String,
}

/// A parse error as a mathematical value.
pub struct ParseErrorView {
    pub line: nat,
    pub kind: ParseErrorKind,
    pub token: Seq<char>,
}

impl View for ParseError {
    type V = ParseErrorView;

    open spec fn view(&self) -> ParseErrorView {
        ParseErrorView { line: self.line as nat, kind: self.kind, token: self.token@ }
    }
}

} // verus!
