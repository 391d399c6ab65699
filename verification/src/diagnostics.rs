//! Problems found while lexing or parsing, each tied to a span of the source.

use crate::hir_tokenizer::Span;
use vstd::prelude::*;
use vstd::string::*;

verus! {

/// What the parser was looking for at the place where a statement stopped
/// matching the grammar.
#[derive(Clone, Copy, Debug, PartialEq, Eq, Structural)]
pub enum Expected {
    /// The start of a statement: a global name, `declare`, `define` or a
    /// debug reference.
    Statement,
    /// A type keyword.
    Type,
    /// A global name (`@...`).
    GlobalName,
    /// A local name (`%...`).
    LocalName,
    /// An instruction mnemonic.
    Mnemonic,
    /// A number, as the address of a declared function.
    HexNum,
    /// `=`.
    Assign,
    /// `(`.
    OpenParen,
    /// `)`, or a `,` that continues an argument list.
    CloseParen,
    /// `{`.
    OpenBrace,
    /// `}`, or something that continues a function body.
    CloseBrace,
    /// The end of the line, or of the input.
    LineEnd,
}

/// The category of a diagnostic.
#[derive(Clone, Copy, Debug, PartialEq, Eq, Structural)]
pub enum DiagnosticKind {
    /// The lexer met bytes that start no token, and skipped them.
    UnrecognizedText,
    /// The parser met a token that cannot continue the statement.
    UnexpectedToken(Expected),
    /// The input ended in the middle of a statement.
    UnexpectedEnd(Expected),
    /// The input ended before the delimiter that closes `(` or `{`; the
    /// character is the opening delimiter.
    UnclosedDelimiter(char),
}

/// One lexical or syntactic problem.
#[derive(Clone, Copy, Debug, PartialEq, Eq, Structural)]
pub struct Diagnostic {
    pub span: Span,
    pub kind: DiagnosticKind,
}

/// How a message names what was expected.
pub open spec fn expected_text(e: Expected) -> Seq<char> {
    match e {
        Expected::Statement => "a global name, 'declare', 'define' or a debug reference"@,
        Expected::Type => "a type"@,
        Expected::GlobalName => "a global name"@,
        Expected::LocalName => "a local name"@,
        Expected::Mnemonic => "an instruction"@,
        Expected::HexNum => "a hexadecimal number"@,
        Expected::Assign => "'='"@,
        Expected::OpenParen => "'('"@,
        Expected::CloseParen => "',' or ')'"@,
        Expected::OpenBrace => "'{'"@,
        Expected::CloseBrace => "an instruction, a label or '}'"@,
        Expected::LineEnd => "end of line"@,
    }
}

/// The message of a diagnostic of the given kind. It tells an unclosed
/// delimiter, an unexpected token, an unexpected end of the input and
/// unrecognized text apart.
pub open spec fn message_text(kind: DiagnosticKind) -> Seq<char> {
    match kind {
        DiagnosticKind::UnrecognizedText => "Unrecognized text"@,
        DiagnosticKind::UnexpectedToken(e) => "Unexpected token in input, expected "@
            + expected_text(e),
        DiagnosticKind::UnexpectedEnd(e) => "Unexpected end of input, expected "@ + expected_text(
            e,
        ),
        DiagnosticKind::UnclosedDelimiter(c) => "Unclosed delimiter "@ + seq![c],
    }
}

impl Expected {
    /// How a message names what was expected.
    pub fn describe(&self) -> (r: &'static str)
        ensures
            r@ == expected_text(*self),
    {
        match self {
            Expected::Statement => "a global name, 'declare', 'define' or a debug reference",
            Expected::Type => "a type",
            Expected::GlobalName => "a global name",
            Expected::LocalName => "a local name",
            Expected::Mnemonic => "an instruction",
            Expected::HexNum => "a hexadecimal number",
            Expected::Assign => "'='",
            Expected::OpenParen => "'('",
            Expected::CloseParen => "',' or ')'",
            Expected::OpenBrace => "'{'",
            Expected::CloseBrace => "an instruction, a label or '}'",
            Expected::LineEnd => "end of line",
        }
    }
}

impl Diagnostic {
    /// The message of the diagnostic, for a human reader.
    pub fn message(&self) -> (r: String)
        ensures
            r@ == message_text(self.kind),
    {
        match self.kind {
            DiagnosticKind::UnrecognizedText => "Unrecognized text".to_owned(),
            DiagnosticKind::UnexpectedToken(e) => {
                let mut s = "Unexpected token in input, expected ".to_owned();
                s.append(e.describe());
                s
            },
            DiagnosticKind::UnexpectedEnd(e) => {
                let mut s = "Unexpected end of input, expected ".to_owned();
                s.append(e.describe());
                s
            },
            DiagnosticKind::UnclosedDelimiter(c) => {
                let mut s = "Unclosed delimiter ".to_owned();
                s.push(c);
                assert(s@ =~= "Unclosed delimiter "@ + seq![c]);
                s
            },
        }
    }
}

} // verus!
