//! The parser: a token stream to a list of statements, with recovery at
//! statement level.

use crate::diagnostics::{Diagnostic, DiagnosticKind, Expected};
use crate::hir_tokenizer::{is_punct_tok, lex, tokenize, Span, Spanned, Tok, Token, TokenKind};
use vstd::prelude::*;
use vstd::string::*;

verus! {

// ---------------------------------------------------------------------
// The syntax tree
// ---------------------------------------------------------------------

/// One argument of a function: its type and its local name.
#[derive(Debug, PartialEq, Eq)]
pub struct FuncArg {
    pub type_: Spanned<String>,
    pub name: Spanned<String>,
}

/// The signature of a declared or defined function.
#[derive(Debug, PartialEq, Eq)]
pub struct FuncSignature {
    pub modifiers: Vec<Spanned<String>>,
    pub ret_type: Spanned<String>,
    pub name: Spanned<String>,
    pub args: Vec<FuncArg>,
}

/// One instruction. Only what navigation needs is kept of it: the local
/// that it assigns, its mnemonic, and the block labels among its operands.
#[derive(Debug, PartialEq, Eq)]
pub struct Instruction {
    pub assignment_target: Option<Spanned<String>>,
    pub instruction: Spanned<String>,
    pub basic_block_refs: Vec<Spanned<String>>,
    /// From the first token of the instruction to its last.
    pub span: Span,
}

/// A basic block. The entry block of a function has no label.
#[derive(Debug, PartialEq, Eq)]
pub struct BasicBlock {
    pub label: Option<Spanned<String>>,
    pub instructions: Vec<Instruction>,
    /// From the label (or the first instruction) to the last instruction.
    pub span: Span,
}

/// The body of a function definition.
#[derive(Debug, PartialEq, Eq)]
pub struct FuncBody {
    pub opening_bracket: Span,
    pub closing_bracket: Span,
    pub basic_blocks: Vec<BasicBlock>,
}

/// A top-level statement.
#[derive(Debug, PartialEq, Eq)]
pub enum Statement {
    GlobalVar { name: Spanned<String>, def: Vec<Spanned<Token>> },
    FuncDecl { signature: FuncSignature, addr: Option<Spanned<String>> },
    FuncDef { define_kw: Span, signature: FuncSignature, body: FuncBody },
    DbgAnnotation { name: Spanned<String>, def: Vec<Spanned<Token>> },
}

// ---------------------------------------------------------------------
// Its model
// ---------------------------------------------------------------------

/// The model of a spanned name: its text and its span.
pub type Name = (Seq<char>, Span);

/// The model of a `FuncArg`.
pub struct FuncArgView {
    pub type_: Name,
    pub name: Name,
}

/// The model of a `FuncSignature`.
pub struct FuncSignatureView {
    pub modifiers: Seq<Name>,
    pub ret_type: Name,
    pub name: Name,
    pub args: Seq<FuncArgView>,
}

/// The model of an `Instruction`.
pub struct InstructionView {
    pub assignment_target: Option<Name>,
    pub instruction: Name,
    pub basic_block_refs: Seq<Name>,
    pub span: Span,
}

/// The model of a `BasicBlock`.
pub struct BasicBlockView {
    pub label: Option<Name>,
    pub instructions: Seq<InstructionView>,
    pub span: Span,
}

/// The model of a `FuncBody`.
pub struct FuncBodyView {
    pub opening_bracket: Span,
    pub closing_bracket: Span,
    pub basic_blocks: Seq<BasicBlockView>,
}

/// The model of a `Statement`.
pub enum StatementView {
    GlobalVar { name: Name, def: Seq<Tok> },
    FuncDecl { signature: FuncSignatureView, addr: Option<Name> },
    FuncDef { define_kw: Span, signature: FuncSignatureView, body: FuncBodyView },
    DbgAnnotation { name: Name, def: Seq<Tok> },
}

impl DeepView for FuncArg {
    type V = FuncArgView;

    open spec fn deep_view(&self) -> FuncArgView {
        FuncArgView { type_: self.type_.deep_view(), name: self.name.deep_view() }
    }
}

impl DeepView for FuncSignature {
    type V = FuncSignatureView;

    open spec fn deep_view(&self) -> FuncSignatureView {
        FuncSignatureView {
            modifiers: self.modifiers.deep_view(),
            ret_type: self.ret_type.deep_view(),
            name: self.name.deep_view(),
            args: self.args.deep_view(),
        }
    }
}

impl DeepView for Instruction {
    type V = InstructionView;

    open spec fn deep_view(&self) -> InstructionView {
        InstructionView {
            assignment_target: self.assignment_target.deep_view(),
            instruction: self.instruction.deep_view(),
            basic_block_refs: self.basic_block_refs.deep_view(),
            span: self.span,
        }
    }
}

impl DeepView for BasicBlock {
    type V = BasicBlockView;

    open spec fn deep_view(&self) -> BasicBlockView {
        BasicBlockView {
            label: self.label.deep_view(),
            instructions: self.instructions.deep_view(),
            span: self.span,
        }
    }
}

impl DeepView for FuncBody {
    type V = FuncBodyView;

    open spec fn deep_view(&self) -> FuncBodyView {
        FuncBodyView {
            opening_bracket: self.opening_bracket,
            closing_bracket: self.closing_bracket,
            basic_blocks: self.basic_blocks.deep_view(),
        }
    }
}

impl DeepView for Statement {
    type V = StatementView;

    open spec fn deep_view(&self) -> StatementView {
        match self {
            Statement::GlobalVar { name, def } => StatementView::GlobalVar {
                name: name.deep_view(),
                def: def.deep_view(),
            },
            Statement::FuncDecl { signature, addr } => StatementView::FuncDecl {
                signature: signature.deep_view(),
                addr: addr.deep_view(),
            },
            Statement::FuncDef { define_kw, signature, body } => StatementView::FuncDef {
                define_kw: *define_kw,
                signature: signature.deep_view(),
                body: body.deep_view(),
            },
            Statement::DbgAnnotation { name, def } => StatementView::DbgAnnotation {
                name: name.deep_view(),
                def: def.deep_view(),
            },
        }
    }
}

// ---------------------------------------------------------------------
// Looking at the token stream
// ---------------------------------------------------------------------

/// Whether a token of kind `k` stands at `pos`.
pub open spec fn is_kind(toks: Seq<Tok>, pos: int, k: TokenKind) -> bool {
    0 <= pos < toks.len() && toks[pos].0.kind == k
}

/// Whether the punctuation character `c` stands at `pos`.
pub open spec fn is_punct_at(toks: Seq<Tok>, pos: int, c: char) -> bool {
    0 <= pos < toks.len() && is_punct_tok(toks[pos].0, c)
}

/// The text and span of the token at `pos`.
pub open spec fn name_at(toks: Seq<Tok>, pos: int) -> Name {
    (toks[pos].0.text, toks[pos].1)
}

/// Where the run of tokens of kind `k` that starts at `pos` ends.
pub open spec fn run_of(toks: Seq<Tok>, pos: int, k: TokenKind) -> int
    decreases toks.len() - pos,
{
    if is_kind(toks, pos, k) {
        run_of(toks, pos + 1, k)
    } else {
        pos
    }
}

/// Where the line that `pos` stands in ends: the position of the next
/// `Newline` from `pos` on, or the end of the input.
pub open spec fn line_end(toks: Seq<Tok>, pos: int) -> int
    decreases toks.len() - pos,
{
    if 0 <= pos < toks.len() && toks[pos].0.kind != TokenKind::Newline {
        line_end(toks, pos + 1)
    } else {
        pos
    }
}

/// The position behind the line end at `pos`: behind the `Newline`, or the
/// end of the input itself.
pub open spec fn after_line_end(toks: Seq<Tok>, pos: int) -> int {
    if pos < toks.len() {
        pos + 1
    } else {
        pos
    }
}

/// A run of tokens ends at or behind its start, inside the stream, in
/// front of a token of another kind.
pub proof fn lemma_run_of_bounds(toks: Seq<Tok>, pos: int, k: TokenKind)
    requires
        0 <= pos <= toks.len(),
    ensures
        pos <= run_of(toks, pos, k) <= toks.len(),
        !is_kind(toks, run_of(toks, pos, k), k),
    decreases toks.len() - pos,
{
    if is_kind(toks, pos, k) {
        lemma_run_of_bounds(toks, pos + 1, k);
    }
}

/// A line ends at or behind every position of it, at a `Newline` or at
/// the end of the stream.
pub proof fn lemma_line_end_bounds(toks: Seq<Tok>, pos: int)
    requires
        0 <= pos <= toks.len(),
    ensures
        pos <= line_end(toks, pos) <= toks.len(),
        line_end(toks, pos) < toks.len() ==> is_kind(
            toks,
            line_end(toks, pos),
            TokenKind::Newline,
        ),
    decreases toks.len() - pos,
{
    if pos < toks.len() && toks[pos].0.kind != TokenKind::Newline {
        lemma_line_end_bounds(toks, pos + 1);
    }
}

/// The names of the tokens from `from` up to `to`, in order.
pub open spec fn names_between(toks: Seq<Tok>, from: int, to: int) -> Seq<Name>
    decreases to - from,
{
    if to <= from {
        Seq::empty()
    } else {
        names_between(toks, from, to - 1).push(name_at(toks, to - 1))
    }
}

/// The names of the identifier tokens from `from` up to `to`, in order.
pub open spec fn idents_between(toks: Seq<Tok>, from: int, to: int) -> Seq<Name>
    decreases to - from,
{
    if to <= from {
        Seq::empty()
    } else if toks[to - 1].0.kind == TokenKind::Ident {
        idents_between(toks, from, to - 1).push(name_at(toks, to - 1))
    } else {
        idents_between(toks, from, to - 1)
    }
}

fn kind_is(toks: &Vec<Spanned<Token>>, pos: usize, k: TokenKind) -> (r: bool)
    ensures
        r == is_kind(toks.deep_view(), pos as int, k),
        r ==> pos < toks@.len(),
        toks@.len() <= usize::MAX,
{
    pos < toks.len() && toks[pos].0.kind() == k
}

fn punct_is(toks: &Vec<Spanned<Token>>, pos: usize, c: char) -> (r: bool)
    ensures
        r == is_punct_at(toks.deep_view(), pos as int, c),
        r ==> pos < toks@.len(),
        toks@.len() <= usize::MAX,
{
    pos < toks.len() && toks[pos].0.is_punct(c)
}

/// The text of a token, as a string of its own, with the token's span.
fn take_name(tok: &Spanned<Token>) -> (r: Spanned<String>)
    ensures
        r.deep_view() == (tok.0.deep_view().text, tok.1),
{
    let text = match &tok.0 {
        Token::Punctuation(c) => {
            let mut s = String::new();
            s.push(*c);
            assert(s@ =~= seq![*c]);
            s
        },
        Token::GlobalName(s) => s.clone(),
        Token::LocalName(s) => s.clone(),
        Token::DebugRef(s) => s.clone(),
        Token::Type(s) => s.clone(),
        Token::FuncModifier(s) => s.clone(),
        Token::Ident(s) => s.clone(),
        Token::HexNum(s) => s.clone(),
        _ => String::new(),
    };
    (text, tok.1)
}

fn skip_run(toks: &Vec<Spanned<Token>>, pos: usize, k: TokenKind) -> (e: usize)
    requires
        pos <= toks@.len(),
    ensures
        e == run_of(toks.deep_view(), pos as int, k),
        pos <= e <= toks@.len(),
{
    let mut i: usize = pos;
    while i < toks.len() && kind_is(toks, i, k)
        invariant
            pos <= i <= toks@.len(),
            run_of(toks.deep_view(), pos as int, k) == run_of(toks.deep_view(), i as int, k),
        decreases toks@.len() - i,
    {
        i += 1;
    }
    i
}

fn find_line_end(toks: &Vec<Spanned<Token>>, pos: usize) -> (e: usize)
    requires
        pos <= toks@.len(),
    ensures
        e == line_end(toks.deep_view(), pos as int),
        pos <= e <= toks@.len(),
{
    let mut i: usize = pos;
    while i < toks.len() && !kind_is(toks, i, TokenKind::Newline)
        invariant
            pos <= i <= toks@.len(),
            line_end(toks.deep_view(), pos as int) == line_end(toks.deep_view(), i as int),
        decreases toks@.len() - i,
    {
        i += 1;
    }
    i
}

fn collect_names(toks: &Vec<Spanned<Token>>, from: usize, to: usize) -> (r: Vec<Spanned<String>>)
    requires
        from <= to <= toks@.len(),
    ensures
        r.deep_view() == names_between(toks.deep_view(), from as int, to as int),
{
    let mut out: Vec<Spanned<String>> = Vec::new();
    let mut i: usize = from;
    assert(out.deep_view() =~= names_between(toks.deep_view(), from as int, from as int));
    while i < to
        invariant
            from <= i <= to <= toks@.len(),
            out.deep_view() == names_between(toks.deep_view(), from as int, i as int),
        decreases to - i,
    {
        let ghost before = out.deep_view();
        let n = take_name(&toks[i]);
        out.push(n);
        assert(out.deep_view() =~= before.push(name_at(toks.deep_view(), i as int)));
        i += 1;
    }
    out
}

fn collect_idents(toks: &Vec<Spanned<Token>>, from: usize, to: usize) -> (r: Vec<Spanned<String>>)
    requires
        from <= to <= toks@.len(),
    ensures
        r.deep_view() == idents_between(toks.deep_view(), from as int, to as int),
{
    let mut out: Vec<Spanned<String>> = Vec::new();
    let mut i: usize = from;
    assert(out.deep_view() =~= idents_between(toks.deep_view(), from as int, from as int));
    while i < to
        invariant
            from <= i <= to <= toks@.len(),
            out.deep_view() == idents_between(toks.deep_view(), from as int, i as int),
        decreases to - i,
    {
        let ghost before = out.deep_view();
        if kind_is(toks, i, TokenKind::Ident) {
            let n = take_name(&toks[i]);
            out.push(n);
            assert(out.deep_view() =~= before.push(name_at(toks.deep_view(), i as int)));
        }
        i += 1;
    }
    out
}

/// A copy of the tokens from `from` up to `to`.
fn copy_tokens(toks: &Vec<Spanned<Token>>, from: usize, to: usize) -> (r: Vec<Spanned<Token>>)
    requires
        from <= to <= toks@.len(),
    ensures
        r.deep_view() == toks.deep_view().subrange(from as int, to as int),
{
    let mut out: Vec<Spanned<Token>> = Vec::new();
    let mut i: usize = from;
    while i < to
        invariant
            from <= i <= to <= toks@.len(),
            out.deep_view() =~= toks.deep_view().subrange(from as int, i as int),
        decreases to - i,
    {
        let ghost before = out.deep_view();
        let t = toks[i].0.clone();
        out.push((t, toks[i].1));
        assert(out.deep_view() =~= before.push(toks.deep_view()[i as int]));
        i += 1;
    }
    out
}

// ---------------------------------------------------------------------
// The grammar
// ---------------------------------------------------------------------
//
//     Program       := Statement* EOF
//     Statement     := GlobalVar | FuncDecl | FuncDef | DbgAnnotation
//     GlobalVar     := GlobalName '=' <tokens up to the line end> LineEnd
//     DbgAnnotation := DebugRef <tokens up to the line end> LineEnd
//     FuncDecl      := 'declare' Signature ('=' HexNum)? LineEnd
//     FuncDef       := 'define' Signature Body LineEnd
//     Signature     := Modifier* Type GlobalName '(' (Arg (',' Arg)*)? ')'
//     Arg           := Type LocalName
//     Body          := '{' Newline+ Instruction* Block* '}'
//     Block         := Ident ':' Newline+ Instruction*
//     Instruction   := (Type LocalName '=')? Ident <tokens up to the line end>
//     LineEnd       := Newline | EOF
//
// Blank lines may stand between statements and between instructions. An
// identifier with a `:` behind it is a label, never a mnemonic. Every
// choice is made on the next one or two tokens, so each function below
// reads its construct without going back.

/// What comes of reading one construct at a position of the token stream:
/// its value and the position behind it, or the position at which it
/// stopped matching and what was expected there.
pub enum Parsed<T> {
    Read { value: T, next: int },
    Stuck { at: int, expected: Expected },
}

/// Where the parser stopped matching, as a position in the token stream
/// (the length of the stream for the end of the input).
#[derive(Clone, Copy, Debug, PartialEq, Eq, Structural)]
pub struct SyntaxError {
    pub at: usize,
    pub expected: Expected,
}

/// `head` in front of the items that `tail` read.
pub open spec fn prepend<T>(head: Seq<T>, tail: Parsed<Seq<T>>) -> Parsed<Seq<T>> {
    match tail {
        Parsed::Read { value, next } => Parsed::Read { value: head + value, next },
        Parsed::Stuck { at, expected } => Parsed::Stuck { at, expected },
    }
}

/// `Arg := Type LocalName`
pub open spec fn parse_arg(toks: Seq<Tok>, pos: int) -> Parsed<FuncArgView> {
    if !is_kind(toks, pos, TokenKind::Type) {
        Parsed::Stuck { at: pos, expected: Expected::Type }
    } else if !is_kind(toks, pos + 1, TokenKind::LocalName) {
        Parsed::Stuck { at: pos + 1, expected: Expected::LocalName }
    } else {
        Parsed::Read {
            value: FuncArgView { type_: name_at(toks, pos), name: name_at(toks, pos + 1) },
            next: pos + 2,
        }
    }
}

/// What follows an argument: `(',' Arg)* ')'`
pub open spec fn parse_more_args(toks: Seq<Tok>, pos: int) -> Parsed<Seq<FuncArgView>>
    decreases toks.len() - pos,
{
    if is_punct_at(toks, pos, ',') {
        match parse_arg(toks, pos + 1) {
            Parsed::Read { value, next } => prepend(seq![value], parse_more_args(toks, next)),
            Parsed::Stuck { at, expected } => Parsed::Stuck { at, expected },
        }
    } else if is_punct_at(toks, pos, ')') {
        Parsed::Read { value: Seq::empty(), next: pos + 1 }
    } else {
        Parsed::Stuck { at: pos, expected: Expected::CloseParen }
    }
}

/// What follows the `(` of a signature: `(Arg (',' Arg)*)? ')'`
pub open spec fn parse_args(toks: Seq<Tok>, pos: int) -> Parsed<Seq<FuncArgView>> {
    if is_punct_at(toks, pos, ')') {
        Parsed::Read { value: Seq::empty(), next: pos + 1 }
    } else {
        match parse_arg(toks, pos) {
            Parsed::Read { value, next } => prepend(seq![value], parse_more_args(toks, next)),
            Parsed::Stuck { at, expected } => Parsed::Stuck { at, expected },
        }
    }
}

/// `Signature := Modifier* Type GlobalName '(' (Arg (',' Arg)*)? ')'`
pub open spec fn parse_signature(toks: Seq<Tok>, pos: int) -> Parsed<FuncSignatureView> {
    let m = run_of(toks, pos, TokenKind::FuncModifier);
    if !is_kind(toks, m, TokenKind::Type) {
        Parsed::Stuck { at: m, expected: Expected::Type }
    } else if !is_kind(toks, m + 1, TokenKind::GlobalName) {
        Parsed::Stuck { at: m + 1, expected: Expected::GlobalName }
    } else if !is_punct_at(toks, m + 2, '(') {
        Parsed::Stuck { at: m + 2, expected: Expected::OpenParen }
    } else {
        match parse_args(toks, m + 3) {
            Parsed::Read { value, next } => Parsed::Read {
                value: FuncSignatureView {
                    modifiers: names_between(toks, pos, m),
                    ret_type: name_at(toks, m),
                    name: name_at(toks, m + 1),
                    args: value,
                },
                next,
            },
            Parsed::Stuck { at, expected } => Parsed::Stuck { at, expected },
        }
    }
}

/// Whether an instruction mnemonic stands at `pos`: an identifier that is
/// no label.
pub open spec fn is_mnemonic_at(toks: Seq<Tok>, pos: int) -> bool {
    is_kind(toks, pos, TokenKind::Ident) && !is_punct_at(toks, pos + 1, ':')
}

/// Whether an instruction starts at `pos`.
pub open spec fn starts_instruction(toks: Seq<Tok>, pos: int) -> bool {
    is_kind(toks, pos, TokenKind::Type) || is_mnemonic_at(toks, pos)
}

/// The instruction whose first token is at `first` and whose mnemonic is at
/// `at`: it runs to the end of the line, and every identifier among its
/// operands is a candidate for a label reference.
pub open spec fn instruction_at(
    toks: Seq<Tok>,
    first: int,
    target: Option<Name>,
    at: int,
) -> Parsed<InstructionView> {
    let end = line_end(toks, at + 1);
    Parsed::Read {
        value: InstructionView {
            assignment_target: target,
            instruction: name_at(toks, at),
            basic_block_refs: idents_between(toks, at + 1, end),
            span: Span { start: toks[first].1.start, end: toks[end - 1].1.end },
        },
        next: end,
    }
}

/// `Instruction := (Type LocalName '=')? Ident <tokens up to the line end>`
pub open spec fn parse_instruction(toks: Seq<Tok>, pos: int) -> Parsed<InstructionView> {
    if is_kind(toks, pos, TokenKind::Type) {
        if !is_kind(toks, pos + 1, TokenKind::LocalName) {
            Parsed::Stuck { at: pos + 1, expected: Expected::LocalName }
        } else if !is_punct_at(toks, pos + 2, '=') {
            Parsed::Stuck { at: pos + 2, expected: Expected::Assign }
        } else if !is_mnemonic_at(toks, pos + 3) {
            Parsed::Stuck { at: pos + 3, expected: Expected::Mnemonic }
        } else {
            instruction_at(toks, pos, Some(name_at(toks, pos + 1)), pos + 3)
        }
    } else if is_mnemonic_at(toks, pos) {
        instruction_at(toks, pos, None, pos)
    } else {
        Parsed::Stuck { at: pos, expected: Expected::Mnemonic }
    }
}

/// An instruction that was read is not empty and ends inside the stream.
pub proof fn lemma_instruction_bounds(toks: Seq<Tok>, pos: int)
    requires
        0 <= pos <= toks.len(),
    ensures
        match parse_instruction(toks, pos) {
            Parsed::Read { value, next } => pos < next <= toks.len(),
            Parsed::Stuck { at, expected } => pos <= at <= toks.len(),
        },
{
    if is_kind(toks, pos, TokenKind::Type) {
        if is_mnemonic_at(toks, pos + 3) {
            lemma_line_end_bounds(toks, pos + 4);
        }
    } else if is_mnemonic_at(toks, pos) {
        lemma_line_end_bounds(toks, pos + 1);
    }
}

/// `Instruction*`, with blank lines before, between and behind them.
pub open spec fn parse_instructions(toks: Seq<Tok>, pos: int) -> Parsed<Seq<InstructionView>>
    decreases toks.len() - pos,
{
    if !(0 <= pos <= toks.len()) {
        Parsed::Read { value: Seq::empty(), next: pos }
    } else {
        let p = run_of(toks, pos, TokenKind::Newline);
        if starts_instruction(toks, p) {
            proof {
                lemma_run_of_bounds(toks, pos, TokenKind::Newline);
                lemma_instruction_bounds(toks, p);
            }
            match parse_instruction(toks, p) {
                Parsed::Read { value, next } => prepend(
                    seq![value],
                    parse_instructions(toks, next),
                ),
                Parsed::Stuck { at, expected } => Parsed::Stuck { at, expected },
            }
        } else {
            Parsed::Read { value: Seq::empty(), next: p }
        }
    }
}

/// Instructions are read forwards, and inside the stream.
pub proof fn lemma_instructions_bounds(toks: Seq<Tok>, pos: int)
    requires
        0 <= pos <= toks.len(),
    ensures
        match parse_instructions(toks, pos) {
            Parsed::Read { value, next } => pos <= next <= toks.len(),
            Parsed::Stuck { at, expected } => pos <= at <= toks.len(),
        },
    decreases toks.len() - pos,
{
    let p = run_of(toks, pos, TokenKind::Newline);
    lemma_run_of_bounds(toks, pos, TokenKind::Newline);
    if starts_instruction(toks, p) {
        lemma_instruction_bounds(toks, p);
        match parse_instruction(toks, p) {
            Parsed::Read { value, next } => {
                lemma_instructions_bounds(toks, next);
            },
            Parsed::Stuck { at, expected } => {},
        }
    }
}

/// Whether a labelled block starts at `pos`.
pub open spec fn starts_block(toks: Seq<Tok>, pos: int) -> bool {
    is_kind(toks, pos, TokenKind::Ident) && is_punct_at(toks, pos + 1, ':')
}

/// The span of a block that starts at `start`: up to the end of its last
/// instruction, or up to `head_end` where it has none.
pub open spec fn block_span(start: usize, head_end: usize, instrs: Seq<InstructionView>) -> Span {
    Span {
        start,
        end: if instrs.len() > 0 {
            instrs.last().span.end
        } else {
            head_end
        },
    }
}

/// The entry block of a body: the instructions behind the opening bracket.
/// Without instructions its span is empty and stands behind the bracket.
pub open spec fn entry_block(open: Span, instrs: Seq<InstructionView>) -> BasicBlockView {
    BasicBlockView {
        label: None,
        instructions: instrs,
        span: block_span(
            if instrs.len() > 0 {
                instrs[0].span.start
            } else {
                open.end
            },
            open.end,
            instrs,
        ),
    }
}

/// `Block := Ident ':' Newline+ Instruction*`, where `starts_block` holds.
/// The label is the identifier, with its own span; the span of the block
/// starts at the label.
pub open spec fn parse_block(toks: Seq<Tok>, pos: int) -> Parsed<BasicBlockView> {
    if !is_kind(toks, pos + 2, TokenKind::Newline) {
        Parsed::Stuck { at: pos + 2, expected: Expected::LineEnd }
    } else {
        match parse_instructions(toks, pos + 3) {
            Parsed::Read { value, next } => Parsed::Read {
                value: BasicBlockView {
                    label: Some(name_at(toks, pos)),
                    instructions: value,
                    span: block_span(toks[pos].1.start, toks[pos + 1].1.end, value),
                },
                next,
            },
            Parsed::Stuck { at, expected } => Parsed::Stuck { at, expected },
        }
    }
}

/// `Block*`
pub open spec fn parse_blocks(toks: Seq<Tok>, pos: int) -> Parsed<Seq<BasicBlockView>>
    decreases toks.len() - pos,
{
    if 0 <= pos && starts_block(toks, pos) {
        proof {
            if is_kind(toks, pos + 2, TokenKind::Newline) {
                lemma_instructions_bounds(toks, pos + 3);
            }
        }
        match parse_block(toks, pos) {
            Parsed::Read { value, next } => prepend(seq![value], parse_blocks(toks, next)),
            Parsed::Stuck { at, expected } => Parsed::Stuck { at, expected },
        }
    } else {
        Parsed::Read { value: Seq::empty(), next: pos }
    }
}

/// Blocks are read forwards, and inside the stream.
pub proof fn lemma_blocks_bounds(toks: Seq<Tok>, pos: int)
    requires
        0 <= pos <= toks.len(),
    ensures
        match parse_blocks(toks, pos) {
            Parsed::Read { value, next } => pos <= next <= toks.len(),
            Parsed::Stuck { at, expected } => pos <= at <= toks.len(),
        },
    decreases toks.len() - pos,
{
    if starts_block(toks, pos) {
        if is_kind(toks, pos + 2, TokenKind::Newline) {
            lemma_instructions_bounds(toks, pos + 3);
            match parse_block(toks, pos) {
                Parsed::Read { value, next } => {
                    lemma_blocks_bounds(toks, next);
                },
                Parsed::Stuck { at, expected } => {},
            }
        }
    }
}

/// The text of the label of a block, if it has one.
pub open spec fn label_text(b: BasicBlockView) -> Option<Seq<char>> {
    match b.label {
        Some(n) => Some(n.0),
        None => None,
    }
}

/// Whether one of the blocks bears the label `text`.
pub open spec fn declares_label(blocks: Seq<BasicBlockView>, text: Seq<char>) -> bool {
    exists|i: int| 0 <= i < blocks.len() && label_text(#[trigger] blocks[i]) == Some(text)
}

/// The test that picks, among names, those that spell a label of `blocks`.
pub open spec fn names_label(blocks: Seq<BasicBlockView>) -> spec_fn(Name) -> bool {
    |n: Name| declares_label(blocks, n.0)
}

/// The instruction with only those operand identifiers kept as block
/// references that name a label of `blocks`.
pub open spec fn resolve_instruction(
    blocks: Seq<BasicBlockView>,
    ins: InstructionView,
) -> InstructionView {
    InstructionView {
        assignment_target: ins.assignment_target,
        instruction: ins.instruction,
        basic_block_refs: ins.basic_block_refs.filter(names_label(blocks)),
        span: ins.span,
    }
}

/// The block with the block references of its instructions resolved.
pub open spec fn resolve_block(blocks: Seq<BasicBlockView>, b: BasicBlockView) -> BasicBlockView {
    BasicBlockView {
        label: b.label,
        instructions: b.instructions.map_values(
            |ins: InstructionView| resolve_instruction(blocks, ins),
        ),
        span: b.span,
    }
}

/// The blocks of one function with their block references resolved: an
/// operand identifier refers to a block where it spells the label of any
/// block of the function, before or behind the instruction.
pub open spec fn resolve_blocks(blocks: Seq<BasicBlockView>) -> Seq<BasicBlockView> {
    blocks.map_values(|b: BasicBlockView| resolve_block(blocks, b))
}

/// `Body := '{' Newline+ Instruction* Block* '}'`
pub open spec fn parse_body(toks: Seq<Tok>, pos: int) -> Parsed<FuncBodyView> {
    if !is_punct_at(toks, pos, '{') {
        Parsed::Stuck { at: pos, expected: Expected::OpenBrace }
    } else if !is_kind(toks, pos + 1, TokenKind::Newline) {
        Parsed::Stuck { at: pos + 1, expected: Expected::LineEnd }
    } else {
        match parse_instructions(toks, pos + 2) {
            Parsed::Read { value: entry, next: p } => match parse_blocks(toks, p) {
                Parsed::Read { value: blocks, next: q } => if !is_punct_at(toks, q, '}') {
                    Parsed::Stuck { at: q, expected: Expected::CloseBrace }
                } else {
                    Parsed::Read {
                        value: FuncBodyView {
                            opening_bracket: toks[pos].1,
                            closing_bracket: toks[q].1,
                            basic_blocks: resolve_blocks(
                                seq![entry_block(toks[pos].1, entry)] + blocks,
                            ),
                        },
                        next: q + 1,
                    }
                },
                Parsed::Stuck { at, expected } => Parsed::Stuck { at, expected },
            },
            Parsed::Stuck { at, expected } => Parsed::Stuck { at, expected },
        }
    }
}

/// The body of a function always starts with its entry block, which has
/// no label; all other blocks have one.
pub proof fn lemma_body_starts_with_entry(toks: Seq<Tok>, pos: int)
    requires
        0 <= pos <= toks.len(),
        parse_body(toks, pos) is Read,
    ensures
        ({
            let blocks = parse_body(toks, pos)->value.basic_blocks;
            &&& blocks.len() >= 1
            &&& blocks[0].label is None
            &&& forall|i: int| 1 <= i < blocks.len() ==> (#[trigger] blocks[i]).label is Some
        }),
{
    lemma_instructions_bounds(toks, pos + 2);
    let p = parse_instructions(toks, pos + 2)->next;
    let entry = parse_instructions(toks, pos + 2)->value;
    lemma_blocks_labelled(toks, p);
    let rest = parse_blocks(toks, p)->value;
    let raw = seq![entry_block(toks[pos].1, entry)] + rest;
    assert forall|i: int| 1 <= i < raw.len() implies (#[trigger] raw[i]).label is Some by {
        assert(raw[i] == rest[i - 1]);
    }
}

/// Every block that `parse_blocks` reads has a label.
proof fn lemma_blocks_labelled(toks: Seq<Tok>, pos: int)
    requires
        0 <= pos <= toks.len(),
    ensures
        match parse_blocks(toks, pos) {
            Parsed::Read { value, next } => forall|i: int|
                0 <= i < value.len() ==> (#[trigger] value[i]).label is Some,
            Parsed::Stuck { at, expected } => true,
        },
    decreases toks.len() - pos,
{
    if starts_block(toks, pos) {
        if is_kind(toks, pos + 2, TokenKind::Newline) {
            lemma_instructions_bounds(toks, pos + 3);
        }
        match parse_block(toks, pos) {
            Parsed::Read { value, next } => {
                lemma_blocks_labelled(toks, next);
                match parse_blocks(toks, next) {
                    Parsed::Read { value: rest, next: end } => {
                        let all = seq![value] + rest;
                        assert forall|i: int| 0 <= i < all.len() implies (
                        #[trigger] all[i]).label is Some by {
                            if i > 0 {
                                assert(all[i] == rest[i - 1]);
                            }
                        }
                    },
                    Parsed::Stuck { at, expected } => {},
                }
            },
            Parsed::Stuck { at, expected } => {},
        }
    }
}

/// The statement `stmt` read up to `pos`, if the line ends there.
pub open spec fn finish_line(toks: Seq<Tok>, pos: int, stmt: StatementView) -> Parsed<
    StatementView,
> {
    if pos >= toks.len() {
        Parsed::Read { value: stmt, next: pos }
    } else if is_kind(toks, pos, TokenKind::Newline) {
        Parsed::Read { value: stmt, next: pos + 1 }
    } else {
        Parsed::Stuck { at: pos, expected: Expected::LineEnd }
    }
}

/// One statement. Its first token decides which of the four it is.
#[verifier::opaque]
pub open spec fn parse_statement(toks: Seq<Tok>, pos: int) -> Parsed<StatementView> {
    if is_kind(toks, pos, TokenKind::GlobalName) {
        if !is_punct_at(toks, pos + 1, '=') {
            Parsed::Stuck { at: pos + 1, expected: Expected::Assign }
        } else {
            let end = line_end(toks, pos + 2);
            Parsed::Read {
                value: StatementView::GlobalVar {
                    name: name_at(toks, pos),
                    def: toks.subrange(pos + 2, end),
                },
                next: after_line_end(toks, end),
            }
        }
    } else if is_kind(toks, pos, TokenKind::DebugRef) {
        let end = line_end(toks, pos + 1);
        Parsed::Read {
            value: StatementView::DbgAnnotation {
                name: name_at(toks, pos),
                def: toks.subrange(pos + 1, end),
            },
            next: after_line_end(toks, end),
        }
    } else if is_kind(toks, pos, TokenKind::Declare) {
        match parse_signature(toks, pos + 1) {
            Parsed::Read { value: signature, next: p } => if is_punct_at(toks, p, '=') {
                if !is_kind(toks, p + 1, TokenKind::HexNum) {
                    Parsed::Stuck { at: p + 1, expected: Expected::HexNum }
                } else {
                    finish_line(
                        toks,
                        p + 2,
                        StatementView::FuncDecl { signature, addr: Some(name_at(toks, p + 1)) },
                    )
                }
            } else {
                finish_line(toks, p, StatementView::FuncDecl { signature, addr: None })
            },
            Parsed::Stuck { at, expected } => Parsed::Stuck { at, expected },
        }
    } else if is_kind(toks, pos, TokenKind::Define) {
        match parse_signature(toks, pos + 1) {
            Parsed::Read { value: signature, next: p } => match parse_body(toks, p) {
                Parsed::Read { value: body, next: q } => finish_line(
                    toks,
                    q,
                    StatementView::FuncDef { define_kw: toks[pos].1, signature, body },
                ),
                Parsed::Stuck { at, expected } => Parsed::Stuck { at, expected },
            },
            Parsed::Stuck { at, expected } => Parsed::Stuck { at, expected },
        }
    } else {
        Parsed::Stuck { at: pos, expected: Expected::Statement }
    }
}

/// An argument list that was read ends behind its start, inside the
/// stream.
pub proof fn lemma_more_args_bounds(toks: Seq<Tok>, pos: int)
    requires
        0 <= pos <= toks.len(),
    ensures
        match parse_more_args(toks, pos) {
            Parsed::Read { value, next } => pos < next <= toks.len(),
            Parsed::Stuck { at, expected } => pos <= at <= toks.len(),
        },
    decreases toks.len() - pos,
{
    if is_punct_at(toks, pos, ',') {
        match parse_arg(toks, pos + 1) {
            Parsed::Read { value, next } => {
                lemma_more_args_bounds(toks, next);
            },
            Parsed::Stuck { at, expected } => {},
        }
    }
}

/// A signature that was read is not empty and ends inside the stream.
pub proof fn lemma_signature_bounds(toks: Seq<Tok>, pos: int)
    requires
        0 <= pos <= toks.len(),
    ensures
        match parse_signature(toks, pos) {
            Parsed::Read { value, next } => pos < next <= toks.len(),
            Parsed::Stuck { at, expected } => pos <= at <= toks.len(),
        },
{
    let m = run_of(toks, pos, TokenKind::FuncModifier);
    lemma_run_of_bounds(toks, pos, TokenKind::FuncModifier);
    if is_kind(toks, m, TokenKind::Type) && is_kind(toks, m + 1, TokenKind::GlobalName)
        && is_punct_at(toks, m + 2, '(') {
        if !is_punct_at(toks, m + 3, ')') {
            match parse_arg(toks, m + 3) {
                Parsed::Read { value, next } => {
                    lemma_more_args_bounds(toks, next);
                },
                Parsed::Stuck { at, expected } => {},
            }
        }
    }
}

/// A body that was read is not empty and ends inside the stream.
pub proof fn lemma_body_bounds(toks: Seq<Tok>, pos: int)
    requires
        0 <= pos <= toks.len(),
    ensures
        match parse_body(toks, pos) {
            Parsed::Read { value, next } => pos < next <= toks.len(),
            Parsed::Stuck { at, expected } => pos <= at <= toks.len(),
        },
{
    if is_punct_at(toks, pos, '{') && is_kind(toks, pos + 1, TokenKind::Newline) {
        lemma_instructions_bounds(toks, pos + 2);
        match parse_instructions(toks, pos + 2) {
            Parsed::Read { value: entry, next: p } => {
                lemma_blocks_bounds(toks, p);
            },
            Parsed::Stuck { at, expected } => {},
        }
    }
}

/// A statement that was read is not empty and ends inside the stream; one
/// that was not stopped inside the stream or at its end.
pub proof fn lemma_statement_bounds(toks: Seq<Tok>, pos: int)
    requires
        0 <= pos <= toks.len(),
    ensures
        match parse_statement(toks, pos) {
            Parsed::Read { value, next } => pos < next <= toks.len(),
            Parsed::Stuck { at, expected } => pos <= at <= toks.len(),
        },
{
    reveal(parse_statement);
    if is_kind(toks, pos, TokenKind::GlobalName) {
        if is_punct_at(toks, pos + 1, '=') {
            lemma_line_end_bounds(toks, pos + 2);
        }
    } else if is_kind(toks, pos, TokenKind::DebugRef) {
        lemma_line_end_bounds(toks, pos + 1);
    } else if is_kind(toks, pos, TokenKind::Declare) {
        lemma_signature_bounds(toks, pos + 1);
    } else if is_kind(toks, pos, TokenKind::Define) {
        lemma_signature_bounds(toks, pos + 1);
        match parse_signature(toks, pos + 1) {
            Parsed::Read { value: signature, next: p } => {
                lemma_body_bounds(toks, p);
            },
            Parsed::Stuck { at, expected } => {},
        }
    }
}

// ---------------------------------------------------------------------
// The program, and recovery
// ---------------------------------------------------------------------

/// Whether a statement can be read at `pos`, after blank lines.
pub open spec fn statement_starts(toks: Seq<Tok>, pos: int) -> bool {
    parse_statement(toks, run_of(toks, pos, TokenKind::Newline)) is Read
}

/// Where parsing resumes after a statement failed: the first position from
/// `pos` on at which a statement can be read, or the end of the input.
pub open spec fn resync(toks: Seq<Tok>, pos: int) -> int
    decreases toks.len() - pos,
{
    if 0 <= pos < toks.len() && !statement_starts(toks, pos) {
        resync(toks, pos + 1)
    } else {
        pos
    }
}

/// Parsing resumes at or behind the position it is sought from, inside
/// the stream or at its end.
pub proof fn lemma_resync_bounds(toks: Seq<Tok>, pos: int)
    requires
        0 <= pos <= toks.len(),
    ensures
        pos <= resync(toks, pos) <= toks.len(),
    decreases toks.len() - pos,
{
    if pos < toks.len() && !statement_starts(toks, pos) {
        lemma_resync_bounds(toks, pos + 1);
    }
}

/// The diagnostic for a statement that stopped matching at token `at`. At
/// the end of the input it reads "unclosed delimiter" where the closing
/// one was expected, and has the empty span at `eof`.
pub open spec fn diagnostic_for(
    toks: Seq<Tok>,
    eof: usize,
    at: int,
    expected: Expected,
) -> Diagnostic {
    if 0 <= at < toks.len() {
        Diagnostic { span: toks[at].1, kind: DiagnosticKind::UnexpectedToken(expected) }
    } else {
        Diagnostic {
            span: Span { start: eof, end: eof },
            kind: if expected == Expected::CloseBrace {
                DiagnosticKind::UnclosedDelimiter('{')
            } else if expected == Expected::CloseParen {
                DiagnosticKind::UnclosedDelimiter('(')
            } else {
                DiagnosticKind::UnexpectedEnd(expected)
            },
        }
    }
}

/// What the parser makes of a token stream.
pub struct Program {
    pub stmts: Seq<StatementView>,
    pub errors: Seq<Diagnostic>,
}

/// The statements and the diagnostics of the token stream from `pos` on;
/// `eof` is the byte offset of the end of the source.
///
/// Blank lines are skipped. A statement that can be read is read. One that
/// cannot gives one diagnostic, and parsing resumes at the first later
/// position at which a statement can be read: what stands before and
/// behind the malformed text is kept.
pub open spec fn parse_program_from(toks: Seq<Tok>, eof: usize, pos: int) -> Program
    decreases toks.len() - pos,
{
    if !(0 <= pos <= toks.len()) {
        Program { stmts: Seq::empty(), errors: Seq::empty() }
    } else {
        let p = run_of(toks, pos, TokenKind::Newline);
        proof {
            lemma_run_of_bounds(toks, pos, TokenKind::Newline);
            lemma_statement_bounds(toks, p);
        }
        if p >= toks.len() {
            Program { stmts: Seq::empty(), errors: Seq::empty() }
        } else {
            match parse_statement(toks, p) {
                Parsed::Read { value, next } => {
                    let rest = parse_program_from(toks, eof, next);
                    Program { stmts: seq![value] + rest.stmts, errors: rest.errors }
                },
                Parsed::Stuck { at, expected } => {
                    proof {
                        lemma_resync_bounds(toks, p + 1);
                    }
                    let rest = parse_program_from(toks, eof, resync(toks, p + 1));
                    Program {
                        stmts: rest.stmts,
                        errors: seq![diagnostic_for(toks, eof, at, expected)] + rest.errors,
                    }
                },
            }
        }
    }
}

/// The statements and the diagnostics of a token stream.
pub open spec fn parse_program(toks: Seq<Tok>, eof: usize) -> Program {
    parse_program_from(toks, eof, 0)
}

// ---------------------------------------------------------------------
// Reading the constructs
// ---------------------------------------------------------------------

/// The model of what a reading function returned.
pub open spec fn outcome<T: DeepView>(r: Result<(T, usize), SyntaxError>) -> Parsed<T::V> {
    match r {
        Ok((value, next)) => Parsed::Read { value: value.deep_view(), next: next as int },
        Err(e) => Parsed::Stuck { at: e.at as int, expected: e.expected },
    }
}

proof fn lemma_prepend_push<T>(head: Seq<T>, item: T, tail: Parsed<Seq<T>>)
    ensures
        prepend(head, prepend(seq![item], tail)) == prepend(head.push(item), tail),
{
    match tail {
        Parsed::Read { value, next } => {
            assert(head + (seq![item] + value) =~= head.push(item) + value);
        },
        Parsed::Stuck { at, expected } => {},
    }
}

proof fn lemma_prepend_nothing<T>(head: Seq<T>, next: int)
    ensures
        prepend(head, Parsed::Read { value: Seq::<T>::empty(), next }) == (Parsed::Read {
            value: head,
            next,
        }),
{
    assert(head + Seq::<T>::empty() =~= head);
}

fn stuck<T>(at: usize, expected: Expected) -> (r: Result<T, SyntaxError>)
    ensures
        r == Err::<T, SyntaxError>(SyntaxError { at, expected }),
{
    Err(SyntaxError { at, expected })
}

fn read_arg(toks: &Vec<Spanned<Token>>, pos: usize) -> (r: Result<(FuncArg, usize), SyntaxError>)
    requires
        pos <= toks@.len(),
    ensures
        outcome(r) == parse_arg(toks.deep_view(), pos as int),
        r is Ok ==> r->Ok_0.1 == pos + 2 && pos + 2 <= toks@.len(),
        r is Err ==> r->Err_0.at <= toks@.len(),
{
    if !kind_is(toks, pos, TokenKind::Type) {
        return stuck(pos, Expected::Type);
    }
    if !kind_is(toks, pos + 1, TokenKind::LocalName) {
        return stuck(pos + 1, Expected::LocalName);
    }
    let arg = FuncArg { type_: take_name(&toks[pos]), name: take_name(&toks[pos + 1]) };
    Ok((arg, pos + 2))
}

fn read_args(toks: &Vec<Spanned<Token>>, pos: usize) -> (r: Result<
    (Vec<FuncArg>, usize),
    SyntaxError,
>)
    requires
        pos <= toks@.len(),
    ensures
        outcome(r) == parse_args(toks.deep_view(), pos as int),
        r is Ok ==> pos < r->Ok_0.1 <= toks@.len(),
        r is Err ==> r->Err_0.at <= toks@.len(),
{
    let ghost dv = toks.deep_view();
    let mut args: Vec<FuncArg> = Vec::new();
    if punct_is(toks, pos, ')') {
        assert(args.deep_view() =~= Seq::<FuncArgView>::empty());
        return Ok((args, pos + 1));
    }
    let mut cur: usize = pos;
    match read_arg(toks, pos) {
        Ok((a, n)) => {
            proof {
                assert(Seq::<FuncArgView>::empty().push(a.deep_view()) =~= seq![a.deep_view()]);
            }
            args.push(a);
            assert(args.deep_view() =~= seq![a.deep_view()]);
            cur = n;
        },
        Err(e) => {
            return Err(e);
        },
    }
    loop
        invariant
            dv == toks.deep_view(),
            pos < cur <= toks@.len(),
            prepend(args.deep_view(), parse_more_args(dv, cur as int)) == parse_args(
                dv,
                pos as int,
            ),
        decreases toks@.len() - cur,
    {
        if punct_is(toks, cur, ',') {
            match read_arg(toks, cur + 1) {
                Ok((a, n)) => {
                    let ghost before = args.deep_view();
                    proof {
                        lemma_prepend_push(before, a.deep_view(), parse_more_args(dv, n as int));
                    }
                    args.push(a);
                    assert(args.deep_view() =~= before.push(a.deep_view()));
                    cur = n;
                },
                Err(e) => {
                    return Err(e);
                },
            }
        } else if punct_is(toks, cur, ')') {
            proof {
                lemma_prepend_nothing(args.deep_view(), cur + 1);
            }
            return Ok((args, cur + 1));
        } else {
            return stuck(cur, Expected::CloseParen);
        }
    }
}

fn read_signature(toks: &Vec<Spanned<Token>>, pos: usize) -> (r: Result<
    (FuncSignature, usize),
    SyntaxError,
>)
    requires
        pos <= toks@.len(),
    ensures
        outcome(r) == parse_signature(toks.deep_view(), pos as int),
        r is Ok ==> pos < r->Ok_0.1 <= toks@.len(),
        r is Err ==> r->Err_0.at <= toks@.len(),
{
    let m = skip_run(toks, pos, TokenKind::FuncModifier);
    if !kind_is(toks, m, TokenKind::Type) {
        return stuck(m, Expected::Type);
    }
    if !kind_is(toks, m + 1, TokenKind::GlobalName) {
        return stuck(m + 1, Expected::GlobalName);
    }
    if !punct_is(toks, m + 2, '(') {
        return stuck(m + 2, Expected::OpenParen);
    }
    match read_args(toks, m + 3) {
        Ok((args, next)) => {
            let signature = FuncSignature {
                modifiers: collect_names(toks, pos, m),
                ret_type: take_name(&toks[m]),
                name: take_name(&toks[m + 1]),
                args,
            };
            Ok((signature, next))
        },
        Err(e) => Err(e),
    }
}

fn mnemonic_is(toks: &Vec<Spanned<Token>>, pos: usize) -> (r: bool)
    ensures
        r == is_mnemonic_at(toks.deep_view(), pos as int),
        r ==> pos < toks@.len(),
{
    kind_is(toks, pos, TokenKind::Ident) && !punct_is(toks, pos + 1, ':')
}

fn instruction_starts(toks: &Vec<Spanned<Token>>, pos: usize) -> (r: bool)
    ensures
        r == starts_instruction(toks.deep_view(), pos as int),
        r ==> pos < toks@.len(),
{
    kind_is(toks, pos, TokenKind::Type) || mnemonic_is(toks, pos)
}

fn read_instruction_at(
    toks: &Vec<Spanned<Token>>,
    first: usize,
    target: Option<Spanned<String>>,
    at: usize,
) -> (r: Result<(Instruction, usize), SyntaxError>)
    requires
        first <= at < toks@.len(),
    ensures
        outcome(r) == instruction_at(
            toks.deep_view(),
            first as int,
            target.deep_view(),
            at as int,
        ),
        r is Ok,
        at < r->Ok_0.1 <= toks@.len(),
{
    let len = toks.len();
    let end = find_line_end(toks, at + 1);
    let ins = Instruction {
        assignment_target: target,
        instruction: take_name(&toks[at]),
        basic_block_refs: collect_idents(toks, at + 1, end),
        span: Span { start: toks[first].1.start, end: toks[end - 1].1.end },
    };
    Ok((ins, end))
}

fn read_instruction(toks: &Vec<Spanned<Token>>, pos: usize) -> (r: Result<
    (Instruction, usize),
    SyntaxError,
>)
    requires
        pos <= toks@.len(),
    ensures
        outcome(r) == parse_instruction(toks.deep_view(), pos as int),
        r is Ok ==> pos < r->Ok_0.1 <= toks@.len(),
        r is Err ==> r->Err_0.at <= toks@.len(),
{
    if kind_is(toks, pos, TokenKind::Type) {
        if !kind_is(toks, pos + 1, TokenKind::LocalName) {
            return stuck(pos + 1, Expected::LocalName);
        }
        if !punct_is(toks, pos + 2, '=') {
            return stuck(pos + 2, Expected::Assign);
        }
        if !mnemonic_is(toks, pos + 3) {
            return stuck(pos + 3, Expected::Mnemonic);
        }
        let target = take_name(&toks[pos + 1]);
        read_instruction_at(toks, pos, Some(target), pos + 3)
    } else if mnemonic_is(toks, pos) {
        read_instruction_at(toks, pos, None, pos)
    } else {
        stuck(pos, Expected::Mnemonic)
    }
}

fn read_instructions(toks: &Vec<Spanned<Token>>, pos: usize) -> (r: Result<
    (Vec<Instruction>, usize),
    SyntaxError,
>)
    requires
        pos <= toks@.len(),
    ensures
        outcome(r) == parse_instructions(toks.deep_view(), pos as int),
        r is Ok ==> pos <= r->Ok_0.1 <= toks@.len(),
        r is Err ==> r->Err_0.at <= toks@.len(),
{
    let ghost dv = toks.deep_view();
    let mut out: Vec<Instruction> = Vec::new();
    let mut cur: usize = pos;
    assert(out.deep_view() =~= Seq::<InstructionView>::empty());
    proof {
        match parse_instructions(dv, pos as int) {
            Parsed::Read { value, next } => {
                assert(Seq::<InstructionView>::empty() + value =~= value);
            },
            Parsed::Stuck { at, expected } => {},
        }
    }
    loop
        invariant
            dv == toks.deep_view(),
            pos <= cur <= toks@.len(),
            prepend(out.deep_view(), parse_instructions(dv, cur as int)) == parse_instructions(
                dv,
                pos as int,
            ),
        decreases toks@.len() - cur,
    {
        let p = skip_run(toks, cur, TokenKind::Newline);
        if instruction_starts(toks, p) {
            match read_instruction(toks, p) {
                Ok((ins, n)) => {
                    let ghost before = out.deep_view();
                    proof {
                        lemma_prepend_push(
                            before,
                            ins.deep_view(),
                            parse_instructions(dv, n as int),
                        );
                    }
                    out.push(ins);
                    assert(out.deep_view() =~= before.push(ins.deep_view()));
                    cur = n;
                },
                Err(e) => {
                    return Err(e);
                },
            }
        } else {
            proof {
                lemma_prepend_nothing(out.deep_view(), p as int);
            }
            return Ok((out, p));
        }
    }
}

// ---------------------------------------------------------------------
// Copies
// ---------------------------------------------------------------------

/// A copy of a spanned name.
pub fn copy_name(n: &Spanned<String>) -> (r: Spanned<String>)
    ensures
        r.deep_view() == n.deep_view(),
{
    (n.0.clone(), n.1)
}

fn copy_opt_name(n: &Option<Spanned<String>>) -> (r: Option<Spanned<String>>)
    ensures
        r.deep_view() == n.deep_view(),
{
    match n {
        Some(x) => Some(copy_name(x)),
        None => None,
    }
}

fn copy_names(v: &Vec<Spanned<String>>) -> (r: Vec<Spanned<String>>)
    ensures
        r.deep_view() == v.deep_view(),
{
    let mut out: Vec<Spanned<String>> = Vec::new();
    let mut i: usize = 0;
    while i < v.len()
        invariant
            i <= v@.len(),
            out.deep_view() =~= v.deep_view().subrange(0, i as int),
        decreases v@.len() - i,
    {
        let ghost before = out.deep_view();
        out.push(copy_name(&v[i]));
        assert(out.deep_view() =~= before.push(v.deep_view()[i as int]));
        i += 1;
    }
    assert(v.deep_view().subrange(0, v@.len() as int) =~= v.deep_view());
    out
}

impl Clone for Instruction {
    fn clone(&self) -> (r: Instruction)
        ensures
            r.deep_view() == self.deep_view(),
    {
        Instruction {
            assignment_target: copy_opt_name(&self.assignment_target),
            instruction: copy_name(&self.instruction),
            basic_block_refs: copy_names(&self.basic_block_refs),
            span: self.span,
        }
    }
}

impl Clone for BasicBlock {
    fn clone(&self) -> (r: BasicBlock)
        ensures
            r.deep_view() == self.deep_view(),
    {
        let mut instructions: Vec<Instruction> = Vec::new();
        let mut i: usize = 0;
        while i < self.instructions.len()
            invariant
                i <= self.instructions@.len(),
                instructions.deep_view() =~= self.instructions.deep_view().subrange(0, i as int),
            decreases self.instructions@.len() - i,
        {
            let ghost before = instructions.deep_view();
            instructions.push(self.instructions[i].clone());
            assert(instructions.deep_view() =~= before.push(
                self.instructions.deep_view()[i as int],
            ));
            i += 1;
        }
        assert(self.instructions.deep_view().subrange(0, self.instructions@.len() as int)
            =~= self.instructions.deep_view());
        BasicBlock { label: copy_opt_name(&self.label), instructions, span: self.span }
    }
}

impl Clone for FuncArg {
    fn clone(&self) -> (r: FuncArg)
        ensures
            r.deep_view() == self.deep_view(),
    {
        FuncArg { type_: copy_name(&self.type_), name: copy_name(&self.name) }
    }
}

impl Clone for FuncSignature {
    fn clone(&self) -> (r: FuncSignature)
        ensures
            r.deep_view() == self.deep_view(),
    {
        let mut args: Vec<FuncArg> = Vec::new();
        let mut i: usize = 0;
        while i < self.args.len()
            invariant
                i <= self.args@.len(),
                args.deep_view() =~= self.args.deep_view().subrange(0, i as int),
            decreases self.args@.len() - i,
        {
            let ghost before = args.deep_view();
            args.push(self.args[i].clone());
            assert(args.deep_view() =~= before.push(self.args.deep_view()[i as int]));
            i += 1;
        }
        assert(self.args.deep_view().subrange(0, self.args@.len() as int)
            =~= self.args.deep_view());
        FuncSignature {
            modifiers: copy_names(&self.modifiers),
            ret_type: copy_name(&self.ret_type),
            name: copy_name(&self.name),
            args,
        }
    }
}

impl Clone for FuncBody {
    fn clone(&self) -> (r: FuncBody)
        ensures
            r.deep_view() == self.deep_view(),
    {
        FuncBody {
            opening_bracket: self.opening_bracket,
            closing_bracket: self.closing_bracket,
            basic_blocks: copy_blocks(&self.basic_blocks),
        }
    }
}

impl Clone for Statement {
    fn clone(&self) -> (r: Statement)
        ensures
            r.deep_view() == self.deep_view(),
    {
        match self {
            Statement::GlobalVar { name, def } => {
                assert(def.deep_view().subrange(0, def@.len() as int) =~= def.deep_view());
                Statement::GlobalVar { name: copy_name(name), def: copy_tokens(def, 0, def.len()) }
            },
            Statement::FuncDecl { signature, addr } => Statement::FuncDecl {
                signature: signature.clone(),
                addr: copy_opt_name(addr),
            },
            Statement::FuncDef { define_kw, signature, body } => Statement::FuncDef {
                define_kw: *define_kw,
                signature: signature.clone(),
                body: body.clone(),
            },
            Statement::DbgAnnotation { name, def } => {
                assert(def.deep_view().subrange(0, def@.len() as int) =~= def.deep_view());
                Statement::DbgAnnotation {
                    name: copy_name(name),
                    def: copy_tokens(def, 0, def.len()),
                }
            },
        }
    }
}

/// A copy of a list of basic blocks.
pub fn copy_blocks(v: &Vec<BasicBlock>) -> (r: Vec<BasicBlock>)
    ensures
        r.deep_view() == v.deep_view(),
{
    let mut out: Vec<BasicBlock> = Vec::new();
    let mut i: usize = 0;
    while i < v.len()
        invariant
            i <= v@.len(),
            out.deep_view() =~= v.deep_view().subrange(0, i as int),
        decreases v@.len() - i,
    {
        let ghost before = out.deep_view();
        out.push(v[i].clone());
        assert(out.deep_view() =~= before.push(v.deep_view()[i as int]));
        i += 1;
    }
    assert(v.deep_view().subrange(0, v@.len() as int) =~= v.deep_view());
    out
}

// ---------------------------------------------------------------------
// Block references
// ---------------------------------------------------------------------

fn has_label(blocks: &Vec<BasicBlock>, text: &String) -> (r: bool)
    ensures
        r == declares_label(blocks.deep_view(), text@),
{
    let mut i: usize = 0;
    while i < blocks.len()
        invariant
            i <= blocks@.len(),
            forall|j: int|
                0 <= j < i ==> label_text(#[trigger] blocks.deep_view()[j]) != Some(text@),
        decreases blocks@.len() - i,
    {
        match &blocks[i].label {
            Some(l) => {
                if l.0 == *text {
                    assert(label_text(blocks.deep_view()[i as int]) == Some(text@));
                    return true;
                }
            },
            None => {},
        }
        i += 1;
    }
    false
}

fn resolve_refs(blocks: &Vec<BasicBlock>, refs: &Vec<Spanned<String>>) -> (r: Vec<Spanned<String>>)
    ensures
        r.deep_view() == refs.deep_view().filter(names_label(blocks.deep_view())),
{
    let ghost keep = names_label(blocks.deep_view());
    let mut out: Vec<Spanned<String>> = Vec::new();
    let mut i: usize = 0;
    proof {
        reveal(Seq::filter);
        assert(refs.deep_view().subrange(0, 0) =~= Seq::<Name>::empty());
        assert(out.deep_view() =~= Seq::<Name>::empty());
    }
    while i < refs.len()
        invariant
            i <= refs@.len(),
            keep == names_label(blocks.deep_view()),
            out.deep_view() == refs.deep_view().subrange(0, i as int).filter(keep),
        decreases refs@.len() - i,
    {
        let ghost before = out.deep_view();
        let ghost item = refs.deep_view()[i as int];
        proof {
            assert(refs.deep_view().subrange(0, i + 1) =~= refs.deep_view().subrange(
                0,
                i as int,
            ).push(item));
            refs.deep_view().subrange(0, i as int).lemma_filter_push(item, keep);
        }
        if has_label(blocks, &refs[i].0) {
            out.push(copy_name(&refs[i]));
            assert(out.deep_view() =~= before.push(item));
        }
        i += 1;
    }
    assert(refs.deep_view().subrange(0, refs@.len() as int) =~= refs.deep_view());
    out
}

fn resolve_one(blocks: &Vec<BasicBlock>, ins: &Instruction) -> (r: Instruction)
    ensures
        r.deep_view() == resolve_instruction(blocks.deep_view(), ins.deep_view()),
{
    Instruction {
        assignment_target: copy_opt_name(&ins.assignment_target),
        instruction: copy_name(&ins.instruction),
        basic_block_refs: resolve_refs(blocks, &ins.basic_block_refs),
        span: ins.span,
    }
}

fn resolve_in_block(blocks: &Vec<BasicBlock>, b: &BasicBlock) -> (r: BasicBlock)
    ensures
        r.deep_view() == resolve_block(blocks.deep_view(), b.deep_view()),
{
    let mut instructions: Vec<Instruction> = Vec::new();
    let mut i: usize = 0;
    while i < b.instructions.len()
        invariant
            i <= b.instructions@.len(),
            instructions@.len() == i,
            forall|j: int|
                0 <= j < i ==> (#[trigger] instructions@[j]).deep_view() == resolve_instruction(
                    blocks.deep_view(),
                    b.instructions@[j].deep_view(),
                ),
        decreases b.instructions@.len() - i,
    {
        instructions.push(resolve_one(blocks, &b.instructions[i]));
        i += 1;
    }
    assert(instructions.deep_view() =~= resolve_block(
        blocks.deep_view(),
        b.deep_view(),
    ).instructions);
    BasicBlock { label: copy_opt_name(&b.label), instructions, span: b.span }
}

fn resolve_all(blocks: &Vec<BasicBlock>) -> (r: Vec<BasicBlock>)
    ensures
        r.deep_view() == resolve_blocks(blocks.deep_view()),
{
    let mut out: Vec<BasicBlock> = Vec::new();
    let mut i: usize = 0;
    while i < blocks.len()
        invariant
            i <= blocks@.len(),
            out@.len() == i,
            forall|j: int|
                0 <= j < i ==> (#[trigger] out@[j]).deep_view() == resolve_block(
                    blocks.deep_view(),
                    blocks@[j].deep_view(),
                ),
        decreases blocks@.len() - i,
    {
        out.push(resolve_in_block(blocks, &blocks[i]));
        i += 1;
    }
    assert(out.deep_view() =~= resolve_blocks(blocks.deep_view()));
    out
}

// ---------------------------------------------------------------------
// Blocks, bodies, statements
// ---------------------------------------------------------------------

fn block_starts(toks: &Vec<Spanned<Token>>, pos: usize) -> (r: bool)
    ensures
        r == starts_block(toks.deep_view(), pos as int),
        r ==> pos + 1 < toks@.len(),
{
    kind_is(toks, pos, TokenKind::Ident) && punct_is(toks, pos + 1, ':')
}

fn last_end(instrs: &Vec<Instruction>, head_end: usize) -> (r: usize)
    ensures
        r == block_span(0, head_end, instrs.deep_view()).end,
{
    if instrs.len() > 0 {
        instrs[instrs.len() - 1].span.end
    } else {
        head_end
    }
}

fn read_block(toks: &Vec<Spanned<Token>>, pos: usize) -> (r: Result<
    (BasicBlock, usize),
    SyntaxError,
>)
    requires
        starts_block(toks.deep_view(), pos as int),
        pos + 1 < toks@.len(),
    ensures
        outcome(r) == parse_block(toks.deep_view(), pos as int),
        r is Ok ==> pos < r->Ok_0.1 <= toks@.len(),
        r is Err ==> r->Err_0.at <= toks@.len(),
{
    let len = toks.len();
    if !kind_is(toks, pos + 2, TokenKind::Newline) {
        return stuck(pos + 2, Expected::LineEnd);
    }
    match read_instructions(toks, pos + 3) {
        Ok((instructions, next)) => {
            let end = last_end(&instructions, toks[pos + 1].1.end);
            let block = BasicBlock {
                label: Some(take_name(&toks[pos])),
                instructions,
                span: Span { start: toks[pos].1.start, end },
            };
            Ok((block, next))
        },
        Err(e) => Err(e),
    }
}

fn read_blocks(toks: &Vec<Spanned<Token>>, pos: usize) -> (r: Result<
    (Vec<BasicBlock>, usize),
    SyntaxError,
>)
    requires
        pos <= toks@.len(),
    ensures
        outcome(r) == parse_blocks(toks.deep_view(), pos as int),
        r is Ok ==> pos <= r->Ok_0.1 <= toks@.len(),
        r is Err ==> r->Err_0.at <= toks@.len(),
{
    let ghost dv = toks.deep_view();
    let mut out: Vec<BasicBlock> = Vec::new();
    let mut cur: usize = pos;
    assert(out.deep_view() =~= Seq::<BasicBlockView>::empty());
    proof {
        match parse_blocks(dv, pos as int) {
            Parsed::Read { value, next } => {
                assert(Seq::<BasicBlockView>::empty() + value =~= value);
            },
            Parsed::Stuck { at, expected } => {},
        }
    }
    loop
        invariant
            dv == toks.deep_view(),
            pos <= cur <= toks@.len(),
            prepend(out.deep_view(), parse_blocks(dv, cur as int)) == parse_blocks(dv, pos as int),
        decreases toks@.len() - cur,
    {
        if block_starts(toks, cur) {
            match read_block(toks, cur) {
                Ok((block, n)) => {
                    let ghost before = out.deep_view();
                    proof {
                        lemma_prepend_push(before, block.deep_view(), parse_blocks(dv, n as int));
                    }
                    out.push(block);
                    assert(out.deep_view() =~= before.push(block.deep_view()));
                    cur = n;
                },
                Err(e) => {
                    return Err(e);
                },
            }
        } else {
            proof {
                lemma_prepend_nothing(out.deep_view(), cur as int);
            }
            return Ok((out, cur));
        }
    }
}

fn make_entry_block(open: Span, instructions: Vec<Instruction>) -> (r: BasicBlock)
    ensures
        r.deep_view() == entry_block(open, instructions.deep_view()),
{
    let start = if instructions.len() > 0 {
        instructions[0].span.start
    } else {
        open.end
    };
    let end = last_end(&instructions, open.end);
    BasicBlock { label: None, instructions, span: Span { start, end } }
}

fn read_body(toks: &Vec<Spanned<Token>>, pos: usize) -> (r: Result<(FuncBody, usize), SyntaxError>)
    requires
        pos <= toks@.len(),
    ensures
        outcome(r) == parse_body(toks.deep_view(), pos as int),
        r is Ok ==> pos < r->Ok_0.1 <= toks@.len(),
        r is Err ==> r->Err_0.at <= toks@.len(),
{
    if !punct_is(toks, pos, '{') {
        return stuck(pos, Expected::OpenBrace);
    }
    if !kind_is(toks, pos + 1, TokenKind::Newline) {
        return stuck(pos + 1, Expected::LineEnd);
    }
    match read_instructions(toks, pos + 2) {
        Ok((entry, p)) => match read_blocks(toks, p) {
            Ok((mut blocks, q)) => {
                if !punct_is(toks, q, '}') {
                    return stuck(q, Expected::CloseBrace);
                }
                let open = toks[pos].1;
                let first = make_entry_block(open, entry);
                let ghost first_view = first.deep_view();
                let ghost rest_view = blocks.deep_view();
                let mut raw: Vec<BasicBlock> = Vec::new();
                raw.push(first);
                raw.append(&mut blocks);
                assert(raw.deep_view() =~= seq![first_view] + rest_view);
                let body = FuncBody {
                    opening_bracket: open,
                    closing_bracket: toks[q].1,
                    basic_blocks: resolve_all(&raw),
                };
                Ok((body, q + 1))
            },
            Err(e) => Err(e),
        },
        Err(e) => Err(e),
    }
}

fn read_line_end(toks: &Vec<Spanned<Token>>, pos: usize, stmt: Statement) -> (r: Result<
    (Statement, usize),
    SyntaxError,
>)
    requires
        pos <= toks@.len(),
    ensures
        outcome(r) == finish_line(toks.deep_view(), pos as int, stmt.deep_view()),
        r is Ok ==> pos <= r->Ok_0.1 <= toks@.len() && (pos < toks@.len() ==> pos < r->Ok_0.1),
        r is Err ==> r->Err_0.at <= toks@.len(),
{
    if pos >= toks.len() {
        Ok((stmt, pos))
    } else if kind_is(toks, pos, TokenKind::Newline) {
        Ok((stmt, pos + 1))
    } else {
        stuck(pos, Expected::LineEnd)
    }
}

fn read_statement(toks: &Vec<Spanned<Token>>, pos: usize) -> (r: Result<
    (Statement, usize),
    SyntaxError,
>)
    requires
        pos <= toks@.len(),
    ensures
        outcome(r) == parse_statement(toks.deep_view(), pos as int),
        r is Ok ==> pos < r->Ok_0.1 <= toks@.len(),
        r is Err ==> r->Err_0.at <= toks@.len(),
{
    reveal(parse_statement);
    if kind_is(toks, pos, TokenKind::GlobalName) {
        if !punct_is(toks, pos + 1, '=') {
            return stuck(pos + 1, Expected::Assign);
        }
        let end = find_line_end(toks, pos + 2);
        let stmt = Statement::GlobalVar {
            name: take_name(&toks[pos]),
            def: copy_tokens(toks, pos + 2, end),
        };
        let next = if end < toks.len() {
            end + 1
        } else {
            end
        };
        Ok((stmt, next))
    } else if kind_is(toks, pos, TokenKind::DebugRef) {
        let end = find_line_end(toks, pos + 1);
        let stmt = Statement::DbgAnnotation {
            name: take_name(&toks[pos]),
            def: copy_tokens(toks, pos + 1, end),
        };
        let next = if end < toks.len() {
            end + 1
        } else {
            end
        };
        Ok((stmt, next))
    } else if kind_is(toks, pos, TokenKind::Declare) {
        match read_signature(toks, pos + 1) {
            Ok((signature, p)) => {
                if punct_is(toks, p, '=') {
                    if !kind_is(toks, p + 1, TokenKind::HexNum) {
                        return stuck(p + 1, Expected::HexNum);
                    }
                    let addr = Some(take_name(&toks[p + 1]));
                    read_line_end(toks, p + 2, Statement::FuncDecl { signature, addr })
                } else {
                    read_line_end(toks, p, Statement::FuncDecl { signature, addr: None })
                }
            },
            Err(e) => Err(e),
        }
    } else if kind_is(toks, pos, TokenKind::Define) {
        match read_signature(toks, pos + 1) {
            Ok((signature, p)) => match read_body(toks, p) {
                Ok((body, q)) => read_line_end(
                    toks,
                    q,
                    Statement::FuncDef { define_kw: toks[pos].1, signature, body },
                ),
                Err(e) => Err(e),
            },
            Err(e) => Err(e),
        }
    } else {
        stuck(pos, Expected::Statement)
    }
}

// ---------------------------------------------------------------------
// The program
// ---------------------------------------------------------------------

fn diagnose(toks: &Vec<Spanned<Token>>, eof: usize, e: SyntaxError) -> (d: Diagnostic)
    ensures
        d == diagnostic_for(toks.deep_view(), eof, e.at as int, e.expected),
{
    if e.at < toks.len() {
        Diagnostic { span: toks[e.at].1, kind: DiagnosticKind::UnexpectedToken(e.expected) }
    } else {
        let kind = match e.expected {
            Expected::CloseBrace => DiagnosticKind::UnclosedDelimiter('{'),
            Expected::CloseParen => DiagnosticKind::UnclosedDelimiter('('),
            other => DiagnosticKind::UnexpectedEnd(other),
        };
        Diagnostic { span: Span { start: eof, end: eof }, kind }
    }
}

fn find_resync(toks: &Vec<Spanned<Token>>, pos: usize) -> (r: usize)
    requires
        pos <= toks@.len(),
    ensures
        r == resync(toks.deep_view(), pos as int),
        pos <= r <= toks@.len(),
{
    let mut i: usize = pos;
    while i < toks.len()
        invariant
            pos <= i <= toks@.len(),
            resync(toks.deep_view(), pos as int) == resync(toks.deep_view(), i as int),
        decreases toks@.len() - i,
    {
        let p = skip_run(toks, i, TokenKind::Newline);
        let attempt = read_statement(toks, p);
        if attempt.is_ok() {
            return i;
        }
        i += 1;
    }
    i
}

/// Recovery is isolated: where a statement cannot be read, it costs one
/// diagnostic, and the first statement that can be read behind it is
/// read as if nothing had stood before it.
pub proof fn lemma_recovery_isolated(toks: Seq<Tok>, eof: usize, pos: int)
    requires
        0 <= pos <= toks.len(),
        run_of(toks, pos, TokenKind::Newline) < toks.len(),
        parse_statement(toks, run_of(toks, pos, TokenKind::Newline)) is Stuck,
    ensures
        ({
            let p = run_of(toks, pos, TokenKind::Newline);
            let q = resync(toks, p + 1);
            let all = parse_program_from(toks, eof, pos);
            let rest = parse_program_from(toks, eof, q);
            &&& p < q <= toks.len()
            &&& all.stmts == rest.stmts
            &&& all.errors.len() == rest.errors.len() + 1
            &&& q < toks.len() ==> statement_starts(toks, q) && rest.stmts.len() > 0
                && rest.stmts[0] == parse_statement(
                toks,
                run_of(toks, q, TokenKind::Newline),
            )->value
        }),
{
    let p = run_of(toks, pos, TokenKind::Newline);
    lemma_run_of_bounds(toks, pos, TokenKind::Newline);
    lemma_program_step(toks, eof, pos);
    lemma_resync_bounds(toks, p + 1);
    let q = resync(toks, p + 1);
    lemma_resync_starts(toks, p + 1);
    if q < toks.len() {
        lemma_program_step(toks, eof, q);
        lemma_run_of_bounds(toks, q, TokenKind::Newline);
        lemma_statement_bounds(toks, run_of(toks, q, TokenKind::Newline));
    }
}

/// Where `resync` stops inside the stream, a statement can be read.
proof fn lemma_resync_starts(toks: Seq<Tok>, pos: int)
    requires
        0 <= pos <= toks.len(),
    ensures
        resync(toks, pos) < toks.len() ==> statement_starts(toks, resync(toks, pos)),
    decreases toks.len() - pos,
{
    if pos < toks.len() && !statement_starts(toks, pos) {
        lemma_resync_starts(toks, pos + 1);
    }
}

/// A global variable statement is read from its own line alone: its name
/// is the global name that starts it, its definition the tokens behind the
/// `=` up to the end of the line, whatever stands on other lines.
pub proof fn lemma_global_var_read(toks: Seq<Tok>, pos: int)
    requires
        is_kind(toks, pos, TokenKind::GlobalName),
        is_punct_at(toks, pos + 1, '='),
    ensures
        parse_statement(toks, pos) == (Parsed::Read {
            value: StatementView::GlobalVar {
                name: name_at(toks, pos),
                def: toks.subrange(pos + 2, line_end(toks, pos + 2)),
            },
            next: after_line_end(toks, line_end(toks, pos + 2)),
        }),
{
    reveal(parse_statement);
}

/// Parsing resumes at `target` where no statement can be read at any
/// position from `from` up to it, and one can be read there or the input
/// ends there.
pub proof fn lemma_resync_first(toks: Seq<Tok>, from: int, target: int)
    requires
        0 <= from <= target <= toks.len(),
        forall|q: int| from <= q < target ==> !statement_starts(toks, q),
        target < toks.len() ==> statement_starts(toks, target),
    ensures
        resync(toks, from) == target,
    decreases target - from,
{
    if from < target {
        lemma_resync_first(toks, from + 1, target);
    }
}

/// A malformed line costs only itself. Where the statement at `p` cannot
/// be read, no later token of its line starts a statement that can be
/// read, and the next line does: the line gives one diagnostic, and the
/// program goes on with the next line as if the malformed one had not
/// been there.
pub proof fn lemma_bad_line_costs_itself(toks: Seq<Tok>, eof: usize, p: int)
    requires
        0 <= p < toks.len(),
        !is_kind(toks, p, TokenKind::Newline),
        parse_statement(toks, p) is Stuck,
        line_end(toks, p) < toks.len(),
        forall|q: int| p < q < line_end(toks, p) ==> !statement_starts(toks, q),
        statement_starts(toks, line_end(toks, p)),
    ensures
        ({
            let next_line = line_end(toks, p) + 1;
            let all = parse_program_from(toks, eof, p);
            let rest = parse_program_from(toks, eof, next_line);
            &&& all.stmts == rest.stmts
            &&& all.errors == seq![
                diagnostic_for(
                    toks,
                    eof,
                    parse_statement(toks, p)->at,
                    parse_statement(toks, p)->expected,
                ),
            ] + rest.errors
        }),
{
    let e = line_end(toks, p);
    lemma_line_end_bounds(toks, p);
    lemma_program_step(toks, eof, p);
    lemma_resync_first(toks, p + 1, e);
    lemma_program_step(toks, eof, e);
    lemma_program_step(toks, eof, e + 1);
}

/// Three lines of which the middle one is malformed give the statements
/// of the first and of the last line, in that order, and one diagnostic:
/// where the first line is a statement, the second can be read neither
/// from its start nor from any later token of it, and the third is a
/// statement that ends the input.
pub proof fn lemma_middle_line_dropped(toks: Seq<Tok>, eof: usize)
    requires
        parse_statement(toks, 0) is Read,
        ({
            let p = parse_statement(toks, 0)->next;
            let e = line_end(toks, p);
            &&& 0 < p < toks.len()
            &&& !is_kind(toks, p, TokenKind::Newline)
            &&& parse_statement(toks, p) is Stuck
            &&& e < toks.len()
            &&& forall|q: int| p < q < e ==> !statement_starts(toks, q)
            &&& !is_kind(toks, e + 1, TokenKind::Newline)
            &&& parse_statement(toks, e + 1) is Read
            &&& parse_statement(toks, e + 1)->next == toks.len()
        }),
    ensures
        ({
            let p = parse_statement(toks, 0)->next;
            let e = line_end(toks, p);
            &&& parse_program(toks, eof).stmts == seq![
                parse_statement(toks, 0)->value,
                parse_statement(toks, e + 1)->value,
            ]
            &&& parse_program(toks, eof).errors.len() == 1
        }),
{
    let p = parse_statement(toks, 0)->next;
    let e = line_end(toks, p);
    lemma_line_end_bounds(toks, p);
    assert(!is_kind(toks, 0, TokenKind::Newline)) by {
        reveal(parse_statement);
    }
    lemma_program_step(toks, eof, 0);
    assert(run_of(toks, e + 1, TokenKind::Newline) == e + 1);
    assert(run_of(toks, e, TokenKind::Newline) == e + 1);
    assert(statement_starts(toks, e));
    assert(run_of(toks, p, TokenKind::Newline) == p);
    lemma_bad_line_costs_itself(toks, eof, p);
    lemma_program_step(toks, eof, e + 1);
    lemma_program_step(toks, eof, toks.len() as int);
    let last = parse_program_from(toks, eof, toks.len() as int);
    assert(last.stmts =~= Seq::<StatementView>::empty());
    assert(last.errors =~= Seq::<Diagnostic>::empty());
    let v1 = parse_statement(toks, 0)->value;
    let v3 = parse_statement(toks, e + 1)->value;
    let second = parse_program_from(toks, eof, p);
    let third = parse_program_from(toks, eof, e + 1);
    lemma_statement_bounds(toks, e + 1);
    assert(run_of(toks, 0, TokenKind::Newline) == 0);
    assert(parse_program(toks, eof).stmts == seq![v1] + second.stmts);
    assert(parse_program(toks, eof).errors == second.errors);
    assert(second.stmts == third.stmts);
    assert(third.stmts == seq![v3] + last.stmts);
    assert(third.errors == last.errors);
    assert(seq![v1] + (seq![v3] + Seq::<StatementView>::empty()) =~= seq![v1, v3]);
}

/// One step of `parse_program_from`.
proof fn lemma_program_step(toks: Seq<Tok>, eof: usize, pos: int)
    requires
        0 <= pos <= toks.len(),
    ensures
        ({
            let p = run_of(toks, pos, TokenKind::Newline);
            let all = parse_program_from(toks, eof, pos);
            if p >= toks.len() {
                all.stmts == Seq::<StatementView>::empty() && all.errors == Seq::<
                    Diagnostic,
                >::empty()
            } else {
                match parse_statement(toks, p) {
                    Parsed::Read { value, next } => {
                        let rest = parse_program_from(toks, eof, next);
                        all.stmts == seq![value] + rest.stmts && all.errors == rest.errors
                    },
                    Parsed::Stuck { at, expected } => {
                        let rest = parse_program_from(toks, eof, resync(toks, p + 1));
                        all.stmts == rest.stmts && all.errors == seq![
                            diagnostic_for(toks, eof, at, expected),
                        ] + rest.errors
                    },
                }
            }
        }),
{
}

/// Parses a token stream into statements. `eof` is the byte offset of the
/// end of the source; diagnostics at the end of the input point there.
///
/// A statement that does not match the grammar gives one diagnostic and is
/// left out; the statements before and behind it are kept.
pub fn parser(tokens: &Vec<Spanned<Token>>, eof: usize) -> (r: (Vec<Statement>, Vec<Diagnostic>))
    ensures
        r.0.deep_view() == parse_program(tokens.deep_view(), eof).stmts,
        r.1@ == parse_program(tokens.deep_view(), eof).errors,
{
    let ghost dv = tokens.deep_view();
    let mut stmts: Vec<Statement> = Vec::new();
    let mut errors: Vec<Diagnostic> = Vec::new();
    let mut cur: usize = 0;
    proof {
        let all = parse_program(dv, eof);
        assert(stmts.deep_view() + all.stmts =~= all.stmts);
        assert(errors@ + all.errors =~= all.errors);
    }
    loop
        invariant
            dv == tokens.deep_view(),
            cur <= tokens@.len(),
            stmts.deep_view() + parse_program_from(dv, eof, cur as int).stmts == parse_program(
                dv,
                eof,
            ).stmts,
            errors@ + parse_program_from(dv, eof, cur as int).errors == parse_program(
                dv,
                eof,
            ).errors,
        decreases tokens@.len() - cur,
    {
        let p = skip_run(tokens, cur, TokenKind::Newline);
        proof {
            lemma_program_step(dv, eof, cur as int);
        }
        if p >= tokens.len() {
            proof {
                assert(stmts.deep_view() + Seq::<StatementView>::empty() =~= stmts.deep_view());
                assert(errors@ + Seq::<Diagnostic>::empty() =~= errors@);
            }
            return (stmts, errors);
        }
        let ghost before_s = stmts.deep_view();
        let ghost before_e = errors@;
        match read_statement(tokens, p) {
            Ok((stmt, next)) => {
                let ghost rest = parse_program_from(dv, eof, next as int);
                let ghost item = stmt.deep_view();
                stmts.push(stmt);
                proof {
                    assert(stmts.deep_view() =~= before_s.push(item));
                    assert(before_s.push(item) + rest.stmts =~= before_s + (seq![item]
                        + rest.stmts));
                }
                cur = next;
            },
            Err(e) => {
                let d = diagnose(tokens, eof, e);
                let next = find_resync(tokens, p + 1);
                let ghost rest = parse_program_from(dv, eof, next as int);
                errors.push(d);
                proof {
                    assert(before_e.push(d) + rest.errors =~= before_e + (seq![d] + rest.errors));
                }
                cur = next;
            },
        }
    }
}

// ---------------------------------------------------------------------
// From source text
// ---------------------------------------------------------------------

/// The test that picks the tokens that are no comments.
pub open spec fn no_comment() -> spec_fn(Tok) -> bool {
    |t: Tok| t.0.kind != TokenKind::Comment
}

/// The token stream that the parser reads: the tokens without the comments.
pub open spec fn without_comments(toks: Seq<Tok>) -> Seq<Tok> {
    toks.filter(no_comment())
}

fn strip_comments(toks: &Vec<Spanned<Token>>) -> (r: Vec<Spanned<Token>>)
    ensures
        r.deep_view() == without_comments(toks.deep_view()),
{
    let ghost keep = no_comment();
    let mut out: Vec<Spanned<Token>> = Vec::new();
    let mut i: usize = 0;
    proof {
        reveal(Seq::filter);
        assert(toks.deep_view().subrange(0, 0) =~= Seq::<Tok>::empty());
        assert(out.deep_view() =~= Seq::<Tok>::empty());
    }
    while i < toks.len()
        invariant
            i <= toks@.len(),
            keep == no_comment(),
            out.deep_view() == toks.deep_view().subrange(0, i as int).filter(keep),
        decreases toks@.len() - i,
    {
        let ghost before = out.deep_view();
        let ghost item = toks.deep_view()[i as int];
        proof {
            assert(toks.deep_view().subrange(0, i + 1) =~= toks.deep_view().subrange(
                0,
                i as int,
            ).push(item));
            toks.deep_view().subrange(0, i as int).lemma_filter_push(item, keep);
        }
        if toks[i].0.kind() != TokenKind::Comment {
            out.push((toks[i].0.clone(), toks[i].1));
            assert(out.deep_view() =~= before.push(item));
        }
        i += 1;
    }
    assert(toks.deep_view().subrange(0, toks@.len() as int) =~= toks.deep_view());
    out
}

/// What the analysis of a source text gives: all its tokens, the
/// statements that could be read, and the problems found on the way.
pub struct ParserResult {
    pub tokens: Vec<Spanned<Token>>,
    pub stmts: Vec<Statement>,
    pub errors: Vec<Diagnostic>,
}

/// The model of a `ParserResult`.
pub struct Analysis {
    pub tokens: Seq<Tok>,
    pub stmts: Seq<StatementView>,
    pub errors: Seq<Diagnostic>,
}

impl DeepView for ParserResult {
    type V = Analysis;

    open spec fn deep_view(&self) -> Analysis {
        Analysis {
            tokens: self.tokens.deep_view(),
            stmts: self.stmts.deep_view(),
            errors: self.errors@,
        }
    }
}

/// The analysis of a source text: its tokens, comments and line ends
/// included; the statements that the parser reads from the tokens without
/// the comments; and the lexical errors followed by the parser's
/// diagnostics.
pub open spec fn analyze(src: Seq<u8>) -> Analysis {
    let lexed = lex(src);
    let program = parse_program(without_comments(lexed.tokens), src.len() as usize);
    Analysis { tokens: lexed.tokens, stmts: program.stmts, errors: lexed.errors + program.errors }
}

/// Lexes and parses the bytes of a source text.
pub fn parse_from_bytes(src: &[u8]) -> (r: ParserResult)
    ensures
        r.deep_view() == analyze(src@),
{
    let (tokens, mut errors) = tokenize(src);
    let stream = strip_comments(&tokens);
    let (stmts, mut syntax_errors) = parser(&stream, src.len());
    errors.append(&mut syntax_errors);
    ParserResult { tokens, stmts, errors }
}

/// Lexes and parses a source text. Spans are byte offsets into `src`.
pub fn parse_from_str(src: &str) -> (r: ParserResult)
    ensures
        r.deep_view() == analyze(src.spec_bytes()),
{
    parse_from_bytes(src.as_bytes())
}

} // verus!
