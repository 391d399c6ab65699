//! The lexer: source bytes to spanned tokens.

use crate::diagnostics::{Diagnostic, DiagnosticKind};
use vstd::prelude::*;
use vstd::string::*;

verus! {

/// A half-open byte range `[start, end)` of the source text.
#[derive(Clone, Copy, Debug, PartialEq, Eq, Hash, Structural)]
pub struct Span {
    pub start: usize,
    pub end: usize,
}

/// A value together with the span of the text it was read from.
pub type Spanned<T> = (T, Span);

impl DeepView for Span {
    type V = Span;

    open spec fn deep_view(&self) -> Span {
        *self
    }
}

impl Span {
    /// Whether the byte offset `pos` lies inside the span.
    pub open spec fn covers(self, pos: usize) -> bool {
        self.start <= pos < self.end
    }

    /// Whether the byte offset `pos` lies inside the span.
    pub fn contains(&self, pos: usize) -> (r: bool)
        ensures
            r == self.covers(pos),
    {
        self.start <= pos && pos < self.end
    }
}

/// The span from byte offset `start` up to `end`, as positions of the model.
pub open spec fn span_of(start: int, end: int) -> Span {
    Span { start: start as usize, end: end as usize }
}

/// The kinds of token, without their text.
#[derive(Clone, Copy, Debug, PartialEq, Eq, Hash, Structural)]
pub enum TokenKind {
    Declare,
    Define,
    Newline,
    Comment,
    Punctuation,
    GlobalName,
    LocalName,
    DebugRef,
    Type,
    FuncModifier,
    Ident,
    HexNum,
}

/// A token. Names keep their sigil (`@`, `%`); a debug reference holds its
/// digits without the `!`, and a number its digits without a `0x` prefix.
#[derive(Debug, PartialEq, Eq, Hash)]
pub enum Token {
    Declare,
    Define,
    Newline,
    Comment,
    Punctuation(char),
    GlobalName(String),
    LocalName(String),
    DebugRef(String),
    Type(String),
    FuncModifier(String),
    Ident(String),
    HexNum(String),
}

/// The model of a token: its kind and the text it carries (empty for the
/// kinds that carry none, one character for punctuation).
pub struct TokenView {
    pub kind: TokenKind,
    pub text: Seq<char>,
}

/// The model of a spanned token.
pub type Tok = (TokenView, Span);

impl DeepView for Token {
    type V = TokenView;

    open spec fn deep_view(&self) -> TokenView {
        match self {
            Token::Declare => TokenView { kind: TokenKind::Declare, text: Seq::empty() },
            Token::Define => TokenView { kind: TokenKind::Define, text: Seq::empty() },
            Token::Newline => TokenView { kind: TokenKind::Newline, text: Seq::empty() },
            Token::Comment => TokenView { kind: TokenKind::Comment, text: Seq::empty() },
            Token::Punctuation(c) => TokenView { kind: TokenKind::Punctuation, text: seq![*c] },
            Token::GlobalName(s) => TokenView { kind: TokenKind::GlobalName, text: s@ },
            Token::LocalName(s) => TokenView { kind: TokenKind::LocalName, text: s@ },
            Token::DebugRef(s) => TokenView { kind: TokenKind::DebugRef, text: s@ },
            Token::Type(s) => TokenView { kind: TokenKind::Type, text: s@ },
            Token::FuncModifier(s) => TokenView { kind: TokenKind::FuncModifier, text: s@ },
            Token::Ident(s) => TokenView { kind: TokenKind::Ident, text: s@ },
            Token::HexNum(s) => TokenView { kind: TokenKind::HexNum, text: s@ },
        }
    }
}

impl Token {
    /// The kind of the token.
    pub fn kind(&self) -> (k: TokenKind)
        ensures
            k == self.deep_view().kind,
    {
        match self {
            Token::Declare => TokenKind::Declare,
            Token::Define => TokenKind::Define,
            Token::Newline => TokenKind::Newline,
            Token::Comment => TokenKind::Comment,
            Token::Punctuation(_) => TokenKind::Punctuation,
            Token::GlobalName(_) => TokenKind::GlobalName,
            Token::LocalName(_) => TokenKind::LocalName,
            Token::DebugRef(_) => TokenKind::DebugRef,
            Token::Type(_) => TokenKind::Type,
            Token::FuncModifier(_) => TokenKind::FuncModifier,
            Token::Ident(_) => TokenKind::Ident,
            Token::HexNum(_) => TokenKind::HexNum,
        }
    }

    /// Whether the token is the punctuation character `c`.
    pub fn is_punct(&self, c: char) -> (r: bool)
        ensures
            r == is_punct_tok(self.deep_view(), c),
    {
        match self {
            Token::Punctuation(d) => {
                assert(seq![*d] == seq![c] ==> *d == c) by {
                    if seq![*d] == seq![c] {
                        assert(seq![*d][0] == seq![c][0]);
                    }
                }
                *d == c
            },
            _ => false,
        }
    }
}

impl Clone for Token {
    fn clone(&self) -> (r: Token)
        ensures
            r.deep_view() == self.deep_view(),
    {
        match self {
            Token::Declare => Token::Declare,
            Token::Define => Token::Define,
            Token::Newline => Token::Newline,
            Token::Comment => Token::Comment,
            Token::Punctuation(c) => Token::Punctuation(*c),
            Token::GlobalName(s) => Token::GlobalName(s.clone()),
            Token::LocalName(s) => Token::LocalName(s.clone()),
            Token::DebugRef(s) => Token::DebugRef(s.clone()),
            Token::Type(s) => Token::Type(s.clone()),
            Token::FuncModifier(s) => Token::FuncModifier(s.clone()),
            Token::Ident(s) => Token::Ident(s.clone()),
            Token::HexNum(s) => Token::HexNum(s.clone()),
        }
    }
}

/// Whether the token model `t` is the punctuation character `c`.
pub open spec fn is_punct_tok(t: TokenView, c: char) -> bool {
    t.kind == TokenKind::Punctuation && t.text == seq![c]
}

/// `String::push` appends one character to the string.
pub assume_specification[ String::push ](s: &mut String, c: char)
    ensures
        final(s)@ == old(s)@.push(c),
;

// ---------------------------------------------------------------------
// Bytes
// ---------------------------------------------------------------------

/// The horizontal tab.
pub const TAB: u8 = 0x09;

/// The line feed, which ends a line.
pub const LINE_FEED: u8 = 0x0a;

/// The carriage return.
pub const CARRIAGE_RETURN: u8 = 0x0d;

/// The space.
pub const SPACE: u8 = 0x20;

/// `!`, the first printable character.
pub const BANG: u8 = 0x21;

/// `#`
pub const HASH: u8 = 0x23;

/// `%`
pub const PERCENT: u8 = 0x25;

/// `.`
pub const DOT: u8 = 0x2e;

/// `0`
pub const DIGIT_0: u8 = 0x30;

/// `9`
pub const DIGIT_9: u8 = 0x39;

/// `:`
pub const COLON: u8 = 0x3a;

/// `@`
pub const AT: u8 = 0x40;

/// `A`
pub const UPPER_A: u8 = 0x41;

/// `F`
pub const UPPER_F: u8 = 0x46;

/// `X`
pub const UPPER_X: u8 = 0x58;

/// `Z`
pub const UPPER_Z: u8 = 0x5a;

/// `_`
pub const UNDERSCORE: u8 = 0x5f;

/// `a`
pub const LOWER_A: u8 = 0x61;

/// `f`
pub const LOWER_F: u8 = 0x66;

/// `x`
pub const LOWER_X: u8 = 0x78;

/// `z`
pub const LOWER_Z: u8 = 0x7a;

/// `~`, the last printable character.
pub const TILDE: u8 = 0x7e;

// ---------------------------------------------------------------------
// Byte classes
// ---------------------------------------------------------------------

/// Blank bytes between tokens: space, tab, carriage return.
pub open spec fn is_blank(b: u8) -> bool {
    b == SPACE || b == TAB || b == CARRIAGE_RETURN
}

/// `0` to `9`.
pub open spec fn is_digit(b: u8) -> bool {
    DIGIT_0 <= b <= DIGIT_9
}

/// Digits, and the letters `A` to `F` in either case.
pub open spec fn is_hex_digit(b: u8) -> bool {
    is_digit(b) || UPPER_A <= b <= UPPER_F || LOWER_A <= b <= LOWER_F
}

/// Letters and the underscore: the bytes that may start a word.
pub open spec fn is_word_start(b: u8) -> bool {
    UPPER_A <= b <= UPPER_Z || LOWER_A <= b <= LOWER_Z || b == UNDERSCORE
}

/// Letters, digits and the underscore.
pub open spec fn is_word_byte(b: u8) -> bool {
    is_word_start(b) || is_digit(b)
}

/// Printable ASCII that starts no other token: the punctuation characters.
/// `!` counts here; it is a debug reference only in front of a digit.
pub open spec fn is_punct_byte(b: u8) -> bool {
    BANG <= b <= TILDE && !is_word_byte(b) && b != AT && b != PERCENT && b != HASH
}

/// The classes of byte that the lexer reads in runs.
#[derive(Clone, Copy, Debug, PartialEq, Eq, Structural)]
pub enum ByteClass {
    /// Decimal digits.
    Digit,
    /// Hexadecimal digits.
    HexDigit,
    /// Letters, digits and `_`.
    Word,
    /// What may follow the `@` of a global name: word bytes, `:` and `.`.
    GlobalName,
    /// What may follow the `%` of a local name: word bytes and `.`.
    LocalName,
    /// Everything up to the end of the line.
    Comment,
    /// Bytes that start no token and are no blank.
    Unrecognized,
}

/// Whether the byte belongs to the class.
pub open spec fn class_has(cl: ByteClass, b: u8) -> bool {
    match cl {
        ByteClass::Digit => is_digit(b),
        ByteClass::HexDigit => is_hex_digit(b),
        ByteClass::Word => is_word_byte(b),
        ByteClass::GlobalName => is_word_byte(b) || b == COLON || b == DOT,
        ByteClass::LocalName => is_word_byte(b) || b == DOT,
        ByteClass::Comment => b != LINE_FEED,
        ByteClass::Unrecognized => !(BANG <= b <= TILDE) && !is_blank(b) && b != LINE_FEED,
    }
}

fn digit(b: u8) -> (r: bool)
    ensures
        r == is_digit(b),
{
    DIGIT_0 <= b && b <= DIGIT_9
}

fn hex_digit(b: u8) -> (r: bool)
    ensures
        r == is_hex_digit(b),
{
    digit(b) || (UPPER_A <= b && b <= UPPER_F) || (LOWER_A <= b && b <= LOWER_F)
}

fn word_start(b: u8) -> (r: bool)
    ensures
        r == is_word_start(b),
{
    (UPPER_A <= b && b <= UPPER_Z) || (LOWER_A <= b && b <= LOWER_Z) || b == UNDERSCORE
}

fn word_byte(b: u8) -> (r: bool)
    ensures
        r == is_word_byte(b),
{
    word_start(b) || digit(b)
}

fn blank(b: u8) -> (r: bool)
    ensures
        r == is_blank(b),
{
    b == SPACE || b == TAB || b == CARRIAGE_RETURN
}

fn in_class(cl: ByteClass, b: u8) -> (r: bool)
    ensures
        r == class_has(cl, b),
{
    match cl {
        ByteClass::Digit => digit(b),
        ByteClass::HexDigit => hex_digit(b),
        ByteClass::Word => word_byte(b),
        ByteClass::GlobalName => word_byte(b) || b == COLON || b == DOT,
        ByteClass::LocalName => word_byte(b) || b == DOT,
        ByteClass::Comment => b != LINE_FEED,
        ByteClass::Unrecognized => !(BANG <= b && b <= TILDE) && !blank(b) && b != LINE_FEED,
    }
}

/// Where the run of bytes of class `cl` that starts at `pos` ends: the
/// first position from `pos` on that holds no byte of the class.
pub open spec fn run_end(bytes: Seq<u8>, pos: int, cl: ByteClass) -> int
    decreases bytes.len() - pos,
{
    if 0 <= pos < bytes.len() && class_has(cl, bytes[pos]) {
        run_end(bytes, pos + 1, cl)
    } else {
        pos
    }
}

/// A run ends at or behind its start, inside the text.
pub proof fn lemma_run_end_bounds(bytes: Seq<u8>, pos: int, cl: ByteClass)
    requires
        0 <= pos <= bytes.len(),
    ensures
        pos <= run_end(bytes, pos, cl) <= bytes.len(),
    decreases bytes.len() - pos,
{
    if pos < bytes.len() && class_has(cl, bytes[pos]) {
        lemma_run_end_bounds(bytes, pos + 1, cl);
    }
}

fn scan_run(bytes: &[u8], pos: usize, cl: ByteClass) -> (e: usize)
    requires
        pos <= bytes@.len(),
    ensures
        e == run_end(bytes@, pos as int, cl),
        pos <= e <= bytes@.len(),
{
    let mut i: usize = pos;
    while i < bytes.len() && in_class(cl, bytes[i])
        invariant
            pos <= i <= bytes@.len(),
            run_end(bytes@, pos as int, cl) == run_end(bytes@, i as int, cl),
        decreases bytes@.len() - i,
    {
        i += 1;
    }
    i
}

// ---------------------------------------------------------------------
// Text of a lexeme
// ---------------------------------------------------------------------

/// The characters that a run of ASCII bytes spells.
pub open spec fn ascii_text(b: Seq<u8>) -> Seq<char> {
    b.map_values(|x: u8| x as char)
}

/// The text of the bytes from `from` up to `to`.
pub open spec fn text_between(bytes: Seq<u8>, from: int, to: int) -> Seq<char> {
    ascii_text(bytes.subrange(from, to))
}

fn text_of(bytes: &[u8], from: usize, to: usize) -> (r: String)
    requires
        from <= to <= bytes@.len(),
    ensures
        r@ == text_between(bytes@, from as int, to as int),
{
    let mut s = String::new();
    let mut i: usize = from;
    while i < to
        invariant
            from <= i <= to <= bytes@.len(),
            s@ == text_between(bytes@, from as int, i as int),
        decreases to - i,
    {
        let c = bytes[i] as char;
        s.push(c);
        proof {
            assert(bytes@.subrange(from as int, i + 1) =~= bytes@.subrange(
                from as int,
                i as int,
            ).push(bytes@[i as int]));
            assert(s@ =~= text_between(bytes@, from as int, i + 1));
        }
        i += 1;
    }
    s
}

/// Whether the bytes from `from` up to `to` spell the ASCII word `word`.
fn spells(bytes: &[u8], from: usize, to: usize, word: &str) -> (r: bool)
    requires
        from <= to <= bytes@.len(),
        is_ascii(word),
    ensures
        r == (text_between(bytes@, from as int, to as int) == word@),
{
    broadcast use is_ascii_spec_bytes;

    let w = word.as_bytes();
    let ghost text = text_between(bytes@, from as int, to as int);
    assert(w@.len() == word@.len());
    if w.len() != to - from {
        return false;
    }
    let mut i: usize = 0;
    while i < w.len()
        invariant
            from <= to <= bytes@.len(),
            w@.len() == to - from,
            w@.len() == word@.len(),
            i <= w@.len(),
            is_ascii(word),
            w@ == word.spec_bytes(),
            text == text_between(bytes@, from as int, to as int),
            forall|j: int| 0 <= j < i ==> text[j] == word@[j],
        decreases w@.len() - i,
    {
        assert(w@[i as int] == word@[i as int] as u8);
        assert('\0' <= word@[i as int] <= '\u{7f}');
        if bytes[from + i] != w[i] {
            assert(text[i as int] == bytes@[from + i] as char);
            assert(text[i as int] != word@[i as int]);
            return false;
        }
        assert(text[i as int] == word@[i as int]);
        i += 1;
    }
    assert(text =~= word@);
    true
}

// ---------------------------------------------------------------------
// Keywords
// ---------------------------------------------------------------------

/// The type keywords.
pub open spec fn is_type_word(w: Seq<char>) -> bool {
    w == "void"@ || w == "int1"@ || w == "int8"@ || w == "int16"@ || w == "int32"@ || w
        == "int64"@ || w == "int128"@ || w == "data128"@ || w == "double"@ || w == "ptr"@
}

/// The function modifiers.
pub open spec fn is_modifier_word(w: Seq<char>) -> bool {
    w == "exported"@ || w == "inline"@ || w == "noinline"@ || w == "noreturn"@
}

/// The kind of token that the word `w` is.
pub open spec fn word_kind(w: Seq<char>) -> TokenKind {
    if w == "declare"@ {
        TokenKind::Declare
    } else if w == "define"@ {
        TokenKind::Define
    } else if is_type_word(w) {
        TokenKind::Type
    } else if is_modifier_word(w) {
        TokenKind::FuncModifier
    } else {
        TokenKind::Ident
    }
}

fn type_word(bytes: &[u8], from: usize, to: usize) -> (r: bool)
    requires
        from <= to <= bytes@.len(),
    ensures
        r == is_type_word(text_between(bytes@, from as int, to as int)),
{
    proof {
        reveal_strlit("void");
        reveal_strlit("int1");
        reveal_strlit("int8");
        reveal_strlit("int16");
        reveal_strlit("int32");
        reveal_strlit("int64");
        reveal_strlit("int128");
        reveal_strlit("data128");
        reveal_strlit("double");
        reveal_strlit("ptr");
    }
    spells(bytes, from, to, "void") || spells(bytes, from, to, "int1") || spells(
        bytes,
        from,
        to,
        "int8",
    ) || spells(bytes, from, to, "int16") || spells(bytes, from, to, "int32") || spells(
        bytes,
        from,
        to,
        "int64",
    ) || spells(bytes, from, to, "int128") || spells(bytes, from, to, "data128") || spells(
        bytes,
        from,
        to,
        "double",
    ) || spells(bytes, from, to, "ptr")
}

fn modifier_word(bytes: &[u8], from: usize, to: usize) -> (r: bool)
    requires
        from <= to <= bytes@.len(),
    ensures
        r == is_modifier_word(text_between(bytes@, from as int, to as int)),
{
    proof {
        reveal_strlit("exported");
        reveal_strlit("inline");
        reveal_strlit("noinline");
        reveal_strlit("noreturn");
    }
    spells(bytes, from, to, "exported") || spells(bytes, from, to, "inline") || spells(
        bytes,
        from,
        to,
        "noinline",
    ) || spells(bytes, from, to, "noreturn")
}

fn classify_word(bytes: &[u8], from: usize, to: usize) -> (k: TokenKind)
    requires
        from <= to <= bytes@.len(),
    ensures
        k == word_kind(text_between(bytes@, from as int, to as int)),
{
    proof {
        reveal_strlit("declare");
        reveal_strlit("define");
    }
    if spells(bytes, from, to, "declare") {
        TokenKind::Declare
    } else if spells(bytes, from, to, "define") {
        TokenKind::Define
    } else if type_word(bytes, from, to) {
        TokenKind::Type
    } else if modifier_word(bytes, from, to) {
        TokenKind::FuncModifier
    } else {
        TokenKind::Ident
    }
}

// ---------------------------------------------------------------------
// One token
// ---------------------------------------------------------------------

/// A token read from the source, and the position just behind it.
pub struct Lexeme {
    pub token: TokenView,
    pub end: int,
}

/// Whether a number with the prefix `0x` (or `0X`) and at least one
/// hexadecimal digit starts at `pos`.
pub open spec fn hex_prefix_at(bytes: Seq<u8>, pos: int) -> bool {
    &&& 0 <= pos
    &&& pos + 2 < bytes.len()
    &&& bytes[pos] == DIGIT_0
    &&& (bytes[pos + 1] == LOWER_X || bytes[pos + 1] == UPPER_X)
    &&& is_hex_digit(bytes[pos + 2])
}

/// The token that starts at `pos`, where `pos` holds neither a blank nor
/// the end of the input; `None` where the byte starts no token.
///
/// - a line feed is a `Newline`;
/// - `#` starts a comment that runs to the end of the line;
/// - `@` and `%` start a global and a local name, which keep the sigil;
/// - `!` in front of a digit starts a debug reference, which holds the digits;
/// - a digit starts a number: the hexadecimal digits behind `0x`, or else
///   the run of decimal digits;
/// - a letter or `_` starts a word, which the keyword table classifies;
/// - any other printable ASCII character is punctuation.
pub open spec fn token_at(bytes: Seq<u8>, pos: int) -> Option<Lexeme>
    recommends
        0 <= pos < bytes.len(),
{
    let b = bytes[pos];
    let none = Seq::<char>::empty();
    if b == LINE_FEED {
        Some(Lexeme { token: TokenView { kind: TokenKind::Newline, text: none }, end: pos + 1 })
    } else if b == HASH {
        Some(
            Lexeme {
                token: TokenView { kind: TokenKind::Comment, text: none },
                end: run_end(bytes, pos + 1, ByteClass::Comment),
            },
        )
    } else if b == AT {
        let end = run_end(bytes, pos + 1, ByteClass::GlobalName);
        Some(
            Lexeme {
                token: TokenView {
                    kind: TokenKind::GlobalName,
                    text: text_between(bytes, pos, end),
                },
                end,
            },
        )
    } else if b == PERCENT {
        let end = run_end(bytes, pos + 1, ByteClass::LocalName);
        Some(
            Lexeme {
                token: TokenView {
                    kind: TokenKind::LocalName,
                    text: text_between(bytes, pos, end),
                },
                end,
            },
        )
    } else if b == BANG && pos + 1 < bytes.len() && is_digit(bytes[pos + 1]) {
        let end = run_end(bytes, pos + 1, ByteClass::Digit);
        Some(
            Lexeme {
                token: TokenView {
                    kind: TokenKind::DebugRef,
                    text: text_between(bytes, pos + 1, end),
                },
                end,
            },
        )
    } else if is_digit(b) {
        if hex_prefix_at(bytes, pos) {
            let end = run_end(bytes, pos + 2, ByteClass::HexDigit);
            Some(
                Lexeme {
                    token: TokenView {
                        kind: TokenKind::HexNum,
                        text: text_between(bytes, pos + 2, end),
                    },
                    end,
                },
            )
        } else {
            let end = run_end(bytes, pos, ByteClass::Digit);
            Some(
                Lexeme {
                    token: TokenView {
                        kind: TokenKind::HexNum,
                        text: text_between(bytes, pos, end),
                    },
                    end,
                },
            )
        }
    } else if is_word_start(b) {
        let end = run_end(bytes, pos, ByteClass::Word);
        let word = text_between(bytes, pos, end);
        let kind = word_kind(word);
        let text = if kind == TokenKind::Declare || kind == TokenKind::Define {
            none
        } else {
            word
        };
        Some(Lexeme { token: TokenView { kind, text }, end })
    } else if is_punct_byte(b) {
        Some(
            Lexeme {
                token: TokenView { kind: TokenKind::Punctuation, text: seq![b as char] },
                end: pos + 1,
            },
        )
    } else {
        None
    }
}

/// A token is never empty and ends inside the input; a byte that starts
/// none is of the class `Unrecognized`.
pub proof fn lemma_token_at_bounds(bytes: Seq<u8>, pos: int)
    requires
        0 <= pos < bytes.len(),
        !is_blank(bytes[pos]),
    ensures
        match token_at(bytes, pos) {
            Some(lx) => pos < lx.end <= bytes.len(),
            None => class_has(ByteClass::Unrecognized, bytes[pos]) && pos < run_end(
                bytes,
                pos,
                ByteClass::Unrecognized,
            ) <= bytes.len(),
        },
{
    lemma_run_end_bounds(bytes, pos + 1, ByteClass::Comment);
    lemma_run_end_bounds(bytes, pos + 1, ByteClass::GlobalName);
    lemma_run_end_bounds(bytes, pos + 1, ByteClass::LocalName);
    lemma_run_end_bounds(bytes, pos + 1, ByteClass::Digit);
    lemma_run_end_bounds(bytes, pos + 1, ByteClass::Word);
    lemma_run_end_bounds(bytes, pos + 1, ByteClass::Unrecognized);
    if hex_prefix_at(bytes, pos) {
        lemma_run_end_bounds(bytes, pos + 2, ByteClass::HexDigit);
    }
}

fn read_token(bytes: &[u8], pos: usize) -> (r: Option<(Token, usize)>)
    requires
        pos < bytes@.len(),
        !is_blank(bytes@[pos as int]),
    ensures
        match r {
            Some((t, e)) => token_at(bytes@, pos as int) == Some(
                Lexeme { token: t.deep_view(), end: e as int },
            ) && pos < e <= bytes@.len(),
            None => token_at(bytes@, pos as int) is None,
        },
{
    proof {
        lemma_token_at_bounds(bytes@, pos as int);
    }
    let b = bytes[pos];
    if b == LINE_FEED {
        Some((Token::Newline, pos + 1))
    } else if b == HASH {
        let end = scan_run(bytes, pos + 1, ByteClass::Comment);
        Some((Token::Comment, end))
    } else if b == AT {
        let end = scan_run(bytes, pos + 1, ByteClass::GlobalName);
        Some((Token::GlobalName(text_of(bytes, pos, end)), end))
    } else if b == PERCENT {
        let end = scan_run(bytes, pos + 1, ByteClass::LocalName);
        Some((Token::LocalName(text_of(bytes, pos, end)), end))
    } else if b == BANG && pos + 1 < bytes.len() && digit(bytes[pos + 1]) {
        let end = scan_run(bytes, pos + 1, ByteClass::Digit);
        Some((Token::DebugRef(text_of(bytes, pos + 1, end)), end))
    } else if digit(b) {
        if b == DIGIT_0 && bytes.len() - pos > 2 && (bytes[pos + 1] == LOWER_X || bytes[pos + 1]
            == UPPER_X) && hex_digit(bytes[pos + 2]) {
            let end = scan_run(bytes, pos + 2, ByteClass::HexDigit);
            Some((Token::HexNum(text_of(bytes, pos + 2, end)), end))
        } else {
            let end = scan_run(bytes, pos, ByteClass::Digit);
            Some((Token::HexNum(text_of(bytes, pos, end)), end))
        }
    } else if word_start(b) {
        let end = scan_run(bytes, pos, ByteClass::Word);
        let token = match classify_word(bytes, pos, end) {
            TokenKind::Declare => Token::Declare,
            TokenKind::Define => Token::Define,
            TokenKind::Type => Token::Type(text_of(bytes, pos, end)),
            TokenKind::FuncModifier => Token::FuncModifier(text_of(bytes, pos, end)),
            _ => Token::Ident(text_of(bytes, pos, end)),
        };
        Some((token, end))
    } else if BANG <= b && b <= TILDE {
        Some((Token::Punctuation(b as char), pos + 1))
    } else {
        None
    }
}

// ---------------------------------------------------------------------
// The whole input
// ---------------------------------------------------------------------

/// What the lexer makes of a source text.
pub struct Lexed {
    pub tokens: Seq<Tok>,
    pub errors: Seq<Diagnostic>,
}

/// The tokens and the lexical errors of the source from `pos` on.
///
/// Blanks are skipped. Where a token starts, it is read and the lexer goes
/// on behind it. Where none starts, the whole run of unrecognized bytes is
/// skipped and reported as one error.
pub open spec fn lex_from(bytes: Seq<u8>, pos: int) -> Lexed
    decreases bytes.len() - pos,
{
    if !(0 <= pos < bytes.len()) {
        Lexed { tokens: Seq::empty(), errors: Seq::empty() }
    } else if is_blank(bytes[pos]) {
        lex_from(bytes, pos + 1)
    } else {
        proof {
            lemma_token_at_bounds(bytes, pos);
        }
        match token_at(bytes, pos) {
            Some(lx) => {
                let rest = lex_from(bytes, lx.end);
                Lexed {
                    tokens: seq![(lx.token, span_of(pos, lx.end))] + rest.tokens,
                    errors: rest.errors,
                }
            },
            None => {
                let end = run_end(bytes, pos, ByteClass::Unrecognized);
                let rest = lex_from(bytes, end);
                Lexed {
                    tokens: rest.tokens,
                    errors: seq![
                        Diagnostic {
                            span: span_of(pos, end),
                            kind: DiagnosticKind::UnrecognizedText,
                        },
                    ] + rest.errors,
                }
            },
        }
    }
}

/// The tokens and the lexical errors of a source text.
pub open spec fn lex(bytes: Seq<u8>) -> Lexed {
    lex_from(bytes, 0)
}

/// Turns source bytes into spanned tokens. Comments and line ends are
/// tokens too. Bytes that start no token are skipped, one error for each
/// run of them, and lexing goes on behind them.
pub fn tokenize(src: &[u8]) -> (r: (Vec<Spanned<Token>>, Vec<Diagnostic>))
    ensures
        r.0.deep_view() == lex(src@).tokens,
        r.1@ == lex(src@).errors,
{
    let mut tokens: Vec<Spanned<Token>> = Vec::new();
    let mut errors: Vec<Diagnostic> = Vec::new();
    let mut pos: usize = 0;
    while pos < src.len()
        invariant
            pos <= src@.len(),
            tokens.deep_view() + lex_from(src@, pos as int).tokens == lex(src@).tokens,
            errors@ + lex_from(src@, pos as int).errors == lex(src@).errors,
        decreases src@.len() - pos,
    {
        let ghost before_t = tokens.deep_view();
        let ghost before_e = errors@;
        if blank(src[pos]) {
            pos += 1;
        } else {
            proof {
                lemma_token_at_bounds(src@, pos as int);
            }
            match read_token(src, pos) {
                Some((t, end)) => {
                    let ghost item = (t.deep_view(), span_of(pos as int, end as int));
                    tokens.push((t, Span { start: pos, end }));
                    proof {
                        assert(tokens.deep_view() =~= before_t.push(item));
                        assert(before_t.push(item) + lex_from(src@, end as int).tokens
                            =~= before_t + (seq![item] + lex_from(src@, end as int).tokens));
                    }
                    pos = end;
                },
                None => {
                    let end = scan_run(src, pos, ByteClass::Unrecognized);
                    let d = Diagnostic {
                        span: Span { start: pos, end },
                        kind: DiagnosticKind::UnrecognizedText,
                    };
                    errors.push(d);
                    proof {
                        assert(before_e.push(d) + lex_from(src@, end as int).errors =~= before_e
                            + (seq![d] + lex_from(src@, end as int).errors));
                    }
                    pos = end;
                },
            }
        }
    }
    proof {
        assert(tokens.deep_view() + Seq::<Tok>::empty() =~= tokens.deep_view());
        assert(errors@ + Seq::<Diagnostic>::empty() =~= errors@);
    }
    (tokens, errors)
}

} // verus!
