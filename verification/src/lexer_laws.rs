//! What holds of the tokens of every source text.

use crate::diagnostics::{Diagnostic, DiagnosticKind};
use crate::hir_tokenizer::{
    hex_prefix_at, is_blank, lemma_token_at_bounds, lex_from, run_end, span_of, text_between,
    token_at, ByteClass, Lexed, Tok, TokenKind,
};
use vstd::prelude::*;

verus! {

/// The tokens are not empty, and each ends before the next starts.
pub open spec fn in_order(toks: Seq<Tok>) -> bool {
    &&& forall|i: int| 0 <= i < toks.len() ==> (#[trigger] toks[i]).1.start < toks[i].1.end
    &&& forall|i: int, j: int|
        0 <= i < j < toks.len() ==> (#[trigger] toks[i]).1.end <= (#[trigger] toks[j]).1.start
}

/// All tokens lie between the offsets `from` and `to`.
pub open spec fn within(toks: Seq<Tok>, from: int, to: int) -> bool {
    forall|i: int|
        0 <= i < toks.len() ==> from <= (#[trigger] toks[i]).1.start && toks[i].1.end <= to
}

/// The lexer hands out the tokens in the order of the text: none is
/// empty, none overlaps another, and all lie inside the text.
pub proof fn lemma_lex_in_order(bytes: Seq<u8>, pos: int)
    requires
        0 <= pos <= bytes.len() <= usize::MAX,
    ensures
        in_order(lex_from(bytes, pos).tokens),
        within(lex_from(bytes, pos).tokens, pos, bytes.len() as int),
        lex_from(bytes, pos).tokens.len() <= bytes.len() - pos,
    decreases bytes.len() - pos,
{
    if pos < bytes.len() {
        if is_blank(bytes[pos]) {
            lemma_lex_in_order(bytes, pos + 1);
        } else {
            lemma_token_at_bounds(bytes, pos);
            match token_at(bytes, pos) {
                Some(lx) => {
                    lemma_lex_in_order(bytes, lx.end);
                    let rest = lex_from(bytes, lx.end).tokens;
                    let first = (lx.token, span_of(pos, lx.end));
                    let all = seq![first] + rest;
                    assert(all == lex_from(bytes, pos).tokens);
                    assert forall|i: int| 0 <= i < all.len() implies (#[trigger] all[i]).1.start
                        < all[i].1.end && pos <= all[i].1.start && all[i].1.end
                        <= bytes.len() by {
                        if i > 0 {
                            assert(all[i] == rest[i - 1]);
                        }
                    }
                    assert forall|i: int, j: int| 0 <= i < j < all.len() implies (
                    #[trigger] all[i]).1.end <= (#[trigger] all[j]).1.start by {
                        assert(all[j] == rest[j - 1]);
                        if i > 0 {
                            assert(all[i] == rest[i - 1]);
                        }
                    }
                },
                None => {
                    lemma_lex_in_order(bytes, run_end(bytes, pos, ByteClass::Unrecognized));
                },
            }
        }
    }
}

/// Whether the text that the token carries is the text of its span: the
/// whole of it for names, words and punctuation; what stands behind the
/// `!` for a debug reference; the digits for a number, behind the `0x`
/// where it has that prefix. The other tokens carry no text.
pub open spec fn spells_its_span(bytes: Seq<u8>, t: Tok) -> bool {
    let start = t.1.start as int;
    let end = t.1.end as int;
    match t.0.kind {
        TokenKind::DebugRef => t.0.text == text_between(bytes, start + 1, end),
        TokenKind::HexNum => t.0.text == text_between(bytes, start, end) || (hex_prefix_at(
            bytes,
            start,
        ) && t.0.text == text_between(bytes, start + 2, end)),
        TokenKind::Declare | TokenKind::Define | TokenKind::Newline | TokenKind::Comment => t.0.text
            == Seq::<char>::empty(),
        _ => t.0.text == text_between(bytes, start, end),
    }
}

/// Spans are exact: every token carries the text that its span covers
/// in the source.
pub proof fn lemma_lex_exact(bytes: Seq<u8>, pos: int)
    requires
        0 <= pos <= bytes.len() <= usize::MAX,
    ensures
        forall|i: int|
            0 <= i < lex_from(bytes, pos).tokens.len() ==> spells_its_span(
                bytes,
                #[trigger] lex_from(bytes, pos).tokens[i],
            ),
    decreases bytes.len() - pos,
{
    if pos < bytes.len() {
        if is_blank(bytes[pos]) {
            lemma_lex_exact(bytes, pos + 1);
            assert(lex_from(bytes, pos).tokens == lex_from(bytes, pos + 1).tokens);
        } else {
            lemma_token_at_bounds(bytes, pos);
            match token_at(bytes, pos) {
                Some(lx) => {
                    lemma_lex_exact(bytes, lx.end);
                    let rest = lex_from(bytes, lx.end).tokens;
                    let first = (lx.token, span_of(pos, lx.end));
                    let all = seq![first] + rest;
                    assert(all == lex_from(bytes, pos).tokens);
                    assert(spells_its_span(bytes, first)) by {
                        if lx.token.kind == TokenKind::Punctuation {
                            assert(text_between(bytes, pos, pos + 1) =~= seq![bytes[pos] as char]);
                        }
                    }
                    assert forall|i: int| 0 <= i < all.len() implies spells_its_span(
                        bytes,
                        #[trigger] all[i],
                    ) by {
                        if i > 0 {
                            assert(all[i] == rest[i - 1]);
                        }
                    }
                },
                None => {
                    let end = run_end(bytes, pos, ByteClass::Unrecognized);
                    lemma_lex_exact(bytes, end);
                    assert(lex_from(bytes, pos).tokens == lex_from(bytes, end).tokens);
                },
            }
        }
    }
}

/// Whether the lexer has accounted for the byte at offset `i`: it is a
/// blank, or lies in the span of a token, or lies in the span of a
/// lexical error.
pub open spec fn accounted(bytes: Seq<u8>, lexed: Lexed, i: int) -> bool {
    ||| is_blank(bytes[i])
    ||| exists|t: int|
        0 <= t < lexed.tokens.len() && (#[trigger] lexed.tokens[t]).1.start <= i
            < lexed.tokens[t].1.end
    ||| exists|e: int|
        0 <= e < lexed.errors.len() && (#[trigger] lexed.errors[e]).span.start <= i
            < lexed.errors[e].span.end
}

/// The tokens cover the text: every byte that is no blank lies in a
/// token, or else in the span of a lexical error.
pub proof fn lemma_lex_covers(bytes: Seq<u8>, pos: int, i: int)
    requires
        0 <= pos <= i < bytes.len() <= usize::MAX,
    ensures
        accounted(bytes, lex_from(bytes, pos), i),
    decreases bytes.len() - pos,
{
    let all = lex_from(bytes, pos);
    if is_blank(bytes[pos]) {
        assert(all == lex_from(bytes, pos + 1));
        if i > pos {
            lemma_lex_covers(bytes, pos + 1, i);
        }
    } else {
        lemma_token_at_bounds(bytes, pos);
        match token_at(bytes, pos) {
            Some(lx) => {
                let rest = lex_from(bytes, lx.end);
                let first = (lx.token, span_of(pos, lx.end));
                assert(all.tokens == seq![first] + rest.tokens);
                assert(all.errors == rest.errors);
                if i < lx.end {
                    assert(all.tokens[0] == first);
                } else {
                    lemma_lex_covers(bytes, lx.end, i);
                    if exists|t: int|
                        0 <= t < rest.tokens.len() && (#[trigger] rest.tokens[t]).1.start <= i
                            < rest.tokens[t].1.end {
                        let t = choose|t: int|
                            0 <= t < rest.tokens.len() && (#[trigger] rest.tokens[t]).1.start <= i
                                < rest.tokens[t].1.end;
                        assert(all.tokens[t + 1] == rest.tokens[t]);
                    }
                }
            },
            None => {
                let end = run_end(bytes, pos, ByteClass::Unrecognized);
                let rest = lex_from(bytes, end);
                let first = Diagnostic {
                    span: span_of(pos, end),
                    kind: DiagnosticKind::UnrecognizedText,
                };
                assert(all.errors == seq![first] + rest.errors);
                assert(all.tokens == rest.tokens);
                if i < end {
                    assert(all.errors[0] == first);
                } else {
                    lemma_lex_covers(bytes, end, i);
                    if exists|e: int|
                        0 <= e < rest.errors.len() && (#[trigger] rest.errors[e]).span.start <= i
                            < rest.errors[e].span.end {
                        let e = choose|e: int|
                            0 <= e < rest.errors.len() && (#[trigger] rest.errors[e]).span.start
                                <= i < rest.errors[e].span.end;
                        assert(all.errors[e + 1] == rest.errors[e]);
                    }
                }
            },
        }
    }
}

/// Leaving tokens out keeps the others in order.
pub proof fn lemma_filter_in_order(toks: Seq<Tok>, keep: spec_fn(Tok) -> bool, to: int)
    requires
        in_order(toks),
        within(toks, 0, to),
    ensures
        in_order(toks.filter(keep)),
        within(toks.filter(keep), 0, to),
        toks.filter(keep).len() <= toks.len(),
    decreases toks.len(),
{
    reveal(Seq::filter);
    if toks.len() > 0 {
        let front = toks.drop_last();
        let last = toks.last();
        assert(in_order(front)) by {
            assert forall|i: int| 0 <= i < front.len() implies (#[trigger] front[i]).1.start
                < front[i].1.end by {
                assert(front[i] == toks[i]);
            }
            assert forall|i: int, j: int| 0 <= i < j < front.len() implies (
            #[trigger] front[i]).1.end <= (#[trigger] front[j]).1.start by {
                assert(front[i] == toks[i]);
                assert(front[j] == toks[j]);
            }
        }
        assert(within(front, 0, last.1.start as int)) by {
            assert forall|i: int| 0 <= i < front.len() implies 0 <= (#[trigger] front[i]).1.start
                && front[i].1.end <= last.1.start by {
                assert(front[i] == toks[i]);
                assert(toks[i].1.end <= toks[toks.len() - 1].1.start);
            }
        }
        lemma_filter_in_order(front, keep, last.1.start as int);
        let kept = front.filter(keep);
        if keep(last) {
            let all = kept.push(last);
            assert(all == toks.filter(keep));
            assert(toks[toks.len() - 1].1.start < toks[toks.len() - 1].1.end);
            assert forall|i: int, j: int| 0 <= i < j < all.len() implies (
            #[trigger] all[i]).1.end <= (#[trigger] all[j]).1.start by {
                assert(all[i] == kept[i]);
                if j < kept.len() {
                    assert(all[j] == kept[j]);
                }
            }
            assert forall|i: int| 0 <= i < all.len() implies (#[trigger] all[i]).1.start
                < all[i].1.end && all[i].1.end <= to by {
                if i < kept.len() {
                    assert(all[i] == kept[i]);
                }
            }
        } else {
            assert(kept == toks.filter(keep));
        }
    }
}

} // verus!
