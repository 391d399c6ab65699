//! What holds of the index of every source text: the spans of its
//! occurrences lie apart, so that every offset finds at most one.

use crate::hir_index::{IndexView, SymbolKind, UseDefKind};
use crate::hir_index_build::{
    arg_step, block_step, built_index, debug_name, index_block, index_instruction, index_statement,
    index_statements, instruction_step, opened_body, ref_step, scope_at, token_step, Scan,
};
use crate::hir_parser::{
    analyze, entry_block, idents_between, is_kind, is_punct_at, lemma_blocks_bounds,
    lemma_instruction_bounds, lemma_instructions_bounds, lemma_line_end_bounds,
    lemma_resync_bounds, lemma_run_of_bounds, lemma_signature_bounds, lemma_statement_bounds,
    line_end, name_at, names_label, no_comment, parse_arg, parse_block, parse_blocks, parse_body,
    parse_instruction, parse_instructions, parse_more_args, parse_program, parse_program_from,
    parse_signature, parse_statement, resolve_block, resolve_blocks, resolve_instruction, resync,
    run_of, starts_block, starts_instruction, without_comments, BasicBlockView, FuncArgView,
    InstructionView, Name, Parsed, StatementView,
};
use crate::hir_tokenizer::{lex, Span, Tok, TokenKind};
use crate::hir_index::OccurrenceView;
use crate::index_laws::{
    consistent, defined_bodies, lemma_bodies_match_definitions, lemma_built_index_consistent,
    lemma_built_index_records_refs, lemma_lookup_finds, occurrence_recorded, spans_apart,
};
use crate::occurrence_laws::{has_label, lemma_built_index_labels};
use crate::lexer_laws::{in_order, lemma_filter_in_order, lemma_lex_in_order};
use crate::scope_laws::{
    all_scoped, args_inside, block_inside, blocks_inside, definition_range, definitions_apart,
    instruction_inside, instructions_inside, lemma_built_index_ranges_apart,
    lemma_built_index_scoped, names_inside, range_of, ranges_apart, statement_scoped,
    statements_scoped,
};
use vstd::prelude::*;

verus! {

// ---------------------------------------------------------------------
// Names come from tokens
// ---------------------------------------------------------------------

/// The kinds of token that the index takes names from.
pub open spec fn is_name_kind(k: TokenKind) -> bool {
    k == TokenKind::GlobalName || k == TokenKind::LocalName || k == TokenKind::DebugRef || k
        == TokenKind::Ident
}

/// Whether `span` is the place of a name at position `i` of the token
/// stream: the span of a name token there.
pub open spec fn site(toks: Seq<Tok>, i: int, span: Span) -> bool {
    0 <= i < toks.len() && is_name_kind(toks[i].0.kind) && toks[i].1 == span
}

/// Whether `span` is the place of a name somewhere in the token stream.
pub open spec fn placed(toks: Seq<Tok>, span: Span) -> bool {
    exists|i: int| #[trigger] site(toks, i, span)
}

/// Whether the name, if there is one, has its place in the token stream.
pub open spec fn name_placed(toks: Seq<Tok>, n: Option<Name>) -> bool {
    match n {
        Some(x) => placed(toks, x.1),
        None => true,
    }
}

/// The names that the index takes from an instruction have their place:
/// the local that it assigns, and its block references.
pub open spec fn instruction_placed(toks: Seq<Tok>, ins: InstructionView) -> bool {
    &&& name_placed(toks, ins.assignment_target)
    &&& forall|i: int|
        0 <= i < ins.basic_block_refs.len() ==> placed(toks, (#[trigger] ins.basic_block_refs[i]).1)
}

/// Every instruction of the list has its names in place.
pub open spec fn instructions_placed(toks: Seq<Tok>, instrs: Seq<InstructionView>) -> bool {
    forall|i: int| 0 <= i < instrs.len() ==> instruction_placed(toks, #[trigger] instrs[i])
}

/// The label of the block and the names of its instructions have their
/// place.
pub open spec fn block_placed(toks: Seq<Tok>, b: BasicBlockView) -> bool {
    &&& name_placed(toks, b.label)
    &&& instructions_placed(toks, b.instructions)
}

/// Every block of the list has its names in place.
pub open spec fn blocks_placed(toks: Seq<Tok>, blocks: Seq<BasicBlockView>) -> bool {
    forall|i: int| 0 <= i < blocks.len() ==> block_placed(toks, #[trigger] blocks[i])
}

/// The name of every argument has its place.
pub open spec fn args_placed(toks: Seq<Tok>, args: Seq<FuncArgView>) -> bool {
    forall|i: int| 0 <= i < args.len() ==> placed(toks, (#[trigger] args[i]).name.1)
}

/// Every name of the statement that the index registers has its place
/// in the token stream.
pub open spec fn statement_placed(toks: Seq<Tok>, stmt: StatementView) -> bool {
    match stmt {
        StatementView::GlobalVar { name, def } => placed(toks, name.1),
        StatementView::FuncDecl { signature, addr } => placed(toks, signature.name.1),
        StatementView::FuncDef { define_kw, signature, body } => {
            &&& placed(toks, signature.name.1)
            &&& args_placed(toks, signature.args)
            &&& blocks_placed(toks, body.basic_blocks)
        },
        StatementView::DbgAnnotation { name, def } => placed(toks, name.1),
    }
}

/// Every statement of the list has its names in place.
pub open spec fn statements_placed(toks: Seq<Tok>, stmts: Seq<StatementView>) -> bool {
    forall|i: int| 0 <= i < stmts.len() ==> statement_placed(toks, #[trigger] stmts[i])
}

proof fn lemma_token_placed(toks: Seq<Tok>, i: int)
    requires
        0 <= i < toks.len(),
        is_name_kind(toks[i].0.kind),
    ensures
        placed(toks, toks[i].1),
        placed(toks, name_at(toks, i).1),
{
    assert(site(toks, i, toks[i].1));
}

proof fn lemma_idents_placed(toks: Seq<Tok>, from: int, to: int)
    requires
        0 <= from,
        to <= toks.len(),
    ensures
        forall|i: int|
            0 <= i < idents_between(toks, from, to).len() ==> placed(
                toks,
                (#[trigger] idents_between(toks, from, to)[i]).1,
            ),
    decreases to - from,
{
    if to > from {
        lemma_idents_placed(toks, from, to - 1);
        let front = idents_between(toks, from, to - 1);
        if toks[to - 1].0.kind == TokenKind::Ident {
            lemma_token_placed(toks, to - 1);
            let all = front.push(name_at(toks, to - 1));
            assert forall|i: int| 0 <= i < all.len() implies placed(
                toks,
                (#[trigger] all[i]).1,
            ) by {
                if i < front.len() {
                    assert(all[i] == front[i]);
                }
            }
        }
    }
}

proof fn lemma_instruction_placed(toks: Seq<Tok>, pos: int)
    requires
        0 <= pos <= toks.len(),
    ensures
        match parse_instruction(toks, pos) {
            Parsed::Read { value, next } => instruction_placed(toks, value),
            Parsed::Stuck { at, expected } => true,
        },
{
    lemma_instruction_bounds(toks, pos);
    if is_kind(toks, pos, TokenKind::Type) {
        if parse_instruction(toks, pos) is Read {
            lemma_token_placed(toks, pos + 1);
            lemma_line_end_bounds(toks, pos + 4);
            lemma_idents_placed(toks, pos + 4, line_end(toks, pos + 4));
        }
    } else if parse_instruction(toks, pos) is Read {
        lemma_line_end_bounds(toks, pos + 1);
        lemma_idents_placed(toks, pos + 1, line_end(toks, pos + 1));
    }
}

proof fn lemma_prepend_placed<T>(
    first: T,
    rest: Seq<T>,
    ok: spec_fn(T) -> bool,
)
    requires
        ok(first),
        forall|i: int| 0 <= i < rest.len() ==> ok(#[trigger] rest[i]),
    ensures
        forall|i: int|
            0 <= i < (seq![first] + rest).len() ==> ok(#[trigger] (seq![first] + rest)[i]),
{
    let all = seq![first] + rest;
    assert forall|i: int| 0 <= i < all.len() implies ok(#[trigger] all[i]) by {
        if i > 0 {
            assert(all[i] == rest[i - 1]);
        }
    }
}

proof fn lemma_instructions_placed(toks: Seq<Tok>, pos: int)
    requires
        0 <= pos <= toks.len(),
    ensures
        match parse_instructions(toks, pos) {
            Parsed::Read { value, next } => instructions_placed(toks, value),
            Parsed::Stuck { at, expected } => true,
        },
    decreases toks.len() - pos,
{
    let p = run_of(toks, pos, TokenKind::Newline);
    lemma_run_of_bounds(toks, pos, TokenKind::Newline);
    if starts_instruction(toks, p) {
        lemma_instruction_bounds(toks, p);
        lemma_instruction_placed(toks, p);
        match parse_instruction(toks, p) {
            Parsed::Read { value, next } => {
                lemma_instructions_placed(toks, next);
                match parse_instructions(toks, next) {
                    Parsed::Read { value: rest, next: end } => {
                        lemma_prepend_placed(
                            value,
                            rest,
                            |ins: InstructionView| instruction_placed(toks, ins),
                        );
                    },
                    Parsed::Stuck { at, expected } => {},
                }
            },
            Parsed::Stuck { at, expected } => {},
        }
    }
}

proof fn lemma_block_placed(toks: Seq<Tok>, pos: int)
    requires
        0 <= pos <= toks.len(),
        starts_block(toks, pos),
    ensures
        match parse_block(toks, pos) {
            Parsed::Read { value, next } => block_placed(toks, value),
            Parsed::Stuck { at, expected } => true,
        },
{
    if is_kind(toks, pos + 2, TokenKind::Newline) {
        lemma_instructions_placed(toks, pos + 3);
        assert(site(toks, pos, toks[pos].1));
    }
}

proof fn lemma_blocks_placed(toks: Seq<Tok>, pos: int)
    requires
        0 <= pos <= toks.len(),
    ensures
        match parse_blocks(toks, pos) {
            Parsed::Read { value, next } => blocks_placed(toks, value),
            Parsed::Stuck { at, expected } => true,
        },
    decreases toks.len() - pos,
{
    if starts_block(toks, pos) {
        lemma_block_placed(toks, pos);
        if is_kind(toks, pos + 2, TokenKind::Newline) {
            lemma_instructions_bounds(toks, pos + 3);
        }
        match parse_block(toks, pos) {
            Parsed::Read { value, next } => {
                lemma_blocks_placed(toks, next);
                match parse_blocks(toks, next) {
                    Parsed::Read { value: rest, next: end } => {
                        lemma_prepend_placed(
                            value,
                            rest,
                            |b: BasicBlockView| block_placed(toks, b),
                        );
                    },
                    Parsed::Stuck { at, expected } => {},
                }
            },
            Parsed::Stuck { at, expected } => {},
        }
    }
}

/// Resolving the block references keeps every name in its place: the
/// references that stay are among those that were there.
proof fn lemma_resolved_placed(toks: Seq<Tok>, blocks: Seq<BasicBlockView>)
    requires
        blocks_placed(toks, blocks),
    ensures
        blocks_placed(toks, resolve_blocks(blocks)),
{
    let resolved = resolve_blocks(blocks);
    assert forall|b: int| 0 <= b < resolved.len() implies block_placed(
        toks,
        #[trigger] resolved[b],
    ) by {
        let was = blocks[b];
        assert(block_placed(toks, was));
        let now = resolved[b];
        assert(now == resolve_block(blocks, was));
        assert forall|i: int| 0 <= i < now.instructions.len() implies instruction_placed(
            toks,
            #[trigger] now.instructions[i],
        ) by {
            let raw = was.instructions[i];
            assert(instruction_placed(toks, raw));
            let ins = now.instructions[i];
            assert(ins == resolve_instruction(blocks, raw));
            assert forall|r: int| 0 <= r < ins.basic_block_refs.len() implies placed(
                toks,
                (#[trigger] ins.basic_block_refs[r]).1,
            ) by {
                let item = ins.basic_block_refs[r];
                assert(ins.basic_block_refs.contains(item));
                raw.basic_block_refs.lemma_filter_contains_rev(names_label(blocks), item);
                let j = choose|j: int|
                    0 <= j < raw.basic_block_refs.len() && raw.basic_block_refs[j] == item;
                assert(placed(toks, raw.basic_block_refs[j].1));
            }
        }
    }
}

proof fn lemma_body_placed(toks: Seq<Tok>, pos: int)
    requires
        0 <= pos <= toks.len(),
    ensures
        match parse_body(toks, pos) {
            Parsed::Read { value, next } => blocks_placed(toks, value.basic_blocks),
            Parsed::Stuck { at, expected } => true,
        },
{
    if is_punct_at(toks, pos, '{') && is_kind(toks, pos + 1, TokenKind::Newline) {
        lemma_instructions_bounds(toks, pos + 2);
        lemma_instructions_placed(toks, pos + 2);
        match parse_instructions(toks, pos + 2) {
            Parsed::Read { value: entry, next: p } => {
                lemma_blocks_bounds(toks, p);
                lemma_blocks_placed(toks, p);
                match parse_blocks(toks, p) {
                    Parsed::Read { value: blocks, next: q } => {
                        let first = entry_block(toks[pos].1, entry);
                        lemma_prepend_placed(
                            first,
                            blocks,
                            |b: BasicBlockView| block_placed(toks, b),
                        );
                        lemma_resolved_placed(toks, seq![first] + blocks);
                    },
                    Parsed::Stuck { at, expected } => {},
                }
            },
            Parsed::Stuck { at, expected } => {},
        }
    }
}

proof fn lemma_more_args_placed(toks: Seq<Tok>, pos: int)
    requires
        0 <= pos <= toks.len(),
    ensures
        match parse_more_args(toks, pos) {
            Parsed::Read { value, next } => args_placed(toks, value),
            Parsed::Stuck { at, expected } => true,
        },
    decreases toks.len() - pos,
{
    if is_punct_at(toks, pos, ',') {
        match parse_arg(toks, pos + 1) {
            Parsed::Read { value, next } => {
                lemma_token_placed(toks, pos + 2);
                lemma_more_args_placed(toks, next);
                match parse_more_args(toks, next) {
                    Parsed::Read { value: rest, next: end } => {
                        lemma_prepend_placed(
                            value,
                            rest,
                            |a: FuncArgView| placed(toks, a.name.1),
                        );
                    },
                    Parsed::Stuck { at, expected } => {},
                }
            },
            Parsed::Stuck { at, expected } => {},
        }
    }
}

proof fn lemma_signature_placed(toks: Seq<Tok>, pos: int)
    requires
        0 <= pos <= toks.len(),
    ensures
        match parse_signature(toks, pos) {
            Parsed::Read { value, next } => placed(toks, value.name.1) && args_placed(
                toks,
                value.args,
            ),
            Parsed::Stuck { at, expected } => true,
        },
{
    let m = run_of(toks, pos, TokenKind::FuncModifier);
    lemma_run_of_bounds(toks, pos, TokenKind::FuncModifier);
    if is_kind(toks, m, TokenKind::Type) && is_kind(toks, m + 1, TokenKind::GlobalName)
        && is_punct_at(toks, m + 2, '(') {
        lemma_token_placed(toks, m + 1);
        if !is_punct_at(toks, m + 3, ')') {
            match parse_arg(toks, m + 3) {
                Parsed::Read { value, next } => {
                    lemma_token_placed(toks, m + 4);
                    lemma_more_args_placed(toks, next);
                    match parse_more_args(toks, next) {
                        Parsed::Read { value: rest, next: end } => {
                            lemma_prepend_placed(
                                value,
                                rest,
                                |a: FuncArgView| placed(toks, a.name.1),
                            );
                        },
                        Parsed::Stuck { at, expected } => {},
                    }
                },
                Parsed::Stuck { at, expected } => {},
            }
        }
    }
}

/// Every name of a statement that was read has its place in the token
/// stream.
pub proof fn lemma_statement_placed(toks: Seq<Tok>, pos: int)
    requires
        0 <= pos <= toks.len(),
    ensures
        match parse_statement(toks, pos) {
            Parsed::Read { value, next } => statement_placed(toks, value),
            Parsed::Stuck { at, expected } => true,
        },
{
    reveal(parse_statement);
    if is_kind(toks, pos, TokenKind::GlobalName) {
        lemma_token_placed(toks, pos);
    } else if is_kind(toks, pos, TokenKind::DebugRef) {
        lemma_token_placed(toks, pos);
    } else if is_kind(toks, pos, TokenKind::Declare) {
        lemma_signature_placed(toks, pos + 1);
    } else if is_kind(toks, pos, TokenKind::Define) {
        lemma_signature_placed(toks, pos + 1);
        lemma_signature_bounds(toks, pos + 1);
        match parse_signature(toks, pos + 1) {
            Parsed::Read { value: signature, next: p } => {
                lemma_body_placed(toks, p);
            },
            Parsed::Stuck { at, expected } => {},
        }
    }
}

/// Every name of every statement of a program has its place in the
/// token stream, and a program has no more statements than tokens.
pub proof fn lemma_program_placed(toks: Seq<Tok>, eof: usize, pos: int)
    requires
        0 <= pos <= toks.len(),
    ensures
        statements_placed(toks, parse_program_from(toks, eof, pos).stmts),
        parse_program_from(toks, eof, pos).stmts.len() <= toks.len() - pos,
    decreases toks.len() - pos,
{
    let p = run_of(toks, pos, TokenKind::Newline);
    lemma_run_of_bounds(toks, pos, TokenKind::Newline);
    if p < toks.len() {
        lemma_statement_bounds(toks, p);
        lemma_statement_placed(toks, p);
        match parse_statement(toks, p) {
            Parsed::Read { value, next } => {
                lemma_program_placed(toks, eof, next);
                lemma_prepend_placed(
                    value,
                    parse_program_from(toks, eof, next).stmts,
                    |s: StatementView| statement_placed(toks, s),
                );
            },
            Parsed::Stuck { at, expected } => {
                lemma_resync_bounds(toks, p + 1);
                lemma_program_placed(toks, eof, resync(toks, p + 1));
            },
        }
    }
}

// ---------------------------------------------------------------------
// Occurrences come from tokens
// ---------------------------------------------------------------------

/// Every occurrence of the reverse index has its place in the token
/// stream.
pub open spec fn index_placed(toks: Seq<Tok>, idx: IndexView) -> bool {
    forall|k: usize| idx.reverse_idx.contains_key(k) ==> placed(toks, idx.reverse_idx[k].span)
}

proof fn lemma_add_global_placed(
    toks: Seq<Tok>,
    idx: IndexView,
    k: SymbolKind,
    ud: UseDefKind,
    span: Span,
    name: Seq<char>,
)
    requires
        index_placed(toks, idx),
        placed(toks, span),
    ensures
        index_placed(toks, idx.add_global(k, ud, span, name)),
{
    let r = idx.add_global(k, ud, span, name);
    assert forall|key: usize| r.reverse_idx.contains_key(key) implies placed(
        toks,
        r.reverse_idx[key].span,
    ) by {
        if key != span.start {
            assert(idx.reverse_idx.contains_key(key));
        } else if idx.reverse_idx.contains_key(key) {
        }
    }
}

proof fn lemma_add_func_local_placed(
    toks: Seq<Tok>,
    idx: IndexView,
    id: usize,
    k: SymbolKind,
    ud: UseDefKind,
    span: Span,
    name: Seq<char>,
)
    requires
        index_placed(toks, idx),
        placed(toks, span),
    ensures
        index_placed(toks, idx.add_func_local(id, k, ud, span, name)),
{
    let r = idx.add_func_local(id, k, ud, span, name);
    assert forall|key: usize| r.reverse_idx.contains_key(key) implies placed(
        toks,
        r.reverse_idx[key].span,
    ) by {
        if key != span.start {
            assert(idx.reverse_idx.contains_key(key));
        } else if idx.reverse_idx.contains_key(key) {
        }
    }
}

proof fn lemma_index_instruction_placed(
    toks: Seq<Tok>,
    idx: IndexView,
    id: usize,
    label: Option<Name>,
    ins: InstructionView,
)
    requires
        index_placed(toks, idx),
        instruction_placed(toks, ins),
    ensures
        index_placed(toks, index_instruction(idx, id, label, ins)),
{
    let defined = match ins.assignment_target {
        Some(t) => idx.add_func_local(id, SymbolKind::LocalVar, UseDefKind::Def, t.1, t.0),
        None => idx,
    };
    match ins.assignment_target {
        Some(t) => {
            lemma_add_func_local_placed(
                toks,
                idx,
                id,
                SymbolKind::LocalVar,
                UseDefKind::Def,
                t.1,
                t.0,
            );
        },
        None => {},
    }
    lemma_refs_placed(toks, defined, id, label, ins.instruction.0, ins.basic_block_refs);
}

/// Registering block references whose names have their place keeps every
/// occurrence in its place.
proof fn lemma_refs_placed(
    toks: Seq<Tok>,
    idx: IndexView,
    id: usize,
    label: Option<Name>,
    mnemonic: Seq<char>,
    refs: Seq<Name>,
)
    requires
        index_placed(toks, idx),
        forall|i: int| 0 <= i < refs.len() ==> placed(toks, (#[trigger] refs[i]).1),
    ensures
        index_placed(toks, refs.fold_left(idx, ref_step(id, label, mnemonic))),
    decreases refs.len(),
{
    if refs.len() > 0 {
        let front = refs.drop_last();
        assert forall|i: int| 0 <= i < front.len() implies placed(
            toks,
            (#[trigger] front[i]).1,
        ) by {
            assert(front[i] == refs[i]);
        }
        lemma_refs_placed(toks, idx, id, label, mnemonic, front);
        let before = front.fold_left(idx, ref_step(id, label, mnemonic));
        let r = refs.last();
        assert(placed(toks, refs[refs.len() - 1].1));
        lemma_add_func_local_placed(
            toks,
            before,
            id,
            SymbolKind::Label,
            UseDefKind::Use,
            r.1,
            r.0,
        );
    }
}

proof fn lemma_instructions_index_placed(
    toks: Seq<Tok>,
    idx: IndexView,
    id: usize,
    label: Option<Name>,
    instrs: Seq<InstructionView>,
)
    requires
        index_placed(toks, idx),
        instructions_placed(toks, instrs),
    ensures
        index_placed(toks, instrs.fold_left(idx, instruction_step(id, label))),
    decreases instrs.len(),
{
    if instrs.len() > 0 {
        let front = instrs.drop_last();
        assert forall|i: int| 0 <= i < front.len() implies instruction_placed(
            toks,
            #[trigger] front[i],
        ) by {
            assert(front[i] == instrs[i]);
        }
        lemma_instructions_index_placed(toks, idx, id, label, front);
        assert(instruction_placed(toks, instrs[instrs.len() - 1]));
        lemma_index_instruction_placed(
            toks,
            front.fold_left(idx, instruction_step(id, label)),
            id,
            label,
            instrs.last(),
        );
    }
}

proof fn lemma_index_block_placed(toks: Seq<Tok>, idx: IndexView, id: usize, block: BasicBlockView)
    requires
        index_placed(toks, idx),
        block_placed(toks, block),
    ensures
        index_placed(toks, index_block(idx, id, block)),
{
    let labelled = match block.label {
        Some(l) => idx.add_func_local(id, SymbolKind::Label, UseDefKind::Def, l.1, l.0),
        None => idx,
    };
    match block.label {
        Some(l) => {
            lemma_add_func_local_placed(
                toks,
                idx,
                id,
                SymbolKind::Label,
                UseDefKind::Def,
                l.1,
                l.0,
            );
        },
        None => {},
    }
    lemma_instructions_index_placed(toks, labelled, id, block.label, block.instructions);
}

proof fn lemma_blocks_index_placed(
    toks: Seq<Tok>,
    idx: IndexView,
    id: usize,
    blocks: Seq<BasicBlockView>,
)
    requires
        index_placed(toks, idx),
        blocks_placed(toks, blocks),
    ensures
        index_placed(toks, blocks.fold_left(idx, block_step(id))),
    decreases blocks.len(),
{
    if blocks.len() > 0 {
        let front = blocks.drop_last();
        assert forall|i: int| 0 <= i < front.len() implies block_placed(
            toks,
            #[trigger] front[i],
        ) by {
            assert(front[i] == blocks[i]);
        }
        lemma_blocks_index_placed(toks, idx, id, front);
        assert(block_placed(toks, blocks[blocks.len() - 1]));
        lemma_index_block_placed(toks, front.fold_left(idx, block_step(id)), id, blocks.last());
    }
}

proof fn lemma_args_index_placed(
    toks: Seq<Tok>,
    idx: IndexView,
    id: usize,
    args: Seq<FuncArgView>,
)
    requires
        index_placed(toks, idx),
        args_placed(toks, args),
    ensures
        index_placed(toks, args.fold_left(idx, arg_step(id))),
    decreases args.len(),
{
    if args.len() > 0 {
        let front = args.drop_last();
        assert forall|i: int| 0 <= i < front.len() implies placed(
            toks,
            (#[trigger] front[i]).name.1,
        ) by {
            assert(front[i] == args[i]);
        }
        lemma_args_index_placed(toks, idx, id, front);
        let a = args.last();
        assert(placed(toks, args[args.len() - 1].name.1));
        lemma_add_func_local_placed(
            toks,
            front.fold_left(idx, arg_step(id)),
            id,
            SymbolKind::LocalVar,
            UseDefKind::Def,
            a.name.1,
            a.name.0,
        );
    }
}

proof fn lemma_index_statement_placed(toks: Seq<Tok>, idx: IndexView, stmt: StatementView)
    requires
        index_placed(toks, idx),
        statement_placed(toks, stmt),
    ensures
        index_placed(toks, index_statement(idx, stmt)),
{
    match stmt {
        StatementView::GlobalVar { name, def } => {
            lemma_add_global_placed(
                toks,
                idx,
                SymbolKind::GlobalVar,
                UseDefKind::Def,
                name.1,
                name.0,
            );
        },
        StatementView::FuncDecl { signature, addr } => {
            lemma_add_global_placed(
                toks,
                idx,
                SymbolKind::Function,
                UseDefKind::Decl,
                signature.name.1,
                signature.name.0,
            );
        },
        StatementView::FuncDef { define_kw, signature, body } => {
            lemma_add_global_placed(
                toks,
                idx,
                SymbolKind::Function,
                UseDefKind::Def,
                signature.name.1,
                signature.name.0,
            );
            let named = idx.add_global(
                SymbolKind::Function,
                UseDefKind::Def,
                signature.name.1,
                signature.name.0,
            );
            let id = idx.function_bodies.len() as usize;
            let opened = IndexView {
                function_bodies: named.function_bodies.push(
                    opened_body(define_kw, signature, body),
                ),
                ..named
            };
            assert(index_placed(toks, opened));
            lemma_args_index_placed(toks, opened, id, signature.args);
            lemma_blocks_index_placed(
                toks,
                signature.args.fold_left(opened, arg_step(id)),
                id,
                body.basic_blocks,
            );
        },
        StatementView::DbgAnnotation { name, def } => {
            lemma_add_global_placed(
                toks,
                idx,
                SymbolKind::DbgAnnotation,
                UseDefKind::Def,
                name.1,
                debug_name(name.0),
            );
        },
    }
}

proof fn lemma_index_statements_placed(toks: Seq<Tok>, stmts: Seq<StatementView>)
    requires
        statements_placed(toks, stmts),
    ensures
        index_placed(toks, index_statements(stmts)),
    decreases stmts.len(),
{
    if stmts.len() > 0 {
        let front = stmts.drop_last();
        assert forall|i: int| 0 <= i < front.len() implies statement_placed(
            toks,
            #[trigger] front[i],
        ) by {
            assert(front[i] == stmts[i]);
        }
        lemma_index_statements_placed(toks, front);
        assert(statement_placed(toks, stmts[stmts.len() - 1]));
        lemma_index_statement_placed(toks, index_statements(front), stmts.last());
    }
}

/// Whether every name token of `tokens` has its place in `toks`.
pub open spec fn names_placed(toks: Seq<Tok>, tokens: Seq<Tok>) -> bool {
    forall|i: int|
        0 <= i < tokens.len() && is_name_kind((#[trigger] tokens[i]).0.kind) ==> placed(
            toks,
            tokens[i].1,
        )
}

proof fn lemma_tokens_index_placed(toks: Seq<Tok>, start: Scan, tokens: Seq<Tok>)
    requires
        index_placed(toks, start.index),
        names_placed(toks, tokens),
    ensures
        index_placed(toks, tokens.fold_left(start, token_step()).index),
    decreases tokens.len(),
{
    if tokens.len() > 0 {
        let front = tokens.drop_last();
        assert forall|i: int|
            0 <= i < front.len() && is_name_kind((#[trigger] front[i]).0.kind) implies placed(
            toks,
            front[i].1,
        ) by {
            assert(front[i] == tokens[i]);
        }
        lemma_tokens_index_placed(toks, start, front);
        let before = front.fold_left(start, token_step());
        let tok = tokens.last();
        assert(tok == tokens[tokens.len() - 1]);
        let text = tok.0.text;
        match tok.0.kind {
            TokenKind::GlobalName => {
                lemma_add_global_placed(
                    toks,
                    before.index,
                    SymbolKind::Function,
                    UseDefKind::Use,
                    tok.1,
                    text,
                );
                lemma_add_global_placed(
                    toks,
                    before.index,
                    SymbolKind::GlobalVar,
                    UseDefKind::Use,
                    tok.1,
                    text,
                );
            },
            TokenKind::DebugRef => {
                lemma_add_global_placed(
                    toks,
                    before.index,
                    SymbolKind::DbgAnnotation,
                    UseDefKind::Use,
                    tok.1,
                    debug_name(text),
                );
            },
            TokenKind::LocalName => {
                match scope_at(before.index.function_bodies, before.cursor, tok.1.start) {
                    Some(id) => {
                        lemma_add_func_local_placed(
                            toks,
                            before.index,
                            id,
                            SymbolKind::LocalVar,
                            UseDefKind::Use,
                            tok.1,
                            text,
                        );
                    },
                    None => {},
                }
            },
            _ => {},
        }
    }
}

// ---------------------------------------------------------------------
// The occurrences of a document lie apart
// ---------------------------------------------------------------------

/// Where the tokens stand in order, two names at different places of the
/// token stream do not overlap; so occurrences that start at different
/// offsets cover no offset in common.
pub proof fn lemma_placed_apart(toks: Seq<Tok>, idx: IndexView)
    requires
        in_order(toks),
        index_placed(toks, idx),
        consistent(idx),
    ensures
        spans_apart(idx),
{
    assert forall|a: usize, b: usize, pos: usize|
        idx.covers_at(a, pos) && idx.covers_at(b, pos) implies a == b by {
        let x = idx.reverse_idx[a].span;
        let y = idx.reverse_idx[b].span;
        assert(occurrence_recorded(idx, a));
        assert(occurrence_recorded(idx, b));
        let i = choose|i: int| #[trigger] site(toks, i, x);
        let j = choose|j: int| #[trigger] site(toks, j, y);
        assert(site(toks, i, x));
        assert(site(toks, j, y));
        if i < j {
            lemma_sites_apart(toks, i, x, j, y);
        } else if j < i {
            lemma_sites_apart(toks, j, y, i, x);
        }
    }
}

/// A name at an earlier place of the token stream ends before a name at
/// a later place starts.
proof fn lemma_sites_apart(toks: Seq<Tok>, i: int, x: Span, j: int, y: Span)
    requires
        in_order(toks),
        site(toks, i, x),
        site(toks, j, y),
        i < j,
    ensures
        x.end <= y.start,
{
    assert(toks[i].1.end <= toks[j].1.start);
}

/// The index of a source text: of its tokens and of the statements that
/// the parser reads from them.
pub open spec fn document_index(src: Seq<u8>) -> IndexView {
    built_index(analyze(src).tokens, analyze(src).stmts)
}

/// The token stream that the parser reads of a source text.
pub open spec fn parsed_tokens(src: Seq<u8>) -> Seq<Tok> {
    without_comments(lex(src).tokens)
}

/// In the index of every source text every occurrence has its place in
/// the token stream that the parser read, and so has every name of every
/// statement; the tokens of that stream stand in order.
pub proof fn lemma_document_placed(src: Seq<u8>)
    requires
        src.len() <= usize::MAX,
    ensures
        in_order(parsed_tokens(src)),
        statements_placed(parsed_tokens(src), analyze(src).stmts),
        analyze(src).stmts.len() <= usize::MAX,
        index_placed(parsed_tokens(src), document_index(src)),
        consistent(document_index(src)),
{
    let all = lex(src).tokens;
    let toks = without_comments(all);
    let eof = src.len() as usize;
    let stmts = parse_program(toks, eof).stmts;
    lemma_lex_in_order(src, 0);
    lemma_filter_in_order(all, no_comment(), src.len() as int);
    lemma_program_placed(toks, eof, 0);
    lemma_index_statements_placed(toks, stmts);
    assert(names_placed(toks, all)) by {
        assert forall|i: int|
            0 <= i < all.len() && is_name_kind((#[trigger] all[i]).0.kind) implies placed(
            toks,
            all[i].1,
        ) by {
            all.lemma_filter_contains(no_comment(), i);
            let at = choose|at: int| 0 <= at < toks.len() && toks[at] == all[i];
            assert(site(toks, at, all[i].1));
        }
    }
    lemma_tokens_index_placed(toks, Scan { index: index_statements(stmts), cursor: None }, all);
    lemma_built_index_consistent(all, stmts);
}

/// In the index of every source text the spans of the occurrences lie
/// apart: no offset is covered by two of them. The index is consistent
/// too.
pub proof fn lemma_document_spans_apart(src: Seq<u8>)
    requires
        src.len() <= usize::MAX,
    ensures
        consistent(document_index(src)),
        spans_apart(document_index(src)),
{
    lemma_document_placed(src);
    lemma_placed_apart(parsed_tokens(src), document_index(src));
}

/// Position lookup is total in the index of every source text: every
/// offset inside the span of an occurrence of the reverse index finds
/// that occurrence.
pub proof fn lemma_document_lookup_total(src: Seq<u8>, k: usize, pos: usize)
    requires
        src.len() <= usize::MAX,
        document_index(src).reverse_idx.contains_key(k),
        document_index(src).reverse_idx[k].span.covers(pos),
    ensures
        document_index(src).symbol_at(pos) == Some(document_index(src).reverse_idx[k]),
{
    lemma_document_spans_apart(src);
    lemma_lookup_finds(document_index(src), k, pos);
}

// ---------------------------------------------------------------------
// The names of a function lie inside it
// ---------------------------------------------------------------------

/// Whether the tokens from position `lo` up to `hi` start inside the
/// range.
pub open spec fn tokens_inside(toks: Seq<Tok>, lo: int, hi: int, range: Span) -> bool {
    forall|i: int|
        lo <= i < hi && 0 <= i < toks.len() ==> range.covers((#[trigger] toks[i]).1.start)
}

proof fn lemma_idents_inside(toks: Seq<Tok>, from: int, to: int, range: Span)
    requires
        0 <= from,
        to <= toks.len(),
        tokens_inside(toks, from, to, range),
    ensures
        names_inside(range, idents_between(toks, from, to)),
    decreases to - from,
{
    if to > from {
        lemma_idents_inside(toks, from, to - 1, range);
        let front = idents_between(toks, from, to - 1);
        if toks[to - 1].0.kind == TokenKind::Ident {
            let all = front.push(name_at(toks, to - 1));
            assert(range.covers(toks[to - 1].1.start));
            assert forall|i: int| 0 <= i < all.len() implies range.covers(
                (#[trigger] all[i]).1.start,
            ) by {
                if i < front.len() {
                    assert(all[i] == front[i]);
                }
            }
        }
    }
}

proof fn lemma_instruction_inside(toks: Seq<Tok>, pos: int, range: Span)
    requires
        0 <= pos <= toks.len(),
    ensures
        match parse_instruction(toks, pos) {
            Parsed::Read { value, next } => tokens_inside(toks, pos, next, range)
                ==> instruction_inside(range, value),
            Parsed::Stuck { at, expected } => true,
        },
{
    lemma_instruction_bounds(toks, pos);
    match parse_instruction(toks, pos) {
        Parsed::Read { value, next } => {
            if tokens_inside(toks, pos, next, range) {
                if is_kind(toks, pos, TokenKind::Type) {
                    lemma_line_end_bounds(toks, pos + 4);
                    assert(range.covers(toks[pos + 1].1.start));
                    lemma_idents_inside(toks, pos + 4, line_end(toks, pos + 4), range);
                } else {
                    lemma_line_end_bounds(toks, pos + 1);
                    lemma_idents_inside(toks, pos + 1, line_end(toks, pos + 1), range);
                }
            }
        },
        Parsed::Stuck { at, expected } => {},
    }
}

proof fn lemma_prepend_inside<T>(first: T, rest: Seq<T>, ok: spec_fn(T) -> bool)
    requires
        ok(first),
        forall|i: int| 0 <= i < rest.len() ==> ok(#[trigger] rest[i]),
    ensures
        forall|i: int|
            0 <= i < (seq![first] + rest).len() ==> ok(#[trigger] (seq![first] + rest)[i]),
{
    lemma_prepend_placed(first, rest, ok);
}

proof fn lemma_instructions_inside(toks: Seq<Tok>, pos: int, range: Span)
    requires
        0 <= pos <= toks.len(),
    ensures
        match parse_instructions(toks, pos) {
            Parsed::Read { value, next } => tokens_inside(toks, pos, next, range)
                ==> instructions_inside(range, value),
            Parsed::Stuck { at, expected } => true,
        },
    decreases toks.len() - pos,
{
    let p = run_of(toks, pos, TokenKind::Newline);
    lemma_run_of_bounds(toks, pos, TokenKind::Newline);
    if starts_instruction(toks, p) {
        lemma_instruction_bounds(toks, p);
        lemma_instruction_inside(toks, p, range);
        match parse_instruction(toks, p) {
            Parsed::Read { value, next } => {
                lemma_instructions_bounds(toks, next);
                lemma_instructions_inside(toks, next, range);
                match parse_instructions(toks, next) {
                    Parsed::Read { value: rest, next: end } => {
                        if tokens_inside(toks, pos, end, range) {
                            assert(tokens_inside(toks, p, next, range));
                            assert(tokens_inside(toks, next, end, range));
                            lemma_prepend_inside(
                                value,
                                rest,
                                |ins: InstructionView| instruction_inside(range, ins),
                            );
                        }
                    },
                    Parsed::Stuck { at, expected } => {},
                }
            },
            Parsed::Stuck { at, expected } => {},
        }
    }
}

proof fn lemma_blocks_inside(toks: Seq<Tok>, pos: int, range: Span)
    requires
        0 <= pos <= toks.len(),
    ensures
        match parse_blocks(toks, pos) {
            Parsed::Read { value, next } => tokens_inside(toks, pos, next, range) ==> blocks_inside(
                range,
                value,
            ),
            Parsed::Stuck { at, expected } => true,
        },
    decreases toks.len() - pos,
{
    if starts_block(toks, pos) {
        if is_kind(toks, pos + 2, TokenKind::Newline) {
            lemma_instructions_bounds(toks, pos + 3);
            lemma_instructions_inside(toks, pos + 3, range);
        }
        match parse_block(toks, pos) {
            Parsed::Read { value, next } => {
                lemma_blocks_bounds(toks, next);
                lemma_blocks_inside(toks, next, range);
                match parse_blocks(toks, next) {
                    Parsed::Read { value: rest, next: end } => {
                        if tokens_inside(toks, pos, end, range) {
                            assert(range.covers(toks[pos].1.start));
                            assert(tokens_inside(toks, pos + 3, next, range));
                            assert(tokens_inside(toks, next, end, range));
                            assert(block_inside(range, value));
                            lemma_prepend_inside(
                                value,
                                rest,
                                |b: BasicBlockView| block_inside(range, b),
                            );
                        }
                    },
                    Parsed::Stuck { at, expected } => {},
                }
            },
            Parsed::Stuck { at, expected } => {},
        }
    }
}

proof fn lemma_resolved_inside(range: Span, blocks: Seq<BasicBlockView>)
    requires
        blocks_inside(range, blocks),
    ensures
        blocks_inside(range, resolve_blocks(blocks)),
{
    let resolved = resolve_blocks(blocks);
    assert forall|b: int| 0 <= b < resolved.len() implies block_inside(
        range,
        #[trigger] resolved[b],
    ) by {
        let was = blocks[b];
        assert(block_inside(range, was));
        let now = resolved[b];
        assert(now == resolve_block(blocks, was));
        assert forall|i: int| 0 <= i < now.instructions.len() implies instruction_inside(
            range,
            #[trigger] now.instructions[i],
        ) by {
            let raw = was.instructions[i];
            assert(instruction_inside(range, raw));
            let ins = now.instructions[i];
            assert(ins == resolve_instruction(blocks, raw));
            assert forall|r: int| 0 <= r < ins.basic_block_refs.len() implies range.covers(
                (#[trigger] ins.basic_block_refs[r]).1.start,
            ) by {
                let item = ins.basic_block_refs[r];
                assert(ins.basic_block_refs.contains(item));
                raw.basic_block_refs.lemma_filter_contains_rev(names_label(blocks), item);
                let j = choose|j: int|
                    0 <= j < raw.basic_block_refs.len() && raw.basic_block_refs[j] == item;
                assert(range.covers(raw.basic_block_refs[j].1.start));
            }
        }
    }
}

proof fn lemma_body_inside(toks: Seq<Tok>, pos: int, range: Span)
    requires
        0 <= pos <= toks.len(),
    ensures
        match parse_body(toks, pos) {
            Parsed::Read { value, next } => tokens_inside(toks, pos, next, range) ==> blocks_inside(
                range,
                value.basic_blocks,
            ),
            Parsed::Stuck { at, expected } => true,
        },
{
    if is_punct_at(toks, pos, '{') && is_kind(toks, pos + 1, TokenKind::Newline) {
        lemma_instructions_bounds(toks, pos + 2);
        lemma_instructions_inside(toks, pos + 2, range);
        match parse_instructions(toks, pos + 2) {
            Parsed::Read { value: entry, next: p } => {
                lemma_blocks_bounds(toks, p);
                lemma_blocks_inside(toks, p, range);
                match parse_blocks(toks, p) {
                    Parsed::Read { value: blocks, next: q } => {
                        if is_punct_at(toks, q, '}') && tokens_inside(toks, pos, q + 1, range) {
                            assert(tokens_inside(toks, pos + 2, p, range));
                            assert(tokens_inside(toks, p, q, range));
                            let first = entry_block(toks[pos].1, entry);
                            assert(block_inside(range, first));
                            lemma_prepend_inside(
                                first,
                                blocks,
                                |b: BasicBlockView| block_inside(range, b),
                            );
                            lemma_resolved_inside(range, seq![first] + blocks);
                        }
                    },
                    Parsed::Stuck { at, expected } => {},
                }
            },
            Parsed::Stuck { at, expected } => {},
        }
    }
}

proof fn lemma_more_args_inside(toks: Seq<Tok>, pos: int, range: Span)
    requires
        0 <= pos <= toks.len(),
    ensures
        match parse_more_args(toks, pos) {
            Parsed::Read { value, next } => tokens_inside(toks, pos, next, range) ==> args_inside(
                range,
                value,
            ),
            Parsed::Stuck { at, expected } => true,
        },
    decreases toks.len() - pos,
{
    if is_punct_at(toks, pos, ',') {
        match parse_arg(toks, pos + 1) {
            Parsed::Read { value, next } => {
                lemma_more_args_inside(toks, next, range);
                match parse_more_args(toks, next) {
                    Parsed::Read { value: rest, next: end } => {
                        if tokens_inside(toks, pos, end, range) {
                            crate::hir_parser::lemma_more_args_bounds(toks, next);
                            assert(range.covers(toks[pos + 2].1.start));
                            assert(tokens_inside(toks, next, end, range));
                            lemma_prepend_inside(
                                value,
                                rest,
                                |a: FuncArgView| range.covers(a.name.1.start),
                            );
                        }
                    },
                    Parsed::Stuck { at, expected } => {},
                }
            },
            Parsed::Stuck { at, expected } => {},
        }
    }
}

proof fn lemma_signature_inside(toks: Seq<Tok>, pos: int, range: Span)
    requires
        0 <= pos <= toks.len(),
    ensures
        match parse_signature(toks, pos) {
            Parsed::Read { value, next } => tokens_inside(toks, pos, next, range) ==> args_inside(
                range,
                value.args,
            ),
            Parsed::Stuck { at, expected } => true,
        },
{
    let m = run_of(toks, pos, TokenKind::FuncModifier);
    lemma_run_of_bounds(toks, pos, TokenKind::FuncModifier);
    if is_kind(toks, m, TokenKind::Type) && is_kind(toks, m + 1, TokenKind::GlobalName)
        && is_punct_at(toks, m + 2, '(') {
        if !is_punct_at(toks, m + 3, ')') {
            match parse_arg(toks, m + 3) {
                Parsed::Read { value, next } => {
                    lemma_more_args_inside(toks, next, range);
                    match parse_more_args(toks, next) {
                        Parsed::Read { value: rest, next: end } => {
                            if tokens_inside(toks, pos, end, range) {
                                crate::hir_parser::lemma_more_args_bounds(toks, next);
                                assert(range.covers(toks[m + 4].1.start));
                                assert(tokens_inside(toks, next, end, range));
                                lemma_prepend_inside(
                                    value,
                                    rest,
                                    |a: FuncArgView| range.covers(a.name.1.start),
                                );
                            }
                        },
                        Parsed::Stuck { at, expected } => {},
                    }
                },
                Parsed::Stuck { at, expected } => {},
            }
        }
    }
}

/// Where the tokens stand in order, the tokens from one position through
/// a later one start inside the range from the start of the first to the
/// end of the last.
proof fn lemma_tokens_inside(toks: Seq<Tok>, lo: int, hi: int)
    requires
        in_order(toks),
        0 <= lo <= hi < toks.len(),
    ensures
        tokens_inside(
            toks,
            lo,
            hi + 1,
            Span { start: toks[lo].1.start, end: toks[hi].1.end },
        ),
{
    let range = Span { start: toks[lo].1.start, end: toks[hi].1.end };
    assert forall|i: int| lo <= i < hi + 1 && 0 <= i < toks.len() implies range.covers(
        (#[trigger] toks[i]).1.start,
    ) by {
        assert(toks[i].1.start < toks[i].1.end);
        if lo < i {
            assert(toks[lo].1.end <= toks[i].1.start);
            assert(toks[lo].1.start < toks[lo].1.end);
        }
        if i < hi {
            assert(toks[i].1.end <= toks[hi].1.start);
            assert(toks[hi].1.start < toks[hi].1.end);
        }
    }
}

/// Where the tokens stand in order, a function definition that was read
/// keeps the names of its arguments, labels, assigned locals and block
/// references inside its range.
pub proof fn lemma_statement_scoped(toks: Seq<Tok>, pos: int)
    requires
        in_order(toks),
        0 <= pos <= toks.len(),
    ensures
        match parse_statement(toks, pos) {
            Parsed::Read { value, next } => statement_scoped(value),
            Parsed::Stuck { at, expected } => true,
        },
{
    reveal(parse_statement);
    if is_kind(toks, pos, TokenKind::Define) {
        lemma_signature_bounds(toks, pos + 1);
        match parse_signature(toks, pos + 1) {
            Parsed::Read { value: signature, next: p } => {
                crate::hir_parser::lemma_body_bounds(toks, p);
                match parse_body(toks, p) {
                    Parsed::Read { value: body, next: q } => {
                        if parse_statement(toks, pos) is Read {
                            let range = range_of(toks[pos].1, body);
                            assert(body.closing_bracket == toks[q - 1].1) by {
                                lemma_instructions_bounds(toks, p + 2);
                                let e = parse_instructions(toks, p + 2)->next;
                                lemma_blocks_bounds(toks, e);
                            }
                            lemma_tokens_inside(toks, pos, q - 1);
                            assert(tokens_inside(toks, pos + 1, p, range));
                            assert(tokens_inside(toks, p, q, range));
                            lemma_signature_inside(toks, pos + 1, range);
                            lemma_body_inside(toks, p, range);
                        }
                    },
                    Parsed::Stuck { at, expected } => {},
                }
            },
            Parsed::Stuck { at, expected } => {},
        }
    }
}

proof fn lemma_program_scoped(toks: Seq<Tok>, eof: usize, pos: int)
    requires
        in_order(toks),
        0 <= pos <= toks.len(),
    ensures
        statements_scoped(parse_program_from(toks, eof, pos).stmts),
    decreases toks.len() - pos,
{
    let p = run_of(toks, pos, TokenKind::Newline);
    lemma_run_of_bounds(toks, pos, TokenKind::Newline);
    if p < toks.len() {
        lemma_statement_bounds(toks, p);
        lemma_statement_scoped(toks, p);
        match parse_statement(toks, p) {
            Parsed::Read { value, next } => {
                lemma_program_scoped(toks, eof, next);
                lemma_prepend_inside(
                    value,
                    parse_program_from(toks, eof, next).stmts,
                    |s: StatementView| statement_scoped(s),
                );
            },
            Parsed::Stuck { at, expected } => {
                lemma_resync_bounds(toks, p + 1);
                lemma_program_scoped(toks, eof, resync(toks, p + 1));
            },
        }
    }
}

/// Whether every function definition among the statements starts at or
/// behind the offset `bound`.
pub open spec fn definitions_from(stmts: Seq<StatementView>, bound: usize) -> bool {
    forall|j: int|
        0 <= j < stmts.len() ==> match definition_range(#[trigger] stmts[j]) {
            Some(r) => bound <= r.start,
            None => true,
        }
}

/// Where the tokens stand in order, a function definition read at `pos`
/// reaches from the start of the token at `pos` to the end of a token in
/// front of the position behind the statement.
proof fn lemma_definition_range(toks: Seq<Tok>, pos: int)
    requires
        in_order(toks),
        0 <= pos <= toks.len(),
    ensures
        match parse_statement(toks, pos) {
            Parsed::Read { value, next } => pos < next <= toks.len() && match definition_range(
                value,
            ) {
                Some(r) => r.start == toks[pos].1.start && r.end <= toks[next - 1].1.end,
                None => true,
            },
            Parsed::Stuck { at, expected } => true,
        },
{
    lemma_statement_bounds(toks, pos);
    reveal(parse_statement);
    if is_kind(toks, pos, TokenKind::Define) {
        lemma_signature_bounds(toks, pos + 1);
        match parse_signature(toks, pos + 1) {
            Parsed::Read { value: signature, next: p } => {
                crate::hir_parser::lemma_body_bounds(toks, p);
                match parse_body(toks, p) {
                    Parsed::Read { value: body, next: q } => {
                        match parse_statement(toks, pos) {
                            Parsed::Read { value, next } => {
                                assert(body.closing_bracket == toks[q - 1].1) by {
                                    lemma_instructions_bounds(toks, p + 2);
                                    let e = parse_instructions(toks, p + 2)->next;
                                    lemma_blocks_bounds(toks, e);
                                }
                                if q - 1 < next - 1 {
                                    assert(toks[q - 1].1.end <= toks[next - 1].1.start);
                                    assert(toks[next - 1].1.start < toks[next - 1].1.end);
                                }
                            },
                            Parsed::Stuck { at, expected } => {},
                        }
                    },
                    Parsed::Stuck { at, expected } => {},
                }
            },
            Parsed::Stuck { at, expected } => {},
        }
    }
}

/// Where the tokens stand in order, the function definitions of a
/// program lie apart, each in front of the next.
proof fn lemma_program_apart(toks: Seq<Tok>, eof: usize, pos: int)
    requires
        in_order(toks),
        0 <= pos <= toks.len(),
    ensures
        definitions_apart(parse_program_from(toks, eof, pos).stmts),
        pos < toks.len() ==> definitions_from(
            parse_program_from(toks, eof, pos).stmts,
            toks[pos].1.start,
        ),
        pos == toks.len() ==> parse_program_from(toks, eof, pos).stmts.len() == 0,
    decreases toks.len() - pos,
{
    let p = run_of(toks, pos, TokenKind::Newline);
    lemma_run_of_bounds(toks, pos, TokenKind::Newline);
    let all = parse_program_from(toks, eof, pos).stmts;
    if p < toks.len() {
        if pos < p {
            assert(toks[pos].1.end <= toks[p].1.start);
            assert(toks[pos].1.start < toks[pos].1.end);
        }
        lemma_definition_range(toks, p);
        match parse_statement(toks, p) {
            Parsed::Read { value, next } => {
                lemma_program_apart(toks, eof, next);
                let rest = parse_program_from(toks, eof, next).stmts;
                assert(all == seq![value] + rest);
                if p < next - 1 {
                    assert(toks[p].1.end <= toks[next - 1].1.start);
                }
                assert(toks[next - 1].1.start < toks[next - 1].1.end);
                if next < toks.len() {
                    assert(toks[next - 1].1.end <= toks[next].1.start);
                }
                assert forall|j: int| 0 <= j < all.len() implies match definition_range(
                    #[trigger] all[j],
                ) {
                    Some(r) => toks[pos].1.start <= r.start,
                    None => true,
                } by {
                    if j > 0 {
                        assert(all[j] == rest[j - 1]);
                    }
                }
                assert forall|i: int, j: int|
                    0 <= i < j < all.len() && definition_range(#[trigger] all[i]) is Some
                        && definition_range(#[trigger] all[j]) is Some implies definition_range(
                    all[i],
                )->0.end <= definition_range(all[j])->0.start by {
                    assert(all[j] == rest[j - 1]);
                    if i > 0 {
                        assert(all[i] == rest[i - 1]);
                    }
                }
            },
            Parsed::Stuck { at, expected } => {
                lemma_resync_bounds(toks, p + 1);
                let q = resync(toks, p + 1);
                lemma_program_apart(toks, eof, q);
                let rest = parse_program_from(toks, eof, q).stmts;
                assert(all == rest);
                if q < toks.len() {
                    assert(toks[p].1.end <= toks[q].1.start);
                    assert(toks[p].1.start < toks[p].1.end);
                }
            },
        }
    }
}

/// In the index of every source text the function bodies lie apart, each
/// in front of the next; so, with the scopes kept, no span is held by the
/// tables of two functions.
pub proof fn lemma_document_functions_apart(src: Seq<u8>)
    requires
        src.len() <= usize::MAX,
    ensures
        all_scoped(document_index(src)),
        ranges_apart(document_index(src).function_bodies),
{
    let all = lex(src).tokens;
    let toks = without_comments(all);
    let eof = src.len() as usize;
    lemma_lex_in_order(src, 0);
    lemma_filter_in_order(all, no_comment(), src.len() as int);
    lemma_program_placed(toks, eof, 0);
    lemma_program_apart(toks, eof, 0);
    lemma_document_scoped(src);
    lemma_built_index_ranges_apart(all, parse_program(toks, eof).stmts);
}

/// Scope isolation in the index of every source text: every span in the
/// tables of labels and of local variables of a function body starts
/// inside the range of that function, from `define` through the closing
/// bracket.
pub proof fn lemma_document_scoped(src: Seq<u8>)
    requires
        src.len() <= usize::MAX,
    ensures
        all_scoped(document_index(src)),
{
    let all = lex(src).tokens;
    let toks = without_comments(all);
    let eof = src.len() as usize;
    lemma_lex_in_order(src, 0);
    lemma_filter_in_order(all, no_comment(), src.len() as int);
    lemma_program_placed(toks, eof, 0);
    lemma_program_scoped(toks, eof, 0);
    lemma_built_index_scoped(all, parse_program(toks, eof).stmts);
}

// ---------------------------------------------------------------------
// The occurrence of a block reference
// ---------------------------------------------------------------------

/// Whether the span is held by no table of the index but the table of
/// labels of the function at place `i`, and there for no name but `name`.
pub open spec fn held_only_as_label(idx: IndexView, i: int, name: Seq<char>, span: Span) -> bool {
    &&& forall|n: Seq<char>|
        idx.global_vars.contains_key(n) ==> !(#[trigger] idx.global_vars[n]).has(span)
    &&& forall|n: Seq<char>|
        idx.functions.contains_key(n) ==> !(#[trigger] idx.functions[n]).has(span)
    &&& forall|n: Seq<char>|
        idx.dgb_annotations.contains_key(n) ==> !(#[trigger] idx.dgb_annotations[n]).has(span)
    &&& forall|j: int, n: Seq<char>|
        0 <= j < idx.function_bodies.len() && idx.function_bodies[j].local_vars.contains_key(n)
            ==> !(#[trigger] idx.function_bodies[j].local_vars[n]).has(span)
    &&& forall|j: int, n: Seq<char>|
        0 <= j < idx.function_bodies.len() && idx.function_bodies[j].labels.contains_key(n) && (
        #[trigger] idx.function_bodies[j].labels[n]).has(span) ==> j == i && n == name
}

proof fn lemma_defined_bodies_placed(toks: Seq<Tok>, stmts: Seq<StatementView>)
    requires
        statements_placed(toks, stmts),
    ensures
        forall|b: int|
            0 <= b < defined_bodies(stmts).len() ==> blocks_placed(
                toks,
                (#[trigger] defined_bodies(stmts)[b]).basic_blocks,
            ),
    decreases stmts.len(),
{
    if stmts.len() > 0 {
        let front = stmts.drop_last();
        assert forall|i: int| 0 <= i < front.len() implies statement_placed(
            toks,
            #[trigger] front[i],
        ) by {
            assert(front[i] == stmts[i]);
        }
        lemma_defined_bodies_placed(toks, front);
        assert(statement_placed(toks, stmts[stmts.len() - 1]));
        let was = defined_bodies(front);
        let now = defined_bodies(stmts);
        assert forall|b: int| 0 <= b < now.len() implies blocks_placed(
            toks,
            (#[trigger] now[b]).basic_blocks,
        ) by {
            if b < was.len() {
                assert(now[b] == was[b]);
            }
        }
    }
}

/// Two names that have their place in a token stream in order and start
/// at the same offset are the same span.
proof fn lemma_placed_same_start(toks: Seq<Tok>, x: Span, y: Span)
    requires
        in_order(toks),
        placed(toks, x),
        placed(toks, y),
        x.start == y.start,
    ensures
        x == y,
{
    let i = choose|i: int| #[trigger] site(toks, i, x);
    let j = choose|j: int| #[trigger] site(toks, j, y);
    assert(site(toks, i, x));
    assert(site(toks, j, y));
    assert(toks[i].1.start < toks[i].1.end);
    assert(toks[j].1.start < toks[j].1.end);
    if i < j {
        lemma_sites_apart(toks, i, x, j, y);
    } else if j < i {
        lemma_sites_apart(toks, j, y, i, x);
    }
}

/// The occurrence of a block reference, a `phi`'s too. In the index of a
/// source text, a label that an instruction of a function names, with a
/// span that no block of the function bears as its label and that no
/// other table holds, is a use of that label; and the reverse index has,
/// at the start of the span, the occurrence of that use in the scope of
/// the function.
pub proof fn lemma_document_reference_occurrence(
    src: Seq<u8>,
    i: int,
    b: int,
    k: int,
    r: int,
)
    requires
        src.len() <= usize::MAX,
        0 <= i < document_index(src).function_bodies.len(),
        ({
            let blocks = document_index(src).function_bodies[i].basic_blocks;
            &&& 0 <= b < blocks.len()
            &&& 0 <= k < blocks[b].instructions.len()
            &&& 0 <= r < blocks[b].instructions[k].basic_block_refs.len()
        }),
        ({
            let idx = document_index(src);
            let body = idx.function_bodies[i];
            let named = body.basic_blocks[b].instructions[k].basic_block_refs[r];
            !has_label(body.basic_blocks, named) && held_only_as_label(idx, i, named.0, named.1)
        }),
    ensures
        ({
            let idx = document_index(src);
            let body = idx.function_bodies[i];
            let named = body.basic_blocks[b].instructions[k].basic_block_refs[r];
            &&& body.labels.contains_key(named.0)
            &&& body.labels[named.0].uses.contains(named.1)
            &&& idx.reverse_idx.contains_key(named.1.start)
            &&& idx.reverse_idx[named.1.start] == OccurrenceView {
                span: named.1,
                use_def: UseDefKind::Use,
                symbol_kind: SymbolKind::Label,
                name: named.0,
                func_body_id: Some(i as usize),
            }
        }),
{
    let idx = document_index(src);
    let toks = parsed_tokens(src);
    let all = lex(src).tokens;
    let stmts = analyze(src).stmts;
    let body = idx.function_bodies[i];
    let ins = body.basic_blocks[b].instructions[k];
    let named = ins.basic_block_refs[r];
    let (name, span) = named;
    lemma_document_placed(src);
    lemma_built_index_records_refs(all, stmts);
    lemma_built_index_labels(all, stmts);
    lemma_bodies_match_definitions(all, stmts);
    lemma_defined_bodies_placed(toks, stmts);
    // The name is recorded, and as a use.
    let labels = body.labels;
    assert(crate::index_laws::blocks_recorded(labels, body.basic_blocks));
    assert(crate::index_laws::instructions_recorded(labels, body.basic_blocks[b].instructions));
    assert(crate::index_laws::labels_hold(labels, ins.basic_block_refs));
    assert(labels.contains_key(name) && labels[name].has(span));
    assert(crate::occurrence_laws::labels_from_blocks(labels, body.basic_blocks));
    assert(labels[name].decls.len() == 0);
    if labels[name].defs.contains(span) {
        assert(has_label(body.basic_blocks, (name, span)));
    }
    if labels[name].decls.contains(span) {
        let at = choose|at: int|
            0 <= at < labels[name].decls.len() && labels[name].decls[at] == span;
    }
    assert(labels[name].uses.contains(span));
    // The reverse index has an occurrence at its start, with its span.
    assert(crate::index_laws::lists_indexed(labels, idx.reverse_idx));
    let key = span.start;
    assert(idx.reverse_idx.contains_key(key));
    let o = idx.reverse_idx[key];
    assert(occurrence_recorded(idx, key));
    assert(placed(toks, o.span));
    assert(blocks_placed(toks, defined_bodies(stmts)[i].basic_blocks));
    assert(block_placed(toks, body.basic_blocks[b]));
    assert(instruction_placed(toks, ins));
    assert(placed(toks, ins.basic_block_refs[r].1));
    lemma_placed_same_start(toks, o.span, span);
    // Its table is the table of labels of the function, its name the label.
    let t = idx.table(o.symbol_kind, o.func_body_id);
    assert(t.contains_key(o.name) && t[o.name].of_kind(o.use_def).contains(span));
    assert(t[o.name].has(span));
    assert(crate::index_laws::body_consistent(idx.function_bodies[i]));
    assert(labels[name].distinct());
}

} // verus!
