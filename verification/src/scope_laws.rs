//! Scope isolation: what a function body records lies inside the range
//! of the function.

use crate::hir_index::{
    is_new, list_for, recorded, FunctionBodyView, IndexView, Lists, SymbolKind, UseDefKind,
};
use crate::hir_index_build::{
    arg_step, block_step, branches, built_index, index_block, index_function, index_instruction,
    index_statement, index_statements, index_token, instruction_step, opened_body,
    ref_step, scope_at, token_step, Scan,
};
use crate::hir_parser::{
    BasicBlockView, FuncArgView, FuncBodyView, FuncSignatureView, InstructionView, Name,
    StatementView,
};
use crate::hir_tokenizer::{Span, Tok, TokenKind};
use crate::index_laws::{
    defined_bodies, lemma_bodies_match_definitions, lemma_index_statements_consistent,
    lemma_push_contains, lemma_scope,
};
use vstd::prelude::*;

verus! {

// ---------------------------------------------------------------------
// Statements whose names lie inside their function
// ---------------------------------------------------------------------

/// Whether the name, if there is one, starts inside the range.
pub open spec fn name_inside(range: Span, n: Option<Name>) -> bool {
    match n {
        Some(x) => range.covers(x.1.start),
        None => true,
    }
}

/// Whether each of the names starts inside the range.
pub open spec fn names_inside(range: Span, names: Seq<Name>) -> bool {
    forall|i: int| 0 <= i < names.len() ==> range.covers((#[trigger] names[i]).1.start)
}

/// Whether the local that the instruction assigns and its block
/// references start inside the range.
pub open spec fn instruction_inside(range: Span, ins: InstructionView) -> bool {
    name_inside(range, ins.assignment_target) && names_inside(range, ins.basic_block_refs)
}

/// Whether the names of each of the instructions start inside the range.
pub open spec fn instructions_inside(range: Span, instrs: Seq<InstructionView>) -> bool {
    forall|k: int| 0 <= k < instrs.len() ==> instruction_inside(range, #[trigger] instrs[k])
}

/// Whether the label of the block and the names of its instructions
/// start inside the range.
pub open spec fn block_inside(range: Span, b: BasicBlockView) -> bool {
    name_inside(range, b.label) && instructions_inside(range, b.instructions)
}

/// Whether the names of each of the blocks start inside the range.
pub open spec fn blocks_inside(range: Span, blocks: Seq<BasicBlockView>) -> bool {
    forall|b: int| 0 <= b < blocks.len() ==> block_inside(range, #[trigger] blocks[b])
}

/// Whether the name of each of the arguments starts inside the range.
pub open spec fn args_inside(range: Span, args: Seq<FuncArgView>) -> bool {
    forall|i: int| 0 <= i < args.len() ==> range.covers((#[trigger] args[i]).name.1.start)
}

/// The range of a function definition: from its `define` keyword through
/// its closing bracket.
pub open spec fn range_of(define_kw: Span, body: FuncBodyView) -> Span {
    Span { start: define_kw.start, end: body.closing_bracket.end }
}

/// Whether the names that a function definition gives to its scope, of
/// arguments, labels, assigned locals and block references, start inside
/// the range of the definition. Other statements give none.
pub open spec fn statement_scoped(stmt: StatementView) -> bool {
    match stmt {
        StatementView::FuncDef { define_kw, signature, body } => {
            &&& args_inside(range_of(define_kw, body), signature.args)
            &&& blocks_inside(range_of(define_kw, body), body.basic_blocks)
        },
        _ => true,
    }
}

/// Whether every statement keeps its names inside its range.
pub open spec fn statements_scoped(stmts: Seq<StatementView>) -> bool {
    forall|j: int| 0 <= j < stmts.len() ==> statement_scoped(#[trigger] stmts[j])
}

// ---------------------------------------------------------------------
// Function bodies whose spans lie inside their range
// ---------------------------------------------------------------------

/// Whether every span of the table starts inside the range.
pub open spec fn lists_inside(t: Lists, range: Span) -> bool {
    forall|n: Seq<char>, s: Span|
        t.contains_key(n) && (#[trigger] t[n].has(s)) ==> range.covers(s.start)
}

/// Whether every span in the tables of labels and of local variables of
/// the function body starts inside the range of the function.
pub open spec fn body_scoped(b: FunctionBodyView) -> bool {
    lists_inside(b.labels, b.complete_range) && lists_inside(b.local_vars, b.complete_range)
}

/// Whether every function body of the index keeps its spans inside its
/// range.
pub open spec fn all_scoped(idx: IndexView) -> bool {
    forall|j: int|
        0 <= j < idx.function_bodies.len() ==> body_scoped(#[trigger] idx.function_bodies[j])
}

/// The indexes that are scoped and have `range` as the range of the
/// function at place `id`, among `n` functions.
pub open spec fn scoped_at(id: usize, range: Span, n: nat) -> spec_fn(IndexView) -> bool {
    |i: IndexView|
        all_scoped(i) && i.function_bodies.len() == n && id < n
            && i.function_bodies[id as int].complete_range == range
}

/// What holds of every step of a fold over items that are all in order
/// holds of the fold.
pub proof fn lemma_fold_keeps_if<A, B>(
    s: Seq<A>,
    init: B,
    f: spec_fn(B, A) -> B,
    inv: spec_fn(B) -> bool,
    ok: spec_fn(A) -> bool,
)
    requires
        inv(init),
        forall|i: int| 0 <= i < s.len() ==> ok(#[trigger] s[i]),
        forall|b: B, a: A| inv(b) && ok(a) ==> inv(#[trigger] f(b, a)),
    ensures
        inv(s.fold_left(init, f)),
    decreases s.len(),
{
    if s.len() > 0 {
        let front = s.drop_last();
        assert forall|i: int| 0 <= i < front.len() implies ok(#[trigger] front[i]) by {
            assert(front[i] == s[i]);
        }
        lemma_fold_keeps_if(front, init, f, inv, ok);
        assert(ok(s[s.len() - 1]));
    }
}

/// A table whose spans start inside the range keeps them there when a
/// span that starts inside it is recorded.
proof fn lemma_recorded_inside(
    t: Lists,
    range: Span,
    name: Seq<char>,
    ud: UseDefKind,
    span: Span,
)
    requires
        lists_inside(t, range),
        range.covers(span.start),
    ensures
        lists_inside(recorded(t, name, ud, span), range),
{
    let r = recorded(t, name, ud, span);
    let l = list_for(t, name);
    assert forall|n: Seq<char>, s: Span|
        r.contains_key(n) && (#[trigger] r[n].has(s)) implies range.covers(s.start) by {
        if is_new(t, name, span) && n == name {
            lemma_push_contains(l.decls, span, s);
            lemma_push_contains(l.defs, span, s);
            lemma_push_contains(l.uses, span, s);
            if s != span {
                assert(l.has(s));
                assert(t.contains_key(n) && t[n].has(s));
            }
        } else {
            assert(t.contains_key(n) && t[n].has(s));
        }
    }
}

proof fn lemma_local_scoped(
    idx: IndexView,
    id: usize,
    range: Span,
    k: SymbolKind,
    ud: UseDefKind,
    span: Span,
    name: Seq<char>,
)
    requires
        !k.is_global(),
        scoped_at(id, range, idx.function_bodies.len())(idx),
        range.covers(span.start),
    ensures
        scoped_at(id, range, idx.function_bodies.len())(idx.add_func_local(id, k, ud, span, name)),
{
    let after = idx.add_func_local(id, k, ud, span, name);
    let body = idx.function_bodies[id as int];
    assert(body_scoped(body));
    lemma_recorded_inside(body.table(k), range, name, ud, span);
    assert forall|j: int| 0 <= j < after.function_bodies.len() implies body_scoped(
        #[trigger] after.function_bodies[j],
    ) by {
        if j != id {
            assert(body_scoped(idx.function_bodies[j]));
        }
    }
}

proof fn lemma_instruction_scoped(
    idx: IndexView,
    id: usize,
    range: Span,
    label: Option<Name>,
    ins: InstructionView,
)
    requires
        scoped_at(id, range, idx.function_bodies.len())(idx),
        instruction_inside(range, ins),
    ensures
        scoped_at(id, range, idx.function_bodies.len())(index_instruction(idx, id, label, ins)),
{
    let n = idx.function_bodies.len();
    let inv = scoped_at(id, range, n);
    let defined = match ins.assignment_target {
        Some(t) => idx.add_func_local(id, SymbolKind::LocalVar, UseDefKind::Def, t.1, t.0),
        None => idx,
    };
    match ins.assignment_target {
        Some(t) => {
            lemma_local_scoped(idx, id, range, SymbolKind::LocalVar, UseDefKind::Def, t.1, t.0);
        },
        None => {},
    }
    let step = ref_step(id, label, ins.instruction.0);
    let ok = |r: Name| range.covers(r.1.start);
    assert forall|b: IndexView, r: Name| inv(b) && ok(r) implies inv(#[trigger] step(b, r)) by {
        lemma_local_scoped(b, id, range, SymbolKind::Label, UseDefKind::Use, r.1, r.0);
        let used = b.add_func_local(id, SymbolKind::Label, UseDefKind::Use, r.1, r.0);
        if branches(label, ins.instruction.0) {
            let edged = used.with_edge(id, r.0, label->0);
            assert forall|j: int| 0 <= j < edged.function_bodies.len() implies body_scoped(
                #[trigger] edged.function_bodies[j],
            ) by {
                assert(body_scoped(used.function_bodies[j]));
            }
        }
    }
    lemma_fold_keeps_if(ins.basic_block_refs, defined, step, inv, ok);
}

proof fn lemma_block_scoped(idx: IndexView, id: usize, range: Span, block: BasicBlockView)
    requires
        scoped_at(id, range, idx.function_bodies.len())(idx),
        block_inside(range, block),
    ensures
        scoped_at(id, range, idx.function_bodies.len())(index_block(idx, id, block)),
{
    let n = idx.function_bodies.len();
    let inv = scoped_at(id, range, n);
    let labelled = match block.label {
        Some(l) => idx.add_func_local(id, SymbolKind::Label, UseDefKind::Def, l.1, l.0),
        None => idx,
    };
    match block.label {
        Some(l) => {
            lemma_local_scoped(idx, id, range, SymbolKind::Label, UseDefKind::Def, l.1, l.0);
        },
        None => {},
    }
    let step = instruction_step(id, block.label);
    let ok = |ins: InstructionView| instruction_inside(range, ins);
    assert forall|b: IndexView, ins: InstructionView| inv(b) && ok(ins) implies inv(
        #[trigger] step(b, ins),
    ) by {
        lemma_instruction_scoped(b, id, range, block.label, ins);
    }
    lemma_fold_keeps_if(block.instructions, labelled, step, inv, ok);
}

proof fn lemma_function_scoped(
    idx: IndexView,
    define_kw: Span,
    signature: FuncSignatureView,
    body: FuncBodyView,
)
    requires
        idx.function_bodies.len() < usize::MAX,
        all_scoped(idx),
        statement_scoped(StatementView::FuncDef { define_kw, signature, body }),
    ensures
        all_scoped(index_function(idx, define_kw, signature, body)),
{
    let id = idx.function_bodies.len() as usize;
    let n = (idx.function_bodies.len() + 1) as nat;
    let range = range_of(define_kw, body);
    let named = idx.add_global(
        SymbolKind::Function,
        UseDefKind::Def,
        signature.name.1,
        signature.name.0,
    );
    let fresh = opened_body(define_kw, signature, body);
    let opened = IndexView { function_bodies: named.function_bodies.push(fresh), ..named };
    let inv = scoped_at(id, range, n);
    assert(inv(opened)) by {
        assert forall|j: int| 0 <= j < opened.function_bodies.len() implies body_scoped(
            #[trigger] opened.function_bodies[j],
        ) by {
            if j < id {
                assert(body_scoped(idx.function_bodies[j]));
            }
        }
    }
    let astep = arg_step(id);
    let arg_ok = |a: FuncArgView| range.covers(a.name.1.start);
    assert forall|b: IndexView, a: FuncArgView| inv(b) && arg_ok(a) implies inv(
        #[trigger] astep(b, a),
    ) by {
        lemma_local_scoped(b, id, range, SymbolKind::LocalVar, UseDefKind::Def, a.name.1, a.name.0);
    }
    lemma_fold_keeps_if(signature.args, opened, astep, inv, arg_ok);
    let bstep = block_step(id);
    let block_ok = |b: BasicBlockView| block_inside(range, b);
    assert forall|b: IndexView, block: BasicBlockView| inv(b) && block_ok(block) implies inv(
        #[trigger] bstep(b, block),
    ) by {
        lemma_block_scoped(b, id, range, block);
    }
    lemma_fold_keeps_if(
        body.basic_blocks,
        signature.args.fold_left(opened, astep),
        bstep,
        inv,
        block_ok,
    );
}

proof fn lemma_first_pass_scoped(stmts: Seq<StatementView>)
    requires
        stmts.len() <= usize::MAX,
        statements_scoped(stmts),
    ensures
        all_scoped(index_statements(stmts)),
    decreases stmts.len(),
{
    if stmts.len() > 0 {
        let front = stmts.drop_last();
        assert forall|j: int| 0 <= j < front.len() implies statement_scoped(
            #[trigger] front[j],
        ) by {
            assert(front[j] == stmts[j]);
        }
        lemma_first_pass_scoped(front);
        lemma_index_statements_consistent(front);
        let before = index_statements(front);
        assert(statement_scoped(stmts[stmts.len() - 1]));
        match stmts.last() {
            StatementView::FuncDef { define_kw, signature, body } => {
                lemma_function_scoped(before, define_kw, signature, body);
            },
            _ => {
                let after = index_statement(before, stmts.last());
                assert(after.function_bodies == before.function_bodies);
            },
        }
    }
}

proof fn lemma_tokens_scoped(start: Scan, tokens: Seq<Tok>)
    requires
        start.index.function_bodies.len() <= usize::MAX,
        all_scoped(start.index),
    ensures
        all_scoped(tokens.fold_left(start, token_step()).index),
        tokens.fold_left(start, token_step()).index.function_bodies.len()
            == start.index.function_bodies.len(),
    decreases tokens.len(),
{
    if tokens.len() > 0 {
        let front = tokens.drop_last();
        lemma_tokens_scoped(start, front);
        let before = front.fold_left(start, token_step());
        let tok = tokens.last();
        let after = index_token(before, tok);
        if tok.0.kind == TokenKind::LocalName {
            lemma_scope(before.index.function_bodies, before.cursor, tok.1.start);
            match scope_at(before.index.function_bodies, before.cursor, tok.1.start) {
                Some(id) => {
                    lemma_local_scoped(
                        before.index,
                        id,
                        before.index.function_bodies[id as int].complete_range,
                        SymbolKind::LocalVar,
                        UseDefKind::Use,
                        tok.1,
                        tok.0.text,
                    );
                },
                None => {},
            }
        } else {
            assert(after.index.function_bodies == before.index.function_bodies);
        }
    }
}

/// Scope isolation: where every function definition keeps its names
/// inside its range, every span in the tables of labels and of local
/// variables of a function body of the index starts inside the range of
/// that function.
pub proof fn lemma_built_index_scoped(tokens: Seq<Tok>, stmts: Seq<StatementView>)
    requires
        stmts.len() <= usize::MAX,
        statements_scoped(stmts),
    ensures
        all_scoped(built_index(tokens, stmts)),
{
    lemma_first_pass_scoped(stmts);
    lemma_index_statements_consistent(stmts);
    lemma_tokens_scoped(Scan { index: index_statements(stmts), cursor: None }, tokens);
}

// ---------------------------------------------------------------------
// Functions that lie apart
// ---------------------------------------------------------------------

/// The range of the statement, if it is a function definition.
pub open spec fn definition_range(stmt: StatementView) -> Option<Span> {
    match stmt {
        StatementView::FuncDef { define_kw, signature, body } => Some(range_of(define_kw, body)),
        _ => None,
    }
}

/// Whether each function definition ends before the next one starts.
pub open spec fn definitions_apart(stmts: Seq<StatementView>) -> bool {
    forall|i: int, j: int|
        0 <= i < j < stmts.len() && definition_range(#[trigger] stmts[i]) is Some
            && definition_range(#[trigger] stmts[j]) is Some ==> definition_range(stmts[i])->0.end
            <= definition_range(stmts[j])->0.start
}

/// Whether each function body ends before the next one starts.
pub open spec fn ranges_apart(bodies: Seq<FunctionBodyView>) -> bool {
    forall|i: int, j: int|
        0 <= i < j < bodies.len() ==> (#[trigger] bodies[i]).complete_range.end <= (
        #[trigger] bodies[j]).complete_range.start
}

/// Whether the function body has a span in one of its two tables.
pub open spec fn body_holds(b: FunctionBodyView, span: Span) -> bool {
    ||| exists|n: Seq<char>| b.labels.contains_key(n) && #[trigger] b.labels[n].has(span)
    ||| exists|n: Seq<char>| b.local_vars.contains_key(n) && #[trigger] b.local_vars[n].has(span)
}

/// Whether some statement is a function definition with this range.
pub open spec fn has_definition(stmts: Seq<StatementView>, range: Span) -> bool {
    exists|j: int| 0 <= j < stmts.len() && definition_range(#[trigger] stmts[j]) == Some(range)
}

proof fn lemma_defined_bodies_apart(stmts: Seq<StatementView>)
    requires
        definitions_apart(stmts),
    ensures
        ranges_apart(defined_bodies(stmts)),
        forall|b: int|
            0 <= b < defined_bodies(stmts).len() ==> has_definition(
                stmts,
                (#[trigger] defined_bodies(stmts)[b]).complete_range,
            ),
    decreases stmts.len(),
{
    if stmts.len() > 0 {
        let front = stmts.drop_last();
        let last = stmts.last();
        assert(definitions_apart(front)) by {
            assert forall|i: int, j: int|
                0 <= i < j < front.len() && definition_range(#[trigger] front[i]) is Some
                    && definition_range(#[trigger] front[j]) is Some implies definition_range(
                front[i],
            )->0.end <= definition_range(front[j])->0.start by {
                assert(front[i] == stmts[i]);
                assert(front[j] == stmts[j]);
            }
        }
        lemma_defined_bodies_apart(front);
        let was = defined_bodies(front);
        let now = defined_bodies(stmts);
        assert forall|b: int| 0 <= b < now.len() implies has_definition(
            stmts,
            (#[trigger] now[b]).complete_range,
        ) by {
            if b < was.len() {
                assert(now[b] == was[b]);
                assert(has_definition(front, was[b].complete_range));
                let j = choose|j: int|
                    0 <= j < front.len() && definition_range(#[trigger] front[j]) == Some(
                        was[b].complete_range,
                    );
                assert(front[j] == stmts[j]);
            } else {
                assert(definition_range(stmts[stmts.len() - 1]) == Some(now[b].complete_range));
            }
        }
        assert forall|i: int, j: int| 0 <= i < j < now.len() implies (
        #[trigger] now[i]).complete_range.end <= (#[trigger] now[j]).complete_range.start by {
            assert(now[i] == was[i]);
            if j < was.len() {
                assert(now[j] == was[j]);
            } else {
                assert(has_definition(front, was[i].complete_range));
                let k = choose|k: int|
                    0 <= k < front.len() && definition_range(#[trigger] front[k]) == Some(
                        was[i].complete_range,
                    );
                assert(front[k] == stmts[k]);
                assert(definition_range(stmts[stmts.len() - 1]) is Some);
            }
        }
    }
}

/// Where the function definitions lie apart, so do the function bodies
/// of the index.
pub proof fn lemma_built_index_ranges_apart(tokens: Seq<Tok>, stmts: Seq<StatementView>)
    requires
        stmts.len() <= usize::MAX,
        definitions_apart(stmts),
    ensures
        ranges_apart(built_index(tokens, stmts).function_bodies),
{
    lemma_defined_bodies_apart(stmts);
    lemma_bodies_match_definitions(tokens, stmts);
    let bodies = built_index(tokens, stmts).function_bodies;
    let defined = defined_bodies(stmts);
    assert forall|i: int, j: int| 0 <= i < j < bodies.len() implies (
    #[trigger] bodies[i]).complete_range.end <= (#[trigger] bodies[j]).complete_range.start by {
        assert(defined[i].complete_range.end <= defined[j].complete_range.start);
    }
}

/// A span that one function body holds, no other holds: where every body
/// keeps its spans inside its range and the ranges lie apart, the tables
/// of two functions have no span in common, whatever names they share.
pub proof fn lemma_scopes_share_no_span(idx: IndexView, a: int, b: int, span: Span)
    requires
        all_scoped(idx),
        ranges_apart(idx.function_bodies),
        0 <= a < idx.function_bodies.len(),
        0 <= b < idx.function_bodies.len(),
        a != b,
        body_holds(idx.function_bodies[a], span),
    ensures
        !body_holds(idx.function_bodies[b], span),
{
    let x = idx.function_bodies[a];
    let y = idx.function_bodies[b];
    assert(body_scoped(x));
    assert(body_scoped(y));
    assert(x.complete_range.covers(span.start));
    if body_holds(y, span) {
        assert(y.complete_range.covers(span.start));
        if a < b {
            assert(x.complete_range.end <= y.complete_range.start);
        } else {
            assert(y.complete_range.end <= x.complete_range.start);
        }
    }
}

} // verus!
