//! Where the definitions of labels come from, and which occurrence the
//! reverse index has for a block reference.

use crate::hir_index::{is_new, list_for, IndexView, Lists, SymbolKind, UseDefKind};
use crate::hir_index_build::{
    arg_step, block_step, branches, built_index, index_function, index_statement,
    index_statements, index_token, instruction_step, opened_body, ref_step, token_step, Scan,
};
use crate::hir_parser::{
    BasicBlockView, FuncArgView, FuncBodyView, FuncSignatureView, InstructionView, Name,
    StatementView,
};
use crate::hir_tokenizer::{Span, Tok};
use crate::index_laws::{lemma_index_statements_consistent, lemma_push_contains, lemma_scope};
use crate::scope_laws::lemma_fold_keeps_if;
use vstd::prelude::*;

verus! {

/// Whether one of the blocks has the label `l`, text and span.
pub open spec fn has_label(blocks: Seq<BasicBlockView>, l: Name) -> bool {
    exists|b: int| 0 <= b < blocks.len() && (#[trigger] blocks[b]).label == Some(l)
}

/// Whether the table of labels has its definitions from the labels of
/// the blocks, and no declarations: a label is defined where a block
/// bears it, and nowhere else.
pub open spec fn labels_from_blocks(labels: Lists, blocks: Seq<BasicBlockView>) -> bool {
    &&& forall|n: Seq<char>, x: Span|
        labels.contains_key(n) && (#[trigger] labels[n].defs.contains(x)) ==> has_label(
            blocks,
            (n, x),
        )
    &&& forall|n: Seq<char>| labels.contains_key(n) ==> (#[trigger] labels[n]).decls.len() == 0
}

/// Whether every function body of the index has the definitions of its
/// labels from its blocks.
pub open spec fn all_labels_from_blocks(idx: IndexView) -> bool {
    forall|j: int|
        0 <= j < idx.function_bodies.len() ==> labels_from_blocks(
            (#[trigger] idx.function_bodies[j]).labels,
            idx.function_bodies[j].basic_blocks,
        )
}

/// The indexes whose labels are defined by their blocks, with `n`
/// function bodies of which the one at place `id` has the blocks
/// `blocks`.
pub open spec fn labelled_at(id: usize, blocks: Seq<BasicBlockView>, n: nat) -> spec_fn(
    IndexView,
) -> bool {
    |i: IndexView|
        all_labels_from_blocks(i) && i.function_bodies.len() == n && id < n
            && i.function_bodies[id as int].basic_blocks == blocks
}

/// Whether the span may be recorded as an occurrence of kind `ud` of the
/// label `name`: as a use, or as the definition that a block bears.
pub open spec fn label_step_ok(
    blocks: Seq<BasicBlockView>,
    k: SymbolKind,
    ud: UseDefKind,
    span: Span,
    name: Seq<char>,
) -> bool {
    k != SymbolKind::Label || ud == UseDefKind::Use || (ud == UseDefKind::Def && has_label(
        blocks,
        (name, span),
    ))
}

proof fn lemma_local_labelled(
    idx: IndexView,
    id: usize,
    blocks: Seq<BasicBlockView>,
    k: SymbolKind,
    ud: UseDefKind,
    span: Span,
    name: Seq<char>,
)
    requires
        !k.is_global(),
        labelled_at(id, blocks, idx.function_bodies.len())(idx),
        label_step_ok(blocks, k, ud, span, name),
    ensures
        labelled_at(id, blocks, idx.function_bodies.len())(
            idx.add_func_local(id, k, ud, span, name),
        ),
{
    let after = idx.add_func_local(id, k, ud, span, name);
    let body = idx.function_bodies[id as int];
    assert(labels_from_blocks(body.labels, blocks));
    assert forall|j: int| 0 <= j < after.function_bodies.len() implies labels_from_blocks(
        (#[trigger] after.function_bodies[j]).labels,
        after.function_bodies[j].basic_blocks,
    ) by {
        if j != id {
            assert(labels_from_blocks(
                idx.function_bodies[j].labels,
                idx.function_bodies[j].basic_blocks,
            ));
        } else if k == SymbolKind::Label {
            let t = body.labels;
            let r = after.function_bodies[j].labels;
            let l = list_for(t, name);
            assert forall|n: Seq<char>, x: Span|
                r.contains_key(n) && (#[trigger] r[n].defs.contains(x)) implies has_label(
                blocks,
                (n, x),
            ) by {
                if is_new(t, name, span) && n == name {
                    lemma_push_contains(l.defs, span, x);
                    if !(ud == UseDefKind::Def && x == span) {
                        assert(t.contains_key(n) && t[n].defs.contains(x));
                    }
                } else {
                    assert(t.contains_key(n) && t[n].defs.contains(x));
                }
            }
            assert forall|n: Seq<char>| r.contains_key(n) implies (#[trigger] r[n]).decls.len()
                == 0 by {
                if t.contains_key(n) {
                    assert(t[n].decls.len() == 0);
                }
            }
        }
    }
}

proof fn lemma_instruction_labelled(
    idx: IndexView,
    id: usize,
    blocks: Seq<BasicBlockView>,
    label: Option<Name>,
    ins: InstructionView,
)
    requires
        labelled_at(id, blocks, idx.function_bodies.len())(idx),
    ensures
        labelled_at(id, blocks, idx.function_bodies.len())(
            crate::hir_index_build::index_instruction(idx, id, label, ins),
        ),
{
    let n = idx.function_bodies.len();
    let inv = labelled_at(id, blocks, n);
    let defined = match ins.assignment_target {
        Some(t) => idx.add_func_local(id, SymbolKind::LocalVar, UseDefKind::Def, t.1, t.0),
        None => idx,
    };
    match ins.assignment_target {
        Some(t) => {
            lemma_local_labelled(idx, id, blocks, SymbolKind::LocalVar, UseDefKind::Def, t.1, t.0);
        },
        None => {},
    }
    let step = ref_step(id, label, ins.instruction.0);
    let ok = |r: Name| true;
    assert forall|b: IndexView, r: Name| inv(b) && ok(r) implies inv(#[trigger] step(b, r)) by {
        lemma_local_labelled(b, id, blocks, SymbolKind::Label, UseDefKind::Use, r.1, r.0);
        let used = b.add_func_local(id, SymbolKind::Label, UseDefKind::Use, r.1, r.0);
        if branches(label, ins.instruction.0) {
            let edged = used.with_edge(id, r.0, label->0);
            assert forall|j: int| 0 <= j < edged.function_bodies.len() implies labels_from_blocks(
                (#[trigger] edged.function_bodies[j]).labels,
                edged.function_bodies[j].basic_blocks,
            ) by {
                assert(labels_from_blocks(
                    used.function_bodies[j].labels,
                    used.function_bodies[j].basic_blocks,
                ));
            }
        }
    }
    lemma_fold_keeps_if(ins.basic_block_refs, defined, step, inv, ok);
}

proof fn lemma_block_labelled(
    idx: IndexView,
    id: usize,
    blocks: Seq<BasicBlockView>,
    block: BasicBlockView,
)
    requires
        labelled_at(id, blocks, idx.function_bodies.len())(idx),
        block.label is Some ==> has_label(blocks, block.label->0),
    ensures
        labelled_at(id, blocks, idx.function_bodies.len())(
            crate::hir_index_build::index_block(idx, id, block),
        ),
{
    let n = idx.function_bodies.len();
    let inv = labelled_at(id, blocks, n);
    let labelled = match block.label {
        Some(l) => idx.add_func_local(id, SymbolKind::Label, UseDefKind::Def, l.1, l.0),
        None => idx,
    };
    match block.label {
        Some(l) => {
            lemma_local_labelled(idx, id, blocks, SymbolKind::Label, UseDefKind::Def, l.1, l.0);
        },
        None => {},
    }
    let step = instruction_step(id, block.label);
    let ok = |ins: InstructionView| true;
    assert forall|b: IndexView, ins: InstructionView| inv(b) && ok(ins) implies inv(
        #[trigger] step(b, ins),
    ) by {
        lemma_instruction_labelled(b, id, blocks, block.label, ins);
    }
    lemma_fold_keeps_if(block.instructions, labelled, step, inv, ok);
}

proof fn lemma_function_labelled(
    idx: IndexView,
    define_kw: Span,
    signature: FuncSignatureView,
    body: FuncBodyView,
)
    requires
        idx.function_bodies.len() < usize::MAX,
        all_labels_from_blocks(idx),
    ensures
        all_labels_from_blocks(index_function(idx, define_kw, signature, body)),
{
    let id = idx.function_bodies.len() as usize;
    let n = (idx.function_bodies.len() + 1) as nat;
    let blocks = body.basic_blocks;
    let named = idx.add_global(
        SymbolKind::Function,
        UseDefKind::Def,
        signature.name.1,
        signature.name.0,
    );
    let fresh = opened_body(define_kw, signature, body);
    let opened = IndexView { function_bodies: named.function_bodies.push(fresh), ..named };
    let inv = labelled_at(id, blocks, n);
    assert(inv(opened)) by {
        assert forall|j: int| 0 <= j < opened.function_bodies.len() implies labels_from_blocks(
            (#[trigger] opened.function_bodies[j]).labels,
            opened.function_bodies[j].basic_blocks,
        ) by {
            if j < id {
                assert(labels_from_blocks(
                    idx.function_bodies[j].labels,
                    idx.function_bodies[j].basic_blocks,
                ));
            }
        }
    }
    let astep = arg_step(id);
    let arg_ok = |a: FuncArgView| true;
    assert forall|b: IndexView, a: FuncArgView| inv(b) && arg_ok(a) implies inv(
        #[trigger] astep(b, a),
    ) by {
        lemma_local_labelled(
            b,
            id,
            blocks,
            SymbolKind::LocalVar,
            UseDefKind::Def,
            a.name.1,
            a.name.0,
        );
    }
    lemma_fold_keeps_if(signature.args, opened, astep, inv, arg_ok);
    let bstep = block_step(id);
    let block_ok = |b: BasicBlockView| b.label is Some ==> has_label(blocks, b.label->0);
    assert forall|b: IndexView, block: BasicBlockView| inv(b) && block_ok(block) implies inv(
        #[trigger] bstep(b, block),
    ) by {
        lemma_block_labelled(b, id, blocks, block);
    }
    lemma_fold_keeps_if(
        blocks,
        signature.args.fold_left(opened, astep),
        bstep,
        inv,
        block_ok,
    );
}

proof fn lemma_first_pass_labelled(stmts: Seq<StatementView>)
    requires
        stmts.len() <= usize::MAX,
    ensures
        all_labels_from_blocks(index_statements(stmts)),
    decreases stmts.len(),
{
    if stmts.len() > 0 {
        let front = stmts.drop_last();
        lemma_first_pass_labelled(front);
        lemma_index_statements_consistent(front);
        let before = index_statements(front);
        match stmts.last() {
            StatementView::FuncDef { define_kw, signature, body } => {
                lemma_function_labelled(before, define_kw, signature, body);
            },
            _ => {
                let after = index_statement(before, stmts.last());
                assert(after.function_bodies == before.function_bodies);
            },
        }
    }
}

proof fn lemma_tokens_labelled(start: Scan, tokens: Seq<Tok>)
    requires
        start.index.function_bodies.len() <= usize::MAX,
        all_labels_from_blocks(start.index),
    ensures
        all_labels_from_blocks(tokens.fold_left(start, token_step()).index),
        tokens.fold_left(start, token_step()).index.function_bodies.len()
            == start.index.function_bodies.len(),
    decreases tokens.len(),
{
    if tokens.len() > 0 {
        let front = tokens.drop_last();
        lemma_tokens_labelled(start, front);
        let before = front.fold_left(start, token_step());
        let tok = tokens.last();
        let after = index_token(before, tok);
        lemma_scope(before.index.function_bodies, before.cursor, tok.1.start);
        assert forall|j: int| 0 <= j < after.index.function_bodies.len() implies labels_from_blocks(
            (#[trigger] after.index.function_bodies[j]).labels,
            after.index.function_bodies[j].basic_blocks,
        ) by {
            assert(labels_from_blocks(
                before.index.function_bodies[j].labels,
                before.index.function_bodies[j].basic_blocks,
            ));
        }
    }
}

/// A label is defined where a block bears it, and nowhere else: in every
/// function body of the index of a document, each definition in the table
/// of labels is the label of one of the blocks of the function, and no
/// label has a declaration.
pub proof fn lemma_built_index_labels(tokens: Seq<Tok>, stmts: Seq<StatementView>)
    requires
        stmts.len() <= usize::MAX,
    ensures
        all_labels_from_blocks(built_index(tokens, stmts)),
{
    lemma_first_pass_labelled(stmts);
    lemma_index_statements_consistent(stmts);
    lemma_tokens_labelled(Scan { index: index_statements(stmts), cursor: None }, tokens);
}

} // verus!
