//! What the index of a document is: the model of building it from the
//! statements and the tokens, step by step.

use crate::hir_index::{with_edge, FunctionBodyView, IndexView, SymbolKind, UseDefKind};
use crate::hir_parser::{
    BasicBlockView, FuncArgView, FuncBodyView, FuncSignatureView, InstructionView, Name,
    StatementView,
};
use crate::hir_tokenizer::{Span, Tok, TokenKind};

use vstd::prelude::*;
use vstd::string::*;

verus! {

/// The name under which a debug annotation is indexed: its number behind
/// the `!` that the source writes in front of it.
pub open spec fn debug_name(text: Seq<char>) -> Seq<char> {
    seq!['!'] + text
}

/// Registers the definition of one argument.
pub open spec fn arg_step(id: usize) -> spec_fn(IndexView, FuncArgView) -> IndexView {
    |acc: IndexView, a: FuncArgView|
        acc.add_func_local(id, SymbolKind::LocalVar, UseDefKind::Def, a.name.1, a.name.0)
}

/// Whether an instruction with this mnemonic, in a block with this label,
/// branches to the blocks that it names: a `phi` names the blocks that
/// control came from, and the entry block has no label to branch from.
pub open spec fn branches(label: Option<Name>, mnemonic: Seq<char>) -> bool {
    mnemonic != "phi"@ && label is Some
}

/// Registers one block reference of an instruction: a use of the label,
/// and an edge to it from the block that holds the instruction, where the
/// instruction branches.
pub open spec fn index_ref(
    idx: IndexView,
    id: usize,
    label: Option<Name>,
    mnemonic: Seq<char>,
    r: Name,
) -> IndexView {
    let used = idx.add_func_local(id, SymbolKind::Label, UseDefKind::Use, r.1, r.0);
    if branches(label, mnemonic) {
        used.with_edge(id, r.0, label->0)
    } else {
        used
    }
}

/// `index_ref` as one step of a fold over the block references of an
/// instruction.
pub open spec fn ref_step(id: usize, label: Option<Name>, mnemonic: Seq<char>) -> spec_fn(
    IndexView,
    Name,
) -> IndexView {
    |acc: IndexView, r: Name| index_ref(acc, id, label, mnemonic, r)
}

/// Registers one instruction of a block with the given label: the
/// definition of the local that it assigns, then its block references.
pub open spec fn index_instruction(
    idx: IndexView,
    id: usize,
    label: Option<Name>,
    ins: InstructionView,
) -> IndexView {
    let defined = match ins.assignment_target {
        Some(t) => idx.add_func_local(id, SymbolKind::LocalVar, UseDefKind::Def, t.1, t.0),
        None => idx,
    };
    ins.basic_block_refs.fold_left(defined, ref_step(id, label, ins.instruction.0))
}

/// `index_instruction` as one step of a fold over the instructions of a
/// block.
pub open spec fn instruction_step(id: usize, label: Option<Name>) -> spec_fn(
    IndexView,
    InstructionView,
) -> IndexView {
    |acc: IndexView, ins: InstructionView| index_instruction(acc, id, label, ins)
}

/// Registers one basic block: the definition of its label, then its
/// instructions.
pub open spec fn index_block(idx: IndexView, id: usize, block: BasicBlockView) -> IndexView {
    let labelled = match block.label {
        Some(l) => idx.add_func_local(id, SymbolKind::Label, UseDefKind::Def, l.1, l.0),
        None => idx,
    };
    block.instructions.fold_left(labelled, instruction_step(id, block.label))
}

/// `index_block` as one step of a fold over the blocks of a function.
pub open spec fn block_step(id: usize) -> spec_fn(IndexView, BasicBlockView) -> IndexView {
    |acc: IndexView, block: BasicBlockView| index_block(acc, id, block)
}

/// The entry that a function definition opens in the list of function
/// bodies: its tables are empty.
pub open spec fn opened_body(
    define_kw: Span,
    signature: FuncSignatureView,
    body: FuncBodyView,
) -> FunctionBodyView {
    FunctionBodyView {
        name: signature.name,
        complete_range: Span { start: define_kw.start, end: body.closing_bracket.end },
        labels: Map::empty(),
        local_vars: Map::empty(),
        basic_blocks: body.basic_blocks,
        incoming_bb_branches: Map::empty(),
    }
}

/// Registers a function definition: the definition of its name, a new
/// function body, and in the scope of that body the arguments and the
/// blocks.
pub open spec fn index_function(
    idx: IndexView,
    define_kw: Span,
    signature: FuncSignatureView,
    body: FuncBodyView,
) -> IndexView {
    let named = idx.add_global(
        SymbolKind::Function,
        UseDefKind::Def,
        signature.name.1,
        signature.name.0,
    );
    let id = idx.function_bodies.len() as usize;
    let opened = IndexView {
        function_bodies: named.function_bodies.push(opened_body(define_kw, signature, body)),
        ..named
    };
    body.basic_blocks.fold_left(signature.args.fold_left(opened, arg_step(id)), block_step(id))
}

/// Registers what one statement declares or defines.
pub open spec fn index_statement(idx: IndexView, stmt: StatementView) -> IndexView {
    match stmt {
        StatementView::GlobalVar { name, def } => idx.add_global(
            SymbolKind::GlobalVar,
            UseDefKind::Def,
            name.1,
            name.0,
        ),
        StatementView::FuncDecl { signature, addr } => idx.add_global(
            SymbolKind::Function,
            UseDefKind::Decl,
            signature.name.1,
            signature.name.0,
        ),
        StatementView::FuncDef { define_kw, signature, body } => index_function(
            idx,
            define_kw,
            signature,
            body,
        ),
        StatementView::DbgAnnotation { name, def } => idx.add_global(
            SymbolKind::DbgAnnotation,
            UseDefKind::Def,
            name.1,
            debug_name(name.0),
        ),
    }
}

/// `index_statement` as one step of a fold over the statements.
pub open spec fn statement_step() -> spec_fn(IndexView, StatementView) -> IndexView {
    |acc: IndexView, stmt: StatementView| index_statement(acc, stmt)
}

/// The first pass: the declarations and definitions of all statements.
pub open spec fn index_statements(stmts: Seq<StatementView>) -> IndexView {
    stmts.fold_left(IndexView::empty(), statement_step())
}

/// The place of the first function body from place `from` on whose range
/// covers the byte offset `pos`.
pub open spec fn enclosing_from(bodies: Seq<FunctionBodyView>, pos: usize, from: int) -> Option<
    usize,
>
    decreases bodies.len() - from,
{
    if !(0 <= from < bodies.len()) {
        None
    } else if bodies[from].complete_range.covers(pos) {
        Some(from as usize)
    } else {
        enclosing_from(bodies, pos, from + 1)
    }
}

/// The function in whose scope a local name at offset `pos` is looked up:
/// the one that the last local name was found in, if its range covers
/// `pos` too, and else the first one whose range does.
pub open spec fn scope_at(
    bodies: Seq<FunctionBodyView>,
    cursor: Option<usize>,
    pos: usize,
) -> Option<usize> {
    if cursor is Some && cursor->0 < bodies.len() && bodies[cursor->0 as int].complete_range.covers(
        pos,
    ) {
        cursor
    } else {
        enclosing_from(bodies, pos, 0)
    }
}

/// The state of the second pass: the index so far, and the function that
/// the last local name was found in.
pub struct Scan {
    pub index: IndexView,
    pub cursor: Option<usize>,
}

/// Registers the use that one token stands for.
///
/// A global name is a use of a function if the first pass knows a
/// function of that name, and else of a global variable. A debug
/// reference is a use of a debug annotation. A local name is a use of a
/// local variable of the function that encloses it; outside every
/// function it is dropped. Other tokens are no uses.
pub open spec fn index_token(s: Scan, tok: Tok) -> Scan {
    let text = tok.0.text;
    match tok.0.kind {
        TokenKind::GlobalName => Scan {
            index: if s.index.functions.contains_key(text) {
                s.index.add_global(SymbolKind::Function, UseDefKind::Use, tok.1, text)
            } else {
                s.index.add_global(SymbolKind::GlobalVar, UseDefKind::Use, tok.1, text)
            },
            cursor: s.cursor,
        },
        TokenKind::DebugRef => Scan {
            index: s.index.add_global(
                SymbolKind::DbgAnnotation,
                UseDefKind::Use,
                tok.1,
                debug_name(text),
            ),
            cursor: s.cursor,
        },
        TokenKind::LocalName => {
            let scope = scope_at(s.index.function_bodies, s.cursor, tok.1.start);
            Scan {
                index: match scope {
                    Some(id) => s.index.add_func_local(
                        id,
                        SymbolKind::LocalVar,
                        UseDefKind::Use,
                        tok.1,
                        text,
                    ),
                    None => s.index,
                },
                cursor: scope,
            }
        },
        _ => s,
    }
}

/// `index_token` as one step of a fold over the tokens.
pub open spec fn token_step() -> spec_fn(Scan, Tok) -> Scan {
    |acc: Scan, tok: Tok| index_token(acc, tok)
}

/// The index of a document with these tokens and statements: the first
/// pass over all statements, then the second pass over all tokens.
pub open spec fn built_index(tokens: Seq<Tok>, stmts: Seq<StatementView>) -> IndexView {
    tokens.fold_left(Scan { index: index_statements(stmts), cursor: None }, token_step()).index
}

/// Folding over one item more is one step more.
pub proof fn lemma_fold_next<A, B>(s: Seq<A>, i: int, init: B, f: spec_fn(B, A) -> B)
    requires
        0 <= i < s.len(),
    ensures
        s.take(i + 1).fold_left(init, f) == f(s.take(i).fold_left(init, f), s[i]),
        s.take(0).fold_left(init, f) == init,
        s.take(s.len() as int) == s,
{
    assert(s.take(i + 1).drop_last() =~= s.take(i));
    assert(s.take(s.len() as int) =~= s);
}

} // verus!
