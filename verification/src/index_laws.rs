//! What holds of every index: laws of the operations that build it.

use crate::hir_index::{
    is_new, list_for, recorded, sources_of, with_edge, Edges, FunctionBodyView, IndexView, Lists,
    OccurrenceView, Occurrences, SymbolKind, UseDefKind, UseDefView,
};
use crate::hir_index_build::{
    arg_step, block_step, branches, built_index, index_block, index_function, index_instruction,
    index_ref, index_statement, index_statements, index_token, instruction_step, opened_body,
    ref_step, scope_at, enclosing_from, token_step, Scan,
};
use crate::hir_parser::{
    BasicBlockView, FuncArgView, FuncBodyView, FuncSignatureView, InstructionView, Name,
    StatementView,
};
use crate::hir_tokenizer::{Tok, TokenKind};
use crate::hir_tokenizer::Span;
use vstd::prelude::*;

verus! {

// ---------------------------------------------------------------------
// One list, one table
// ---------------------------------------------------------------------

/// Adding a span that a list does not hold keeps its spans distinct, and
/// keeps all that it held.
pub proof fn lemma_with_keeps_distinct(l: UseDefView, ud: UseDefKind, span: Span)
    requires
        l.distinct(),
        !l.has(span),
    ensures
        l.with(ud, span).distinct(),
        l.with(ud, span).has(span),
        l.with(ud, span).of_kind(ud) == l.of_kind(ud).push(span),
        forall|s: Span| l.has(s) ==> l.with(ud, span).has(s),
{
    let m = l.with(ud, span);
    lemma_push_fresh(l.of_kind(ud), span);
    assert forall|s: Span| l.has(s) implies m.has(s) by {
        lemma_push_contains(l.decls, span, s);
        lemma_push_contains(l.defs, span, s);
        lemma_push_contains(l.uses, span, s);
    }
    assert forall|s: Span| !(m.decls.contains(s) && m.defs.contains(s)) by {
        lemma_push_contains(l.decls, span, s);
        lemma_push_contains(l.defs, span, s);
    }
    assert forall|s: Span| !(m.decls.contains(s) && m.uses.contains(s)) by {
        lemma_push_contains(l.decls, span, s);
        lemma_push_contains(l.uses, span, s);
    }
    assert forall|s: Span| !(m.defs.contains(s) && m.uses.contains(s)) by {
        lemma_push_contains(l.defs, span, s);
        lemma_push_contains(l.uses, span, s);
    }
    lemma_push_contains(l.of_kind(ud), span, span);
}

/// What a sequence holds after a push: what it held, and the new item.
pub proof fn lemma_push_contains<T>(v: Seq<T>, item: T, x: T)
    ensures
        v.push(item).contains(x) <==> (v.contains(x) || x == item),
{
    if v.contains(x) {
        let i = choose|i: int| 0 <= i < v.len() && v[i] == x;
        assert(v.push(item)[i] == x);
    }
    if x == item {
        assert(v.push(item)[v.len() as int] == x);
    }
    if v.push(item).contains(x) {
        let i = choose|i: int| 0 <= i < v.push(item).len() && v.push(item)[i] == x;
        if i < v.len() {
            assert(v[i] == x);
        }
    }
}

/// A sequence without duplicates stays so when an item that it does not
/// hold is pushed.
pub proof fn lemma_push_fresh<T>(v: Seq<T>, item: T)
    requires
        v.no_duplicates(),
        !v.contains(item),
    ensures
        v.push(item).no_duplicates(),
{
    assert forall|i: int, j: int|
        0 <= i < v.push(item).len() && 0 <= j < v.push(item).len() && i != j implies v.push(
        item,
    )[i] != v.push(item)[j] by {
        if i < v.len() && j < v.len() {
        } else if i < v.len() {
            assert(v.contains(v[i]));
        } else {
            assert(v.contains(v[j]));
        }
    }
}

/// Every list of the table holds each of its spans once.
pub open spec fn all_distinct(t: Lists) -> bool {
    forall|n: Seq<char>| t.contains_key(n) ==> (#[trigger] t[n]).distinct()
}

/// Whatever `a` holds, `b` holds too, as the same kind of occurrence.
pub open spec fn lists_extend(a: Lists, b: Lists) -> bool {
    &&& forall|n: Seq<char>| a.contains_key(n) ==> b.contains_key(n)
    &&& forall|n: Seq<char>, ud: UseDefKind, s: Span|
        a.contains_key(n) && (#[trigger] a[n].of_kind(ud).contains(s)) ==> b[n].of_kind(
            ud,
        ).contains(s)
}

/// Recording a span keeps every list's spans distinct.
pub proof fn lemma_recorded_distinct(t: Lists, name: Seq<char>, ud: UseDefKind, span: Span)
    requires
        all_distinct(t),
    ensures
        all_distinct(recorded(t, name, ud, span)),
{
    if is_new(t, name, span) {
        let l = list_for(t, name);
        assert(l.distinct()) by {
            if t.contains_key(name) {
                assert(t[name].distinct());
            } else {
                assert(l.decls =~= Seq::<Span>::empty());
            }
        }
        lemma_with_keeps_distinct(l, ud, span);
        let r = recorded(t, name, ud, span);
        assert forall|n: Seq<char>| r.contains_key(n) implies (#[trigger] r[n]).distinct() by {
            if n != name {
                assert(t[n].distinct());
            }
        }
    }
}

/// After a span was recorded for a name, the table holds it for that
/// name, and all that it held before.
pub proof fn lemma_recorded_holds(t: Lists, name: Seq<char>, ud: UseDefKind, span: Span)
    ensures
        recorded(t, name, ud, span).contains_key(name),
        recorded(t, name, ud, span)[name].has(span),
        lists_extend(t, recorded(t, name, ud, span)),
        is_new(t, name, span) ==> recorded(t, name, ud, span)[name].of_kind(ud).contains(span),
{
    let r = recorded(t, name, ud, span);
    let l = list_for(t, name);
    if is_new(t, name, span) {
        lemma_push_contains(l.of_kind(ud), span, span);
        assert forall|n: Seq<char>, u: UseDefKind, s: Span|
            t.contains_key(n) && (#[trigger] t[n].of_kind(u).contains(s)) implies r[n].of_kind(
            u,
        ).contains(s) by {
            if n == name {
                lemma_push_contains(l.decls, span, s);
                lemma_push_contains(l.defs, span, s);
                lemma_push_contains(l.uses, span, s);
            }
        }
    }
}

/// Idempotent insertion: a span that is recorded for a name changes
/// nothing when it is recorded for that name again, as whatever kind. In
/// particular none of the three lists grows.
pub proof fn lemma_recorded_twice(
    t: Lists,
    name: Seq<char>,
    ud: UseDefKind,
    again: UseDefKind,
    span: Span,
)
    ensures
        recorded(recorded(t, name, ud, span), name, again, span) == recorded(t, name, ud, span),
        !is_new(recorded(t, name, ud, span), name, span),
{
    lemma_recorded_holds(t, name, ud, span);
}

/// A span that the table holds for a name already leaves the table as it
/// is.
pub proof fn lemma_recorded_known(t: Lists, name: Seq<char>, ud: UseDefKind, span: Span)
    requires
        t.contains_key(name),
        t[name].has(span),
    ensures
        recorded(t, name, ud, span) == t,
{
}

// ---------------------------------------------------------------------
// Edges
// ---------------------------------------------------------------------

/// No target has the same source twice.
pub open spec fn edges_distinct(e: Edges) -> bool {
    forall|n: Seq<char>| e.contains_key(n) ==> (#[trigger] e[n]).no_duplicates()
}

/// An edge is entered once: entering it again changes nothing, and no
/// list of sources ever holds a source twice.
pub proof fn lemma_edge_once(e: Edges, target: Seq<char>, source: Name)
    ensures
        with_edge(with_edge(e, target, source), target, source) == with_edge(e, target, source),
        with_edge(e, target, source).contains_key(target),
        with_edge(e, target, source)[target].contains(source),
        edges_distinct(e) ==> edges_distinct(with_edge(e, target, source)),
{
    let r = with_edge(e, target, source);
    let l = sources_of(e, target);
    if !l.contains(source) {
        lemma_push_contains(l, source, source);
        if edges_distinct(e) {
            assert(l.no_duplicates()) by {
                if e.contains_key(target) {
                    assert(e[target].no_duplicates());
                }
            }
            lemma_push_fresh(l, source);
            assert forall|n: Seq<char>| r.contains_key(n) implies (
            #[trigger] r[n]).no_duplicates() by {
                if n != target {
                    assert(e[n].no_duplicates());
                }
            }
        }
    }
}

/// An edge from another block to the same target is an entry of its own.
pub proof fn lemma_edge_from_other_block(e: Edges, target: Seq<char>, first: Name, second: Name)
    requires
        first != second,
        !sources_of(e, target).contains(second),
    ensures
        with_edge(with_edge(e, target, first), target, second)[target].contains(first),
        with_edge(with_edge(e, target, first), target, second)[target].contains(second),
        with_edge(with_edge(e, target, first), target, second)[target].len() == with_edge(
            e,
            target,
            first,
        )[target].len() + 1,
{
    let once = with_edge(e, target, first);
    lemma_edge_once(e, target, first);
    let l = sources_of(once, target);
    lemma_push_contains(sources_of(e, target), first, second);
    assert(!l.contains(second));
    lemma_push_contains(l, second, first);
    lemma_push_contains(l, second, second);
}

// ---------------------------------------------------------------------
// The operations of the index
// ---------------------------------------------------------------------

/// Idempotent insertion, for global symbols: registering a span for a
/// name a second time, as whatever kind, leaves the whole index as it is.
pub proof fn lemma_add_global_twice(
    idx: IndexView,
    k: SymbolKind,
    ud: UseDefKind,
    again: UseDefKind,
    span: Span,
    name: Seq<char>,
)
    requires
        k.is_global(),
    ensures
        idx.add_global(k, ud, span, name).add_global(k, again, span, name) == idx.add_global(
            k,
            ud,
            span,
            name,
        ),
{
    lemma_recorded_twice(idx.global_table(k), name, ud, again, span);
}

/// Idempotent insertion, for labels and local variables.
pub proof fn lemma_add_func_local_twice(
    idx: IndexView,
    id: usize,
    k: SymbolKind,
    ud: UseDefKind,
    again: UseDefKind,
    span: Span,
    name: Seq<char>,
)
    requires
        !k.is_global(),
        id < idx.function_bodies.len(),
    ensures
        idx.add_func_local(id, k, ud, span, name).add_func_local(id, k, again, span, name)
            == idx.add_func_local(id, k, ud, span, name),
{
    let body = idx.function_bodies[id as int];
    lemma_recorded_twice(body.table(k), name, ud, again, span);
    let once = idx.add_func_local(id, k, ud, span, name);
    let twice = once.add_func_local(id, k, again, span, name);
    assert(twice.function_bodies =~= once.function_bodies);
}

/// Scope isolation: registering a label or a local variable in one
/// function leaves the global tables and every other function as they
/// are, whatever the names in the other functions.
pub proof fn lemma_add_func_local_stays_in_scope(
    idx: IndexView,
    id: usize,
    k: SymbolKind,
    ud: UseDefKind,
    span: Span,
    name: Seq<char>,
    other: int,
)
    requires
        !k.is_global(),
        id < idx.function_bodies.len(),
        0 <= other < idx.function_bodies.len(),
        other != id,
    ensures
        idx.add_func_local(id, k, ud, span, name).function_bodies[other]
            == idx.function_bodies[other],
        idx.add_func_local(id, k, ud, span, name).global_vars == idx.global_vars,
        idx.add_func_local(id, k, ud, span, name).functions == idx.functions,
        idx.add_func_local(id, k, ud, span, name).dgb_annotations == idx.dgb_annotations,
        idx.add_func_local(id, k, ud, span, name).function_bodies.len()
            == idx.function_bodies.len(),
{
}

// ---------------------------------------------------------------------
// What every index keeps
// ---------------------------------------------------------------------

/// The tables of one function hold no span and no edge twice.
pub open spec fn body_consistent(b: FunctionBodyView) -> bool {
    all_distinct(b.labels) && all_distinct(b.local_vars) && edges_distinct(b.incoming_bb_branches)
}

/// The occurrence at key `k` of the reverse index starts at `k`, names
/// a scope that the index has, and is recorded in the table of its
/// category and scope, under its name and as its kind.
pub open spec fn occurrence_recorded(idx: IndexView, k: usize) -> bool {
    let o = idx.reverse_idx[k];
    &&& o.span.start == k
    &&& o.symbol_kind.is_global() ==> o.func_body_id is None
    &&& !o.symbol_kind.is_global() ==> o.func_body_id is Some && o.func_body_id->0
        < idx.function_bodies.len()
    &&& idx.table(o.symbol_kind, o.func_body_id).contains_key(o.name)
    &&& idx.table(o.symbol_kind, o.func_body_id)[o.name].of_kind(o.use_def).contains(o.span)
}

/// Whether the reverse index has an occurrence at the start of every
/// span that the table holds.
pub open spec fn lists_indexed(t: Lists, rev: Occurrences) -> bool {
    forall|n: Seq<char>, x: Span|
        t.contains_key(n) && (#[trigger] t[n].has(x)) ==> rev.contains_key(x.start)
}

/// Whether the reverse index has an occurrence at the start of every
/// span that any table of the index holds.
pub open spec fn all_indexed(idx: IndexView) -> bool {
    &&& lists_indexed(idx.global_vars, idx.reverse_idx)
    &&& lists_indexed(idx.functions, idx.reverse_idx)
    &&& lists_indexed(idx.dgb_annotations, idx.reverse_idx)
    &&& forall|j: int|
        0 <= j < idx.function_bodies.len() ==> lists_indexed(
            (#[trigger] idx.function_bodies[j]).labels,
            idx.reverse_idx,
        ) && lists_indexed(idx.function_bodies[j].local_vars, idx.reverse_idx)
}

/// The invariant of the index: no list holds a span twice, neither in
/// one list of a symbol nor in two; no block is entered twice as the
/// source of a branch to one target; every occurrence of the reverse
/// index is recorded in the table that it points to; and every span that
/// a table holds has an occurrence at its start.
pub open spec fn consistent(idx: IndexView) -> bool {
    &&& all_distinct(idx.global_vars)
    &&& all_distinct(idx.functions)
    &&& all_distinct(idx.dgb_annotations)
    &&& forall|j: int|
        0 <= j < idx.function_bodies.len() ==> body_consistent(#[trigger] idx.function_bodies[j])
    &&& forall|k: usize| idx.reverse_idx.contains_key(k) ==> occurrence_recorded(idx, k)
    &&& all_indexed(idx)
}

/// A table stays indexed when a span is recorded in it and, where it is
/// new, entered in the reverse index; and when an occurrence is entered
/// for another table.
proof fn lemma_recorded_indexed(
    t: Lists,
    rev: Occurrences,
    name: Seq<char>,
    ud: UseDefKind,
    span: Span,
    occ: OccurrenceView,
)
    requires
        lists_indexed(t, rev),
        occ.span == span,
    ensures
        lists_indexed(
            recorded(t, name, ud, span),
            if is_new(t, name, span) {
                rev.insert(span.start, occ)
            } else {
                rev
            },
        ),
        forall|key: usize, o: OccurrenceView| lists_indexed(t, #[trigger] rev.insert(key, o)),
{
    let r = recorded(t, name, ud, span);
    let l = list_for(t, name);
    let after = if is_new(t, name, span) {
        rev.insert(span.start, occ)
    } else {
        rev
    };
    assert forall|n: Seq<char>, x: Span|
        r.contains_key(n) && (#[trigger] r[n].has(x)) implies after.contains_key(x.start) by {
        if is_new(t, name, span) && n == name {
            lemma_push_contains(l.decls, span, x);
            lemma_push_contains(l.defs, span, x);
            lemma_push_contains(l.uses, span, x);
            if x != span {
                assert(l.has(x));
                assert(t.contains_key(n) && t[n].has(x));
            }
        } else {
            assert(t.contains_key(n) && t[n].has(x));
        }
    }
    assert forall|key: usize, o: OccurrenceView|
        lists_indexed(t, #[trigger] rev.insert(key, o)) by {
        let grown = rev.insert(key, o);
        assert forall|n: Seq<char>, x: Span|
            t.contains_key(n) && (#[trigger] t[n].has(x)) implies grown.contains_key(x.start) by {
            assert(rev.contains_key(x.start));
        }
    }
}

/// Whatever a branch table holds, the other holds too.
pub open spec fn edges_extend(a: Edges, b: Edges) -> bool {
    forall|n: Seq<char>, s: Name|
        a.contains_key(n) && (#[trigger] a[n].contains(s)) ==> b.contains_key(n) && b[n].contains(
            s,
        )
}

/// The function body `b` is `a` with, at most, more recorded.
pub open spec fn body_extends(a: FunctionBodyView, b: FunctionBodyView) -> bool {
    &&& a.name == b.name
    &&& a.complete_range == b.complete_range
    &&& a.basic_blocks == b.basic_blocks
    &&& lists_extend(a.labels, b.labels)
    &&& lists_extend(a.local_vars, b.local_vars)
    &&& edges_extend(a.incoming_bb_branches, b.incoming_bb_branches)
}

/// The index `b` is `a` with, at most, more recorded: nothing that `a`
/// holds in a table is missing from `b`.
pub open spec fn extends(a: IndexView, b: IndexView) -> bool {
    &&& lists_extend(a.global_vars, b.global_vars)
    &&& lists_extend(a.functions, b.functions)
    &&& lists_extend(a.dgb_annotations, b.dgb_annotations)
    &&& a.function_bodies.len() <= b.function_bodies.len()
    &&& forall|j: int|
        0 <= j < a.function_bodies.len() ==> body_extends(
            #[trigger] a.function_bodies[j],
            b.function_bodies[j],
        )
}

/// Extending a table twice extends it.
pub proof fn lemma_lists_extend_trans(a: Lists, b: Lists, c: Lists)
    requires
        lists_extend(a, b),
        lists_extend(b, c),
    ensures
        lists_extend(a, c),
{
    assert forall|n: Seq<char>, ud: UseDefKind, s: Span|
        a.contains_key(n) && (#[trigger] a[n].of_kind(ud).contains(s)) implies c[n].of_kind(
        ud,
    ).contains(s) by {
        assert(b[n].of_kind(ud).contains(s));
    }
}

/// Extending an index twice extends it.
pub proof fn lemma_extends_trans(a: IndexView, b: IndexView, c: IndexView)
    requires
        extends(a, b),
        extends(b, c),
    ensures
        extends(a, c),
{
    lemma_lists_extend_trans(a.global_vars, b.global_vars, c.global_vars);
    lemma_lists_extend_trans(a.functions, b.functions, c.functions);
    lemma_lists_extend_trans(a.dgb_annotations, b.dgb_annotations, c.dgb_annotations);
    assert forall|j: int| 0 <= j < a.function_bodies.len() implies body_extends(
        #[trigger] a.function_bodies[j],
        c.function_bodies[j],
    ) by {
        let x = a.function_bodies[j];
        let y = b.function_bodies[j];
        let z = c.function_bodies[j];
        assert(body_extends(x, y));
        assert(body_extends(y, z));
        lemma_lists_extend_trans(x.labels, y.labels, z.labels);
        lemma_lists_extend_trans(x.local_vars, y.local_vars, z.local_vars);
        let (ex, ey, ez) = (x.incoming_bb_branches, y.incoming_bb_branches, z.incoming_bb_branches);
        assert forall|n: Seq<char>, s: Name|
            ex.contains_key(n) && (#[trigger] ex[n].contains(s)) implies ez.contains_key(n)
            && ez[n].contains(s) by {
            assert(ey[n].contains(s));
        }
    }
}

/// An occurrence that is recorded stays recorded in an index that extends
/// the first and has the same occurrence at that key.
proof fn lemma_occurrence_stays(a: IndexView, b: IndexView, k: usize)
    requires
        extends(a, b),
        occurrence_recorded(a, k),
        b.reverse_idx[k] == a.reverse_idx[k],
    ensures
        occurrence_recorded(b, k),
{
    let o = a.reverse_idx[k];
    if !o.symbol_kind.is_global() {
        let id = o.func_body_id->0 as int;
        assert(body_extends(a.function_bodies[id], b.function_bodies[id]));
    }
}

/// Registering a global occurrence only adds to the index, and keeps it
/// consistent.
pub proof fn lemma_add_global_grows(
    idx: IndexView,
    k: SymbolKind,
    ud: UseDefKind,
    span: Span,
    name: Seq<char>,
)
    requires
        k.is_global(),
    ensures
        extends(idx, idx.add_global(k, ud, span, name)),
        consistent(idx) ==> consistent(idx.add_global(k, ud, span, name)),
        idx.add_global(k, ud, span, name).function_bodies == idx.function_bodies,
        idx.add_global(k, ud, span, name).global_table(k).contains_key(name),
        idx.add_global(k, ud, span, name).global_table(k)[name].has(span),
{
    let t = idx.global_table(k);
    let r = idx.add_global(k, ud, span, name);
    lemma_recorded_holds(t, name, ud, span);
    assert(extends(idx, r));
    if consistent(idx) {
        lemma_recorded_distinct(t, name, ud, span);
        assert forall|key: usize| r.reverse_idx.contains_key(key) implies occurrence_recorded(
            r,
            key,
        ) by {
            if is_new(t, name, span) && key == span.start {
            } else {
                assert(idx.reverse_idx.contains_key(key));
                lemma_occurrence_stays(idx, r, key);
            }
        }
        let occ = OccurrenceView { span, use_def: ud, symbol_kind: k, name, func_body_id: None };
        lemma_recorded_indexed(t, idx.reverse_idx, name, ud, span, occ);
        lemma_recorded_indexed(idx.global_vars, idx.reverse_idx, name, ud, span, occ);
        lemma_recorded_indexed(idx.functions, idx.reverse_idx, name, ud, span, occ);
        lemma_recorded_indexed(idx.dgb_annotations, idx.reverse_idx, name, ud, span, occ);
        assert forall|j: int| 0 <= j < r.function_bodies.len() implies lists_indexed(
            (#[trigger] r.function_bodies[j]).labels,
            r.reverse_idx,
        ) && lists_indexed(r.function_bodies[j].local_vars, r.reverse_idx) by {
            let b = idx.function_bodies[j];
            lemma_recorded_indexed(b.labels, idx.reverse_idx, name, ud, span, occ);
            lemma_recorded_indexed(b.local_vars, idx.reverse_idx, name, ud, span, occ);
        }
    }
}

/// Registering a local occurrence only adds to the index, and keeps it
/// consistent.
pub proof fn lemma_add_func_local_grows(
    idx: IndexView,
    id: usize,
    k: SymbolKind,
    ud: UseDefKind,
    span: Span,
    name: Seq<char>,
)
    requires
        !k.is_global(),
        id < idx.function_bodies.len(),
    ensures
        extends(idx, idx.add_func_local(id, k, ud, span, name)),
        consistent(idx) ==> consistent(idx.add_func_local(id, k, ud, span, name)),
        idx.add_func_local(id, k, ud, span, name).function_bodies.len()
            == idx.function_bodies.len(),
        idx.add_func_local(id, k, ud, span, name).function_bodies[id as int].table(k).contains_key(
            name,
        ),
        idx.add_func_local(id, k, ud, span, name).function_bodies[id as int].table(k)[name].has(
            span,
        ),
        idx.add_func_local(id, k, ud, span, name).function_bodies[id as int].incoming_bb_branches
            == idx.function_bodies[id as int].incoming_bb_branches,
{
    let body = idx.function_bodies[id as int];
    let t = body.table(k);
    let r = idx.add_func_local(id, k, ud, span, name);
    lemma_recorded_holds(t, name, ud, span);
    assert forall|j: int| 0 <= j < idx.function_bodies.len() implies body_extends(
        #[trigger] idx.function_bodies[j],
        r.function_bodies[j],
    ) by {}
    assert(extends(idx, r));
    if consistent(idx) {
        assert(body_consistent(body));
        lemma_recorded_distinct(t, name, ud, span);
        assert forall|j: int| 0 <= j < r.function_bodies.len() implies body_consistent(
            #[trigger] r.function_bodies[j],
        ) by {
            if j != id {
                assert(body_consistent(idx.function_bodies[j]));
            }
        }
        assert forall|key: usize| r.reverse_idx.contains_key(key) implies occurrence_recorded(
            r,
            key,
        ) by {
            if is_new(t, name, span) && key == span.start {
            } else {
                assert(idx.reverse_idx.contains_key(key));
                lemma_occurrence_stays(idx, r, key);
            }
        }
        let occ = OccurrenceView {
            span,
            use_def: ud,
            symbol_kind: k,
            name,
            func_body_id: Some(id),
        };
        lemma_recorded_indexed(t, idx.reverse_idx, name, ud, span, occ);
        lemma_recorded_indexed(idx.global_vars, idx.reverse_idx, name, ud, span, occ);
        lemma_recorded_indexed(idx.functions, idx.reverse_idx, name, ud, span, occ);
        lemma_recorded_indexed(idx.dgb_annotations, idx.reverse_idx, name, ud, span, occ);
        assert forall|j: int| 0 <= j < r.function_bodies.len() implies lists_indexed(
            (#[trigger] r.function_bodies[j]).labels,
            r.reverse_idx,
        ) && lists_indexed(r.function_bodies[j].local_vars, r.reverse_idx) by {
            let b = idx.function_bodies[j];
            lemma_recorded_indexed(b.labels, idx.reverse_idx, name, ud, span, occ);
            lemma_recorded_indexed(b.local_vars, idx.reverse_idx, name, ud, span, occ);
        }
    }
}

/// Entering an edge only adds to the index, and keeps it consistent.
pub proof fn lemma_with_edge_grows(idx: IndexView, id: usize, target: Seq<char>, source: Name)
    requires
        id < idx.function_bodies.len(),
    ensures
        extends(idx, idx.with_edge(id, target, source)),
        consistent(idx) ==> consistent(idx.with_edge(id, target, source)),
        idx.with_edge(id, target, source).function_bodies.len() == idx.function_bodies.len(),
{
    let body = idx.function_bodies[id as int];
    let e = body.incoming_bb_branches;
    let r = idx.with_edge(id, target, source);
    lemma_edge_once(e, target, source);
    assert(edges_extend(e, with_edge(e, target, source))) by {
        assert forall|n: Seq<char>, s: Name|
            e.contains_key(n) && (#[trigger] e[n].contains(s)) implies with_edge(
            e,
            target,
            source,
        ).contains_key(n) && with_edge(e, target, source)[n].contains(s) by {
            if n == target {
                lemma_push_contains(sources_of(e, target), source, s);
            }
        }
    }
    assert forall|j: int| 0 <= j < idx.function_bodies.len() implies body_extends(
        #[trigger] idx.function_bodies[j],
        r.function_bodies[j],
    ) by {}
    assert(extends(idx, r));
    if consistent(idx) {
        assert(body_consistent(body));
        assert forall|j: int| 0 <= j < r.function_bodies.len() implies body_consistent(
            #[trigger] r.function_bodies[j],
        ) by {
            if j != id {
                assert(body_consistent(idx.function_bodies[j]));
            }
        }
        assert forall|key: usize| r.reverse_idx.contains_key(key) implies occurrence_recorded(
            r,
            key,
        ) by {
            lemma_occurrence_stays(idx, r, key);
        }
    }
}

// ---------------------------------------------------------------------
// Building an index keeps it consistent
// ---------------------------------------------------------------------

/// What holds of every step of a fold holds of the fold.
pub proof fn lemma_fold_keeps<A, B>(
    s: Seq<A>,
    init: B,
    f: spec_fn(B, A) -> B,
    inv: spec_fn(B) -> bool,
)
    requires
        inv(init),
        forall|b: B, a: A| inv(b) ==> inv(#[trigger] f(b, a)),
    ensures
        inv(s.fold_left(init, f)),
    decreases s.len(),
{
    if s.len() > 0 {
        lemma_fold_keeps(s.drop_last(), init, f, inv);
    }
}

/// The indexes that come of `start` by adding to it.
pub open spec fn grown(start: IndexView) -> spec_fn(IndexView) -> bool {
    |i: IndexView| extends(start, i) && (consistent(start) ==> consistent(i))
}

/// The indexes that come of `start` by adding to it, with `n` function
/// bodies.
pub open spec fn kept(start: IndexView, n: nat) -> spec_fn(IndexView) -> bool {
    |i: IndexView| grown(start)(i) && i.function_bodies.len() == n
}

/// Registering a block reference only adds to the index, and keeps it
/// consistent.
pub proof fn lemma_index_ref_grows(
    idx: IndexView,
    id: usize,
    label: Option<Name>,
    mnemonic: Seq<char>,
    r: Name,
)
    requires
        id < idx.function_bodies.len(),
    ensures
        kept(idx, idx.function_bodies.len())(index_ref(idx, id, label, mnemonic, r)),
{
    let used = idx.add_func_local(id, SymbolKind::Label, UseDefKind::Use, r.1, r.0);
    lemma_add_func_local_grows(idx, id, SymbolKind::Label, UseDefKind::Use, r.1, r.0);
    if branches(label, mnemonic) {
        lemma_with_edge_grows(used, id, r.0, label->0);
        lemma_extends_trans(idx, used, used.with_edge(id, r.0, label->0));
    }
}

/// Registering an instruction only adds to the index, and keeps it
/// consistent.
pub proof fn lemma_index_instruction_grows(
    idx: IndexView,
    id: usize,
    label: Option<Name>,
    ins: InstructionView,
)
    requires
        id < idx.function_bodies.len(),
    ensures
        kept(idx, idx.function_bodies.len())(index_instruction(idx, id, label, ins)),
{
    let n = idx.function_bodies.len();
    let defined = match ins.assignment_target {
        Some(t) => idx.add_func_local(id, SymbolKind::LocalVar, UseDefKind::Def, t.1, t.0),
        None => idx,
    };
    if ins.assignment_target is Some {
        let t = ins.assignment_target->0;
        lemma_add_func_local_grows(idx, id, SymbolKind::LocalVar, UseDefKind::Def, t.1, t.0);
    }
    let step = ref_step(id, label, ins.instruction.0);
    let inv = kept(idx, n);
    assert(inv(defined));
    assert forall|b: IndexView, r: Name| inv(b) implies inv(#[trigger] step(b, r)) by {
        lemma_index_ref_grows(b, id, label, ins.instruction.0, r);
        lemma_extends_trans(idx, b, step(b, r));
    }
    lemma_fold_keeps(ins.basic_block_refs, defined, step, inv);
}

/// Registering a block only adds to the index, and keeps it consistent.
pub proof fn lemma_index_block_grows(idx: IndexView, id: usize, block: BasicBlockView)
    requires
        id < idx.function_bodies.len(),
    ensures
        kept(idx, idx.function_bodies.len())(index_block(idx, id, block)),
{
    let n = idx.function_bodies.len();
    let labelled = match block.label {
        Some(l) => idx.add_func_local(id, SymbolKind::Label, UseDefKind::Def, l.1, l.0),
        None => idx,
    };
    if block.label is Some {
        let l = block.label->0;
        lemma_add_func_local_grows(idx, id, SymbolKind::Label, UseDefKind::Def, l.1, l.0);
    }
    let step = instruction_step(id, block.label);
    let inv = kept(idx, n);
    assert(inv(labelled));
    assert forall|b: IndexView, ins: InstructionView| inv(b) implies inv(
        #[trigger] step(b, ins),
    ) by {
        lemma_index_instruction_grows(b, id, block.label, ins);
        lemma_extends_trans(idx, b, step(b, ins));
    }
    lemma_fold_keeps(block.instructions, labelled, step, inv);
}

/// Registering a function definition only adds to the index, one
/// function body among it, and keeps it consistent.
pub proof fn lemma_index_function_grows(
    idx: IndexView,
    define_kw: Span,
    signature: FuncSignatureView,
    body: FuncBodyView,
)
    requires
        idx.function_bodies.len() < usize::MAX,
    ensures
        kept(idx, idx.function_bodies.len() + 1)(index_function(idx, define_kw, signature, body)),
{
    let n = idx.function_bodies.len() + 1;
    let id = idx.function_bodies.len() as usize;
    let named = idx.add_global(
        SymbolKind::Function,
        UseDefKind::Def,
        signature.name.1,
        signature.name.0,
    );
    lemma_add_global_grows(
        idx,
        SymbolKind::Function,
        UseDefKind::Def,
        signature.name.1,
        signature.name.0,
    );
    let fresh = opened_body(define_kw, signature, body);
    let opened = IndexView { function_bodies: named.function_bodies.push(fresh), ..named };
    assert(extends(named, opened));
    assert(consistent(named) ==> consistent(opened)) by {
        if consistent(named) {
            assert forall|j: int| 0 <= j < opened.function_bodies.len() implies body_consistent(
                #[trigger] opened.function_bodies[j],
            ) by {
                if j < named.function_bodies.len() {
                    assert(body_consistent(named.function_bodies[j]));
                }
            }
            assert forall|key: usize|
                opened.reverse_idx.contains_key(key) implies occurrence_recorded(opened, key) by {
                lemma_occurrence_stays(named, opened, key);
            }
        }
    }
    lemma_extends_trans(idx, named, opened);
    let inv = kept(idx, n as nat);
    assert(inv(opened));
    let astep = arg_step(id);
    assert forall|b: IndexView, a: FuncArgView| inv(b) implies inv(#[trigger] astep(b, a)) by {
        lemma_add_func_local_grows(
            b,
            id,
            SymbolKind::LocalVar,
            UseDefKind::Def,
            a.name.1,
            a.name.0,
        );
        lemma_extends_trans(idx, b, astep(b, a));
    }
    lemma_fold_keeps(signature.args, opened, astep, inv);
    let with_args = signature.args.fold_left(opened, astep);
    let bstep = block_step(id);
    assert forall|b: IndexView, block: BasicBlockView| inv(b) implies inv(
        #[trigger] bstep(b, block),
    ) by {
        lemma_index_block_grows(b, id, block);
        lemma_extends_trans(idx, b, bstep(b, block));
    }
    lemma_fold_keeps(body.basic_blocks, with_args, bstep, inv);
}

/// The indexes that come of `start` by adding to it, with fewer than the
/// greatest number of function bodies or as many.
pub open spec fn grown_within(start: IndexView, bound: nat) -> spec_fn(IndexView) -> bool {
    |i: IndexView| grown(start)(i) && i.function_bodies.len() <= bound
}

/// Registering a statement only adds to the index, at most one function
/// body among it, and keeps it consistent.
pub proof fn lemma_index_statement_grows(idx: IndexView, stmt: StatementView)
    requires
        idx.function_bodies.len() < usize::MAX,
    ensures
        grown_within(idx, idx.function_bodies.len() + 1)(index_statement(idx, stmt)),
{
    match stmt {
        StatementView::GlobalVar { name, def } => {
            lemma_add_global_grows(idx, SymbolKind::GlobalVar, UseDefKind::Def, name.1, name.0);
        },
        StatementView::FuncDecl { signature, addr } => {
            lemma_add_global_grows(
                idx,
                SymbolKind::Function,
                UseDefKind::Decl,
                signature.name.1,
                signature.name.0,
            );
        },
        StatementView::FuncDef { define_kw, signature, body } => {
            lemma_index_function_grows(idx, define_kw, signature, body);
        },
        StatementView::DbgAnnotation { name, def } => {
            lemma_add_global_grows(
                idx,
                SymbolKind::DbgAnnotation,
                UseDefKind::Def,
                name.1,
                crate::hir_index_build::debug_name(name.0),
            );
        },
    }
}

/// The first pass over `n` statements gives an index that is consistent
/// and has at most `n` function bodies.
pub proof fn lemma_index_statements_consistent(stmts: Seq<StatementView>)
    requires
        stmts.len() <= usize::MAX,
    ensures
        consistent(index_statements(stmts)),
        index_statements(stmts).function_bodies.len() <= stmts.len(),
    decreases stmts.len(),
{
    if stmts.len() > 0 {
        let front = stmts.drop_last();
        lemma_index_statements_consistent(front);
        lemma_index_statement_grows(index_statements(front), stmts.last());
    }
}

/// The function body that `enclosing_from` finds is the first from
/// `from` on whose range covers the offset.
pub proof fn lemma_enclosing(bodies: Seq<FunctionBodyView>, pos: usize, from: int)
    requires
        0 <= from,
        bodies.len() <= usize::MAX,
    ensures
        match enclosing_from(bodies, pos, from) {
            Some(id) => from <= id < bodies.len() && bodies[id as int].complete_range.covers(pos)
                && forall|j: int| from <= j < id ==> !bodies[j].complete_range.covers(pos),
            None => forall|j: int|
                from <= j < bodies.len() ==> !bodies[j].complete_range.covers(pos),
        },
    decreases bodies.len() - from,
{
    if from < bodies.len() && !bodies[from].complete_range.covers(pos) {
        lemma_enclosing(bodies, pos, from + 1);
    }
}

/// The scope of a local name is a function of the index whose range
/// covers the name.
pub proof fn lemma_scope(bodies: Seq<FunctionBodyView>, cursor: Option<usize>, pos: usize)
    requires
        bodies.len() <= usize::MAX,
    ensures
        match scope_at(bodies, cursor, pos) {
            Some(id) => id < bodies.len() && bodies[id as int].complete_range.covers(pos),
            None => forall|j: int| 0 <= j < bodies.len() ==> !bodies[j].complete_range.covers(pos),
        },
{
    lemma_enclosing(bodies, pos, 0);
}

/// Registering the use that a token stands for only adds to the index,
/// and keeps it consistent and its function bodies as many.
pub proof fn lemma_index_token_grows(s: Scan, tok: Tok)
    requires
        s.index.function_bodies.len() <= usize::MAX,
    ensures
        kept(s.index, s.index.function_bodies.len())(index_token(s, tok).index),
{
    let text = tok.0.text;
    match tok.0.kind {
        TokenKind::GlobalName => {
            lemma_add_global_grows(s.index, SymbolKind::Function, UseDefKind::Use, tok.1, text);
            lemma_add_global_grows(s.index, SymbolKind::GlobalVar, UseDefKind::Use, tok.1, text);
        },
        TokenKind::DebugRef => {
            lemma_add_global_grows(
                s.index,
                SymbolKind::DbgAnnotation,
                UseDefKind::Use,
                tok.1,
                crate::hir_index_build::debug_name(text),
            );
        },
        TokenKind::LocalName => {
            lemma_scope(s.index.function_bodies, s.cursor, tok.1.start);
            match scope_at(s.index.function_bodies, s.cursor, tok.1.start) {
                Some(id) => {
                    lemma_add_func_local_grows(
                        s.index,
                        id,
                        SymbolKind::LocalVar,
                        UseDefKind::Use,
                        tok.1,
                        text,
                    );
                },
                None => {},
            }
        },
        _ => {},
    }
}

/// The scans whose index comes of `start` by adding to it, with `n`
/// function bodies.
pub open spec fn scan_kept(start: IndexView, n: nat) -> spec_fn(Scan) -> bool {
    |sc: Scan| kept(start, n)(sc.index)
}

/// The second pass only adds to the index of the first.
pub proof fn lemma_tokens_grow(start: Scan, tokens: Seq<Tok>)
    requires
        start.index.function_bodies.len() <= usize::MAX,
    ensures
        kept(start.index, start.index.function_bodies.len())(
            tokens.fold_left(start, token_step()).index,
        ),
{
    let n = start.index.function_bodies.len();
    let inv = scan_kept(start.index, n);
    let step = token_step();
    assert forall|sc: Scan, tok: Tok| inv(sc) implies inv(#[trigger] step(sc, tok)) by {
        lemma_index_token_grows(sc, tok);
        lemma_extends_trans(start.index, sc.index, step(sc, tok).index);
    }
    lemma_fold_keeps(tokens, start, step, inv);
}

/// The index of every document is consistent: no list holds a span
/// twice, neither in one list of a symbol nor in two; no block is
/// entered twice as the source of a branch to one target; and every
/// occurrence of the reverse index is recorded in the table that it
/// points to.
pub proof fn lemma_built_index_consistent(tokens: Seq<Tok>, stmts: Seq<StatementView>)
    requires
        stmts.len() <= usize::MAX,
    ensures
        consistent(built_index(tokens, stmts)),
{
    lemma_index_statements_consistent(stmts);
    lemma_tokens_grow(Scan { index: index_statements(stmts), cursor: None }, tokens);
}

// ---------------------------------------------------------------------
// Phi instructions
// ---------------------------------------------------------------------

/// The indexes with the branch tables of `start`.
pub open spec fn same_edges(start: IndexView) -> spec_fn(IndexView) -> bool {
    |i: IndexView|
        i.function_bodies.len() == start.function_bodies.len() && forall|j: int|
            0 <= j < start.function_bodies.len() ==> (
            #[trigger] i.function_bodies[j]).incoming_bb_branches
                == start.function_bodies[j].incoming_bb_branches
}

/// After the block references `refs` of an instruction were registered,
/// each of them is recorded as an occurrence of its label.
pub proof fn lemma_refs_recorded(
    idx: IndexView,
    id: usize,
    label: Option<Name>,
    mnemonic: Seq<char>,
    refs: Seq<Name>,
    i: int,
)
    requires
        id < idx.function_bodies.len(),
        0 <= i < refs.len(),
    ensures
        ({
            let r = refs.fold_left(idx, ref_step(id, label, mnemonic));
            &&& r.function_bodies.len() == idx.function_bodies.len()
            &&& r.function_bodies[id as int].labels.contains_key(refs[i].0)
            &&& r.function_bodies[id as int].labels[refs[i].0].has(refs[i].1)
        }),
    decreases refs.len(),
{
    let step = ref_step(id, label, mnemonic);
    let front = refs.drop_last();
    let before = front.fold_left(idx, step);
    let n = idx.function_bodies.len();
    let inv = kept(idx, n);
    assert forall|b: IndexView, r: Name| inv(b) implies inv(#[trigger] step(b, r)) by {
        lemma_index_ref_grows(b, id, label, mnemonic, r);
        lemma_extends_trans(idx, b, step(b, r));
    }
    lemma_fold_keeps(front, idx, step, inv);
    let last = refs.last();
    let used = before.add_func_local(id, SymbolKind::Label, UseDefKind::Use, last.1, last.0);
    lemma_add_func_local_grows(before, id, SymbolKind::Label, UseDefKind::Use, last.1, last.0);
    lemma_index_ref_grows(before, id, label, mnemonic, last);
    let after = index_ref(before, id, label, mnemonic, last);
    assert(after == refs.fold_left(idx, step));
    if i == refs.len() - 1 {
        assert(used.function_bodies[id as int].labels[last.0].has(last.1));
        if branches(label, mnemonic) {
            assert(after.function_bodies[id as int].labels
                == used.function_bodies[id as int].labels);
        }
    } else {
        lemma_refs_recorded(idx, id, label, mnemonic, front, i);
        assert(front[i] == refs[i]);
        let was = before.function_bodies[id as int];
        let now = after.function_bodies[id as int];
        assert(body_extends(was, now));
        let l = was.labels[refs[i].0];
        assert(l.has(refs[i].1));
        assert(l.of_kind(UseDefKind::Decl).contains(refs[i].1) || l.of_kind(
            UseDefKind::Def,
        ).contains(refs[i].1) || l.of_kind(UseDefKind::Use).contains(refs[i].1));
    }
}

/// Whether each of the names `refs` is recorded as an occurrence of a
/// label of the function at place `id`.
pub open spec fn labels_recorded(idx: IndexView, id: usize, refs: Seq<Name>) -> bool {
    forall|i: int|
        0 <= i < refs.len() ==> {
            let labels = idx.function_bodies[id as int].labels;
            labels.contains_key((#[trigger] refs[i]).0) && labels[refs[i].0].has(refs[i].1)
        }
}

/// Phi exclusion: an instruction whose mnemonic is `phi` enters no
/// branch in any table, whatever labels it names; and still each label
/// that it names is recorded as an occurrence of that label in the scope
/// of its function.
pub proof fn lemma_phi_adds_no_edge(
    idx: IndexView,
    id: usize,
    label: Option<Name>,
    ins: InstructionView,
)
    requires
        id < idx.function_bodies.len(),
        ins.instruction.0 == "phi"@,
    ensures
        same_edges(idx)(index_instruction(idx, id, label, ins)),
        labels_recorded(index_instruction(idx, id, label, ins), id, ins.basic_block_refs),
{
    let defined = match ins.assignment_target {
        Some(t) => idx.add_func_local(id, SymbolKind::LocalVar, UseDefKind::Def, t.1, t.0),
        None => idx,
    };
    if ins.assignment_target is Some {
        let t = ins.assignment_target->0;
        lemma_add_func_local_grows(idx, id, SymbolKind::LocalVar, UseDefKind::Def, t.1, t.0);
    }
    let step = ref_step(id, label, ins.instruction.0);
    let inv = same_edges(idx);
    assert(inv(defined));
    assert forall|b: IndexView, r: Name| inv(b) implies inv(#[trigger] step(b, r)) by {
        lemma_add_func_local_grows(b, id, SymbolKind::Label, UseDefKind::Use, r.1, r.0);
    }
    lemma_fold_keeps(ins.basic_block_refs, defined, step, inv);
    let refs = ins.basic_block_refs;
    let after = index_instruction(idx, id, label, ins);
    assert forall|i: int| 0 <= i < refs.len() implies {
        let labels = after.function_bodies[id as int].labels;
        labels.contains_key((#[trigger] refs[i]).0) && labels[refs[i].0].has(refs[i].1)
    } by {
        lemma_refs_recorded(defined, id, label, ins.instruction.0, refs, i);
    }
}

// ---------------------------------------------------------------------
// Functions and global variables
// ---------------------------------------------------------------------

/// The indexes with the three global tables of `of`.
pub open spec fn with_globals(of: IndexView) -> spec_fn(IndexView) -> bool {
    |i: IndexView|
        i.global_vars == of.global_vars && i.functions == of.functions && i.dgb_annotations
            == of.dgb_annotations
}

/// A function definition registers one thing in the global scope, the
/// definition of its name: nothing as a global variable or as a debug
/// annotation, and no other function.
pub proof fn lemma_function_keeps_global_vars(
    idx: IndexView,
    define_kw: Span,
    signature: FuncSignatureView,
    body: FuncBodyView,
)
    ensures
        index_function(idx, define_kw, signature, body).global_vars == idx.global_vars,
        index_function(idx, define_kw, signature, body).dgb_annotations == idx.dgb_annotations,
        index_function(idx, define_kw, signature, body).functions == idx.add_global(
            SymbolKind::Function,
            UseDefKind::Def,
            signature.name.1,
            signature.name.0,
        ).functions,
{
    let id = idx.function_bodies.len() as usize;
    let named = idx.add_global(
        SymbolKind::Function,
        UseDefKind::Def,
        signature.name.1,
        signature.name.0,
    );
    let inv = with_globals(named);
    let opened = IndexView {
        function_bodies: named.function_bodies.push(opened_body(define_kw, signature, body)),
        ..named
    };
    let astep = arg_step(id);
    assert forall|b: IndexView, a: FuncArgView| inv(b) implies inv(#[trigger] astep(b, a)) by {}
    lemma_fold_keeps(signature.args, opened, astep, inv);
    let bstep = block_step(id);
    assert forall|b: IndexView, block: BasicBlockView| inv(b) implies inv(
        #[trigger] bstep(b, block),
    ) by {
        let labelled = match block.label {
            Some(l) => b.add_func_local(id, SymbolKind::Label, UseDefKind::Def, l.1, l.0),
            None => b,
        };
        let istep = instruction_step(id, block.label);
        assert forall|c: IndexView, ins: InstructionView| inv(c) implies inv(
            #[trigger] istep(c, ins),
        ) by {
            let defined = match ins.assignment_target {
                Some(t) => c.add_func_local(id, SymbolKind::LocalVar, UseDefKind::Def, t.1, t.0),
                None => c,
            };
            let rstep = ref_step(id, block.label, ins.instruction.0);
            assert forall|d: IndexView, r: Name| inv(d) implies inv(#[trigger] rstep(d, r)) by {}
            lemma_fold_keeps(ins.basic_block_refs, defined, rstep, inv);
        }
        lemma_fold_keeps(block.instructions, labelled, istep, inv);
    }
    lemma_fold_keeps(body.basic_blocks, signature.args.fold_left(opened, astep), bstep, inv);
}

/// No global variable has a use.
pub open spec fn no_global_uses(idx: IndexView) -> bool {
    forall|n: Seq<char>| list_for(idx.global_vars, n).uses.len() == 0
}

/// The first pass registers no use of a global variable.
pub proof fn lemma_first_pass_no_global_uses(stmts: Seq<StatementView>)
    ensures
        no_global_uses(index_statements(stmts)),
    decreases stmts.len(),
{
    if stmts.len() > 0 {
        let before = index_statements(stmts.drop_last());
        lemma_first_pass_no_global_uses(stmts.drop_last());
        let after = index_statement(before, stmts.last());
        assert(after == index_statements(stmts));
        match stmts.last() {
            StatementView::GlobalVar { name, def } => {
                assert forall|n: Seq<char>| list_for(after.global_vars, n).uses.len() == 0 by {
                    assert(list_for(before.global_vars, n).uses.len() == 0);
                }
            },
            StatementView::FuncDecl { signature, addr } => {},
            StatementView::FuncDef { define_kw, signature, body } => {
                lemma_function_keeps_global_vars(before, define_kw, signature, body);
            },
            StatementView::DbgAnnotation { name, def } => {},
        }
    }
}

/// Whether the statement declares or defines a function named `name`.
pub open spec fn declares_function(stmt: StatementView, name: Seq<char>) -> bool {
    match stmt {
        StatementView::FuncDecl { signature, addr } => signature.name.0 == name,
        StatementView::FuncDef { define_kw, signature, body } => signature.name.0 == name,
        _ => false,
    }
}

/// The state of the second pass after the first `m` tokens.
pub open spec fn scanned(tokens: Seq<Tok>, stmts: Seq<StatementView>, m: int) -> Scan {
    tokens.take(m).fold_left(Scan { index: index_statements(stmts), cursor: None }, token_step())
}

proof fn lemma_scanned_next(tokens: Seq<Tok>, stmts: Seq<StatementView>, m: int)
    requires
        0 <= m < tokens.len(),
    ensures
        scanned(tokens, stmts, m + 1) == index_token(scanned(tokens, stmts, m), tokens[m]),
{
    assert(tokens.take(m + 1).drop_last() =~= tokens.take(m));
}

/// While the second pass runs, a name that the first pass knows as a
/// function stays a function and gets no use as a global variable; and a
/// token of that name is recorded as an occurrence of the function from
/// the moment it was read.
proof fn lemma_function_use_so_far(
    tokens: Seq<Tok>,
    stmts: Seq<StatementView>,
    i: int,
    m: int,
)
    requires
        stmts.len() <= usize::MAX,
        0 <= i < tokens.len(),
        0 <= m <= tokens.len(),
        tokens[i].0.kind == TokenKind::GlobalName,
        index_statements(stmts).functions.contains_key(tokens[i].0.text),
    ensures
        ({
            let idx = scanned(tokens, stmts, m).index;
            let text = tokens[i].0.text;
            &&& idx.function_bodies.len() <= usize::MAX
            &&& idx.functions.contains_key(text)
            &&& list_for(idx.global_vars, text).uses.len() == 0
            &&& m > i ==> idx.functions[text].has(tokens[i].1)
        }),
    decreases m,
{
    let text = tokens[i].0.text;
    if m == 0 {
        lemma_first_pass_no_global_uses(stmts);
        lemma_index_statements_consistent(stmts);
    } else {
        lemma_function_use_so_far(tokens, stmts, i, m - 1);
        lemma_scanned_next(tokens, stmts, m - 1);
        let before = scanned(tokens, stmts, m - 1);
        let tok = tokens[m - 1];
        let after = index_token(before, tok);
        lemma_index_token_grows(before, tok);
        assert(extends(before.index, after.index));
        if tok.0.kind == TokenKind::GlobalName {
            lemma_add_global_grows(
                before.index,
                SymbolKind::Function,
                UseDefKind::Use,
                tok.1,
                tok.0.text,
            );
        }
        if m - 1 > i {
            let l = before.index.functions[text];
            assert(l.has(tokens[i].1));
            assert(l.of_kind(UseDefKind::Decl).contains(tokens[i].1) || l.of_kind(
                UseDefKind::Def,
            ).contains(tokens[i].1) || l.of_kind(UseDefKind::Use).contains(tokens[i].1));
        }
    }
}

// ---------------------------------------------------------------------
// Looking positions up
// ---------------------------------------------------------------------

/// No two occurrences of the reverse index cover the same offset.
pub open spec fn spans_apart(idx: IndexView) -> bool {
    forall|a: usize, b: usize, pos: usize|
        idx.covers_at(a, pos) && idx.covers_at(b, pos) ==> a == b
}

/// Position lookup is total: where the spans of the occurrences do not
/// overlap, every offset inside the span of an occurrence of the reverse
/// index finds that occurrence.
pub proof fn lemma_lookup_finds(idx: IndexView, k: usize, pos: usize)
    requires
        spans_apart(idx),
        idx.reverse_idx.contains_key(k),
        idx.reverse_idx[k].span.covers(pos),
    ensures
        idx.symbol_at(pos) == Some(idx.reverse_idx[k]),
{
    assert(idx.covers_at(k, pos));
    assert(idx.first_at(k, pos));
    let chosen = choose|c: usize| idx.first_at(c, pos);
    assert(idx.first_at(chosen, pos));
}

/// An offset that no occurrence covers finds none.
pub proof fn lemma_lookup_finds_none(idx: IndexView, pos: usize)
    requires
        forall|k: usize| idx.reverse_idx.contains_key(k) ==> !idx.reverse_idx[k].span.covers(pos),
    ensures
        idx.symbol_at(pos) is None,
{
}

/// What a lookup finds is an occurrence of the reverse index whose span
/// covers the offset; in a consistent index the table that it points to
/// holds its span.
pub proof fn lemma_lookup_sound(idx: IndexView, pos: usize)
    requires
        idx.symbol_at(pos) is Some,
    ensures
        ({
            let occ = idx.symbol_at(pos)->0;
            &&& occ.span.covers(pos)
            &&& idx.reverse_idx.contains_key(occ.span.start) ==> consistent(idx) ==> idx.ranges_of(
                occ,
                occ.use_def,
            ) is Some && idx.ranges_of(occ, occ.use_def)->0.contains(occ.span)
        }),
{
    let k = choose|k: usize| idx.first_at(k, pos);
    assert(idx.first_at(k, pos));
    if consistent(idx) {
        assert(occurrence_recorded(idx, k));
    }
}

// ---------------------------------------------------------------------
// Function bodies
// ---------------------------------------------------------------------

/// The function bodies that the statements open, in the order of the
/// statements: one for each definition, none for a declaration.
pub open spec fn defined_bodies(stmts: Seq<StatementView>) -> Seq<FunctionBodyView>
    decreases stmts.len(),
{
    if stmts.len() == 0 {
        Seq::empty()
    } else {
        let front = defined_bodies(stmts.drop_last());
        match stmts.last() {
            StatementView::FuncDef { define_kw, signature, body } => front.push(
                opened_body(define_kw, signature, body),
            ),
            _ => front,
        }
    }
}

/// Whether the index has the function bodies `bodies`: as many, in the
/// same order, each with its name, its range and its blocks.
pub open spec fn has_bodies(idx: IndexView, bodies: Seq<FunctionBodyView>) -> bool {
    &&& idx.function_bodies.len() == bodies.len()
    &&& forall|i: int|
        0 <= i < bodies.len() ==> {
            &&& (#[trigger] idx.function_bodies[i]).name == bodies[i].name
            &&& idx.function_bodies[i].complete_range == bodies[i].complete_range
            &&& idx.function_bodies[i].basic_blocks == bodies[i].basic_blocks
        }
}

proof fn lemma_extends_keeps_bodies(a: IndexView, b: IndexView, bodies: Seq<FunctionBodyView>)
    requires
        has_bodies(a, bodies),
        extends(a, b),
        a.function_bodies.len() == b.function_bodies.len(),
    ensures
        has_bodies(b, bodies),
{
    assert forall|i: int| 0 <= i < bodies.len() implies {
        &&& (#[trigger] b.function_bodies[i]).name == bodies[i].name
        &&& b.function_bodies[i].complete_range == bodies[i].complete_range
        &&& b.function_bodies[i].basic_blocks == bodies[i].basic_blocks
    } by {
        assert(body_extends(a.function_bodies[i], b.function_bodies[i]));
    }
}

proof fn lemma_first_pass_bodies(stmts: Seq<StatementView>)
    requires
        stmts.len() <= usize::MAX,
    ensures
        has_bodies(index_statements(stmts), defined_bodies(stmts)),
    decreases stmts.len(),
{
    if stmts.len() > 0 {
        let front = stmts.drop_last();
        lemma_first_pass_bodies(front);
        lemma_index_statements_consistent(front);
        let before = index_statements(front);
        let bodies = defined_bodies(front);
        let after = index_statement(before, stmts.last());
        lemma_index_statement_grows(before, stmts.last());
        match stmts.last() {
            StatementView::FuncDef { define_kw, signature, body } => {
                let named = before.add_global(
                    SymbolKind::Function,
                    UseDefKind::Def,
                    signature.name.1,
                    signature.name.0,
                );
                let fresh = opened_body(define_kw, signature, body);
                let opened = IndexView {
                    function_bodies: named.function_bodies.push(fresh),
                    ..named
                };
                assert(has_bodies(opened, bodies.push(fresh)));
                lemma_function_grows_from_opened(before, define_kw, signature, body);
                lemma_extends_keeps_bodies(opened, after, bodies.push(fresh));
            },
            _ => {
                lemma_extends_keeps_bodies(before, after, bodies);
            },
        }
    }
}

/// What a function definition registers in its own scope only adds to
/// the index in which its body was opened.
proof fn lemma_function_grows_from_opened(
    idx: IndexView,
    define_kw: Span,
    signature: FuncSignatureView,
    body: FuncBodyView,
)
    requires
        idx.function_bodies.len() < usize::MAX,
    ensures
        ({
            let named = idx.add_global(
                SymbolKind::Function,
                UseDefKind::Def,
                signature.name.1,
                signature.name.0,
            );
            let opened = IndexView {
                function_bodies: named.function_bodies.push(
                    opened_body(define_kw, signature, body),
                ),
                ..named
            };
            let r = index_function(idx, define_kw, signature, body);
            extends(opened, r) && r.function_bodies.len() == opened.function_bodies.len()
        }),
{
    let named = idx.add_global(
        SymbolKind::Function,
        UseDefKind::Def,
        signature.name.1,
        signature.name.0,
    );
    let id = idx.function_bodies.len() as usize;
    let n = (idx.function_bodies.len() + 1) as nat;
    let opened = IndexView {
        function_bodies: named.function_bodies.push(opened_body(define_kw, signature, body)),
        ..named
    };
    assert(extends(opened, opened));
    let inv = kept(opened, n);
    let astep = arg_step(id);
    assert forall|b: IndexView, a: FuncArgView| inv(b) implies inv(#[trigger] astep(b, a)) by {
        lemma_add_func_local_grows(
            b,
            id,
            SymbolKind::LocalVar,
            UseDefKind::Def,
            a.name.1,
            a.name.0,
        );
        lemma_extends_trans(opened, b, astep(b, a));
    }
    lemma_fold_keeps(signature.args, opened, astep, inv);
    let bstep = block_step(id);
    assert forall|b: IndexView, block: BasicBlockView| inv(b) implies inv(
        #[trigger] bstep(b, block),
    ) by {
        lemma_index_block_grows(b, id, block);
        lemma_extends_trans(opened, b, bstep(b, block));
    }
    lemma_fold_keeps(body.basic_blocks, signature.args.fold_left(opened, astep), bstep, inv);
}

/// The index has one function body for each function definition, in the
/// order of the statements, with the name, the range and the blocks of
/// the definition; a declaration opens none.
pub proof fn lemma_bodies_match_definitions(tokens: Seq<Tok>, stmts: Seq<StatementView>)
    requires
        stmts.len() <= usize::MAX,
    ensures
        has_bodies(built_index(tokens, stmts), defined_bodies(stmts)),
{
    lemma_first_pass_bodies(stmts);
    lemma_index_statements_consistent(stmts);
    let start = Scan { index: index_statements(stmts), cursor: None };
    lemma_tokens_grow(start, tokens);
    lemma_extends_keeps_bodies(start.index, built_index(tokens, stmts), defined_bodies(stmts));
}

// ---------------------------------------------------------------------
// Every global name is classified
// ---------------------------------------------------------------------

/// Whether the statement defines a global variable named `name`.
pub open spec fn defines_global(stmt: StatementView, name: Seq<char>) -> bool {
    match stmt {
        StatementView::GlobalVar { name: n, def } => n.0 == name,
        _ => false,
    }
}

/// Whether some statement declares or defines a function named `name`.
pub open spec fn function_declared(stmts: Seq<StatementView>, name: Seq<char>) -> bool {
    exists|j: int| 0 <= j < stmts.len() && declares_function(#[trigger] stmts[j], name)
}

/// Whether some statement defines a global variable named `name`.
pub open spec fn global_defined(stmts: Seq<StatementView>, name: Seq<char>) -> bool {
    exists|j: int| 0 <= j < stmts.len() && defines_global(#[trigger] stmts[j], name)
}

/// Whether the span is in exactly one of the three lists.
pub open spec fn in_one_list(l: UseDefView, span: Span) -> bool {
    ||| l.decls.contains(span) && !l.defs.contains(span) && !l.uses.contains(span)
    ||| !l.decls.contains(span) && l.defs.contains(span) && !l.uses.contains(span)
    ||| !l.decls.contains(span) && !l.defs.contains(span) && l.uses.contains(span)
}

/// After the first pass the table of functions has exactly the names
/// that some statement declares or defines as a function, and the table
/// of global variables exactly the names of the global variable
/// statements.
pub proof fn lemma_first_pass_names(stmts: Seq<StatementView>, name: Seq<char>)
    ensures
        index_statements(stmts).functions.contains_key(name) == function_declared(stmts, name),
        index_statements(stmts).global_vars.contains_key(name) == global_defined(stmts, name),
    decreases stmts.len(),
{
    if stmts.len() > 0 {
        let front = stmts.drop_last();
        let last = stmts.last();
        lemma_first_pass_names(front, name);
        let before = index_statements(front);
        let after = index_statement(before, last);
        assert(after == index_statements(stmts));
        match last {
            StatementView::FuncDef { define_kw, signature, body } => {
                lemma_function_keeps_global_vars(before, define_kw, signature, body);
            },
            _ => {},
        }
        assert(after.functions.contains_key(name) == (before.functions.contains_key(name)
            || declares_function(last, name)));
        assert(after.global_vars.contains_key(name) == (before.global_vars.contains_key(name)
            || defines_global(last, name)));
        if function_declared(front, name) {
            let j = choose|j: int|
                0 <= j < front.len() && declares_function(#[trigger] front[j], name);
            assert(declares_function(stmts[j], name));
        }
        if global_defined(front, name) {
            let j = choose|j: int|
                0 <= j < front.len() && defines_global(#[trigger] front[j], name);
            assert(defines_global(stmts[j], name));
        }
        if declares_function(last, name) {
            assert(declares_function(stmts[stmts.len() - 1], name));
        }
        if defines_global(last, name) {
            assert(defines_global(stmts[stmts.len() - 1], name));
        }
        if function_declared(stmts, name) {
            let j = choose|j: int|
                0 <= j < stmts.len() && declares_function(#[trigger] stmts[j], name);
            if j < front.len() {
                assert(declares_function(front[j], name));
            }
        }
        if global_defined(stmts, name) {
            let j = choose|j: int|
                0 <= j < stmts.len() && defines_global(#[trigger] stmts[j], name);
            if j < front.len() {
                assert(defines_global(front[j], name));
            }
        }
    }
}

/// The second pass adds no function: at every moment of it the table of
/// functions has the names that it had after the first pass. A name of
/// that table gets no entry as a global variable that it did not have.
/// A global name that is no function is recorded as an occurrence of a
/// global variable from the moment it was read.
proof fn lemma_names_so_far(tokens: Seq<Tok>, stmts: Seq<StatementView>, m: int)
    requires
        stmts.len() <= usize::MAX,
        0 <= m <= tokens.len(),
    ensures
        ({
            let first = index_statements(stmts);
            let idx = scanned(tokens, stmts, m).index;
            &&& idx.function_bodies.len() <= usize::MAX
            &&& forall|n: Seq<char>|
                idx.functions.contains_key(n) == first.functions.contains_key(n)
            &&& forall|n: Seq<char>|
                first.functions.contains_key(n) ==> idx.global_vars.contains_key(n)
                    == first.global_vars.contains_key(n)
            &&& forall|i: int|
                0 <= i < m && (#[trigger] tokens[i]).0.kind == TokenKind::GlobalName
                    && !first.functions.contains_key(tokens[i].0.text)
                    ==> idx.global_vars.contains_key(tokens[i].0.text)
                    && idx.global_vars[tokens[i].0.text].has(tokens[i].1)
        }),
    decreases m,
{
    let first = index_statements(stmts);
    if m == 0 {
        lemma_index_statements_consistent(stmts);
    } else {
        lemma_names_so_far(tokens, stmts, m - 1);
        lemma_scanned_next(tokens, stmts, m - 1);
        let before = scanned(tokens, stmts, m - 1);
        let tok = tokens[m - 1];
        let after = index_token(before, tok);
        lemma_index_token_grows(before, tok);
        assert(extends(before.index, after.index));
        if tok.0.kind == TokenKind::GlobalName {
            lemma_add_global_grows(
                before.index,
                SymbolKind::GlobalVar,
                UseDefKind::Use,
                tok.1,
                tok.0.text,
            );
        }
        assert forall|i: int|
            0 <= i < m && (#[trigger] tokens[i]).0.kind == TokenKind::GlobalName
                && !first.functions.contains_key(
                tokens[i].0.text,
            ) implies after.index.global_vars.contains_key(tokens[i].0.text)
            && after.index.global_vars[tokens[i].0.text].has(tokens[i].1) by {
            if i < m - 1 {
                let l = before.index.global_vars[tokens[i].0.text];
                assert(l.has(tokens[i].1));
                assert(l.of_kind(UseDefKind::Decl).contains(tokens[i].1) || l.of_kind(
                    UseDefKind::Def,
                ).contains(tokens[i].1) || l.of_kind(UseDefKind::Use).contains(tokens[i].1));
            }
        }
    }
}

/// Every global name of the document is classified by what the
/// statements declare, wherever they stand.
///
/// Where some statement declares or defines a function of that name, the
/// token is recorded in exactly one list of that function, and the name
/// has no entry as a global variable unless a statement defines such a
/// variable. Where no statement does, the token is recorded in exactly one
/// list of the global variable of that name, and the name has no entry as
/// a function.
pub proof fn lemma_global_name_classified(tokens: Seq<Tok>, stmts: Seq<StatementView>, i: int)
    requires
        stmts.len() <= usize::MAX,
        0 <= i < tokens.len(),
        tokens[i].0.kind == TokenKind::GlobalName,
    ensures
        ({
            let idx = built_index(tokens, stmts);
            let name = tokens[i].0.text;
            let span = tokens[i].1;
            if function_declared(stmts, name) {
                &&& idx.functions.contains_key(name)
                &&& in_one_list(idx.functions[name], span)
                &&& idx.global_vars.contains_key(name) == global_defined(stmts, name)
                &&& list_for(idx.global_vars, name).uses.len() == 0
            } else {
                &&& !idx.functions.contains_key(name)
                &&& idx.global_vars.contains_key(name)
                &&& in_one_list(idx.global_vars[name], span)
            }
        }),
{
    let idx = built_index(tokens, stmts);
    let name = tokens[i].0.text;
    let span = tokens[i].1;
    lemma_first_pass_names(stmts, name);
    lemma_names_so_far(tokens, stmts, tokens.len() as int);
    assert(tokens.take(tokens.len() as int) =~= tokens);
    lemma_built_index_consistent(tokens, stmts);
    if function_declared(stmts, name) {
        lemma_function_use_so_far(tokens, stmts, i, tokens.len() as int);
        assert(idx.functions[name].distinct());
    } else {
        assert(idx.global_vars[name].distinct());
    }
}

// ---------------------------------------------------------------------
// Which branches a function body holds
// ---------------------------------------------------------------------

/// Whether the table holds a branch to `target` from the block labelled
/// `source`.
pub open spec fn has_edge(e: Edges, target: Seq<char>, source: Name) -> bool {
    e.contains_key(target) && e[target].contains(source)
}

/// Whether one of the names is `target`.
pub open spec fn names_target(refs: Seq<Name>, target: Seq<char>) -> bool {
    exists|r: int| 0 <= r < refs.len() && (#[trigger] refs[r]).0 == target
}

/// Whether the instruction, in a block with the given label, branches from
/// the block labelled `source` to `target`: the block has that label, the
/// instruction is no `phi`, and it names the target.
pub open spec fn instruction_branches(
    label: Option<Name>,
    ins: InstructionView,
    target: Seq<char>,
    source: Name,
) -> bool {
    branches(label, ins.instruction.0) && label == Some(source) && names_target(
        ins.basic_block_refs,
        target,
    )
}

/// Whether one of the instructions branches from `source` to `target`.
pub open spec fn instructions_branch(
    label: Option<Name>,
    instrs: Seq<InstructionView>,
    target: Seq<char>,
    source: Name,
) -> bool {
    exists|k: int|
        0 <= k < instrs.len() && instruction_branches(label, #[trigger] instrs[k], target, source)
}

/// Whether one of the blocks is labelled `source` and has an instruction
/// that is no `phi` and names `target`.
pub open spec fn blocks_branch(
    blocks: Seq<BasicBlockView>,
    target: Seq<char>,
    source: Name,
) -> bool {
    exists|b: int|
        0 <= b < blocks.len() && instructions_branch(
            (#[trigger] blocks[b]).label,
            blocks[b].instructions,
            target,
            source,
        )
}

/// The table of incoming branches of the function body holds exactly the
/// branches of its blocks: a source for a target if and only if the block
/// with that label has an instruction that is no `phi` and names the
/// target.
pub open spec fn edges_match(body: FunctionBodyView) -> bool {
    forall|t: Seq<char>, s: Name| #[trigger]
        has_edge(body.incoming_bb_branches, t, s) == blocks_branch(body.basic_blocks, t, s)
}

/// Every function body of the index holds exactly the branches of its
/// blocks.
pub open spec fn all_edges_match(idx: IndexView) -> bool {
    forall|j: int|
        0 <= j < idx.function_bodies.len() ==> edges_match(#[trigger] idx.function_bodies[j])
}

/// What a step in the scope of the function at place `id` leaves as it
/// is: the number of function bodies, the blocks of each, and the
/// branches of every other function.
pub open spec fn edges_framed(before: IndexView, after: IndexView, id: usize) -> bool {
    &&& id < before.function_bodies.len()
    &&& after.function_bodies.len() == before.function_bodies.len()
    &&& forall|j: int|
        0 <= j < before.function_bodies.len() ==> (#[trigger] after.function_bodies[j]).basic_blocks
            == before.function_bodies[j].basic_blocks
    &&& forall|j: int|
        0 <= j < before.function_bodies.len() && j != id ==> (
        #[trigger] after.function_bodies[j]).incoming_bb_branches
            == before.function_bodies[j].incoming_bb_branches
}

/// The branches of the function at place `id`.
pub open spec fn edges_at(idx: IndexView, id: usize) -> Edges {
    idx.function_bodies[id as int].incoming_bb_branches
}

/// Entering an edge adds that edge and no other.
pub proof fn lemma_edge_added(e: Edges, target: Seq<char>, source: Name, t: Seq<char>, s: Name)
    ensures
        has_edge(with_edge(e, target, source), t, s) == (has_edge(e, t, s) || (t == target && s
            == source)),
{
    lemma_push_contains(sources_of(e, target), source, s);
}

proof fn lemma_local_keeps_edges(
    idx: IndexView,
    id: usize,
    k: SymbolKind,
    ud: UseDefKind,
    span: Span,
    name: Seq<char>,
)
    requires
        !k.is_global(),
        id < idx.function_bodies.len(),
    ensures
        edges_framed(idx, idx.add_func_local(id, k, ud, span, name), id),
        edges_at(idx.add_func_local(id, k, ud, span, name), id) == edges_at(idx, id),
{
}

proof fn lemma_ref_edges(
    idx: IndexView,
    id: usize,
    label: Option<Name>,
    mnemonic: Seq<char>,
    r: Name,
)
    requires
        id < idx.function_bodies.len(),
    ensures
        edges_framed(idx, index_ref(idx, id, label, mnemonic, r), id),
        forall|t: Seq<char>, s: Name| #[trigger]
            has_edge(edges_at(index_ref(idx, id, label, mnemonic, r), id), t, s) == (has_edge(
                edges_at(idx, id),
                t,
                s,
            ) || (branches(label, mnemonic) && label == Some(s) && r.0 == t)),
{
    let used = idx.add_func_local(id, SymbolKind::Label, UseDefKind::Use, r.1, r.0);
    lemma_local_keeps_edges(idx, id, SymbolKind::Label, UseDefKind::Use, r.1, r.0);
    let after = index_ref(idx, id, label, mnemonic, r);
    assert forall|t: Seq<char>, s: Name| #[trigger]
        has_edge(edges_at(after, id), t, s) == (has_edge(edges_at(idx, id), t, s) || (branches(
            label,
            mnemonic,
        ) && label == Some(s) && r.0 == t)) by {
        if branches(label, mnemonic) {
            lemma_edge_added(edges_at(used, id), r.0, label->0, t, s);
        }
    }
}

proof fn lemma_framed_trans(a: IndexView, b: IndexView, c: IndexView, id: usize)
    requires
        edges_framed(a, b, id),
        edges_framed(b, c, id),
    ensures
        edges_framed(a, c, id),
{
    assert forall|j: int| 0 <= j < a.function_bodies.len() implies (
    #[trigger] c.function_bodies[j]).basic_blocks == a.function_bodies[j].basic_blocks by {
        assert(b.function_bodies[j].basic_blocks == a.function_bodies[j].basic_blocks);
    }
    assert forall|j: int| 0 <= j < a.function_bodies.len() && j != id implies (
    #[trigger] c.function_bodies[j]).incoming_bb_branches
        == a.function_bodies[j].incoming_bb_branches by {
        assert(b.function_bodies[j].incoming_bb_branches
            == a.function_bodies[j].incoming_bb_branches);
    }
}

proof fn lemma_refs_edges(
    idx: IndexView,
    id: usize,
    label: Option<Name>,
    mnemonic: Seq<char>,
    refs: Seq<Name>,
)
    requires
        id < idx.function_bodies.len(),
    ensures
        edges_framed(idx, refs.fold_left(idx, ref_step(id, label, mnemonic)), id),
        forall|t: Seq<char>, s: Name| #[trigger]
            has_edge(edges_at(refs.fold_left(idx, ref_step(id, label, mnemonic)), id), t, s) == (
            has_edge(edges_at(idx, id), t, s) || (branches(label, mnemonic) && label == Some(s)
                && names_target(refs, t))),
    decreases refs.len(),
{
    let step = ref_step(id, label, mnemonic);
    let after = refs.fold_left(idx, step);
    if refs.len() > 0 {
        let front = refs.drop_last();
        let before = front.fold_left(idx, step);
        lemma_refs_edges(idx, id, label, mnemonic, front);
        lemma_ref_edges(before, id, label, mnemonic, refs.last());
        lemma_framed_trans(idx, before, after, id);
        assert forall|t: Seq<char>, s: Name| #[trigger]
            has_edge(edges_at(after, id), t, s) == (has_edge(edges_at(idx, id), t, s) || (branches(
                label,
                mnemonic,
            ) && label == Some(s) && names_target(refs, t))) by {
            assert(has_edge(edges_at(before, id), t, s) == (has_edge(edges_at(idx, id), t, s) || (
            branches(label, mnemonic) && label == Some(s) && names_target(front, t))));
            if names_target(front, t) {
                let r = choose|r: int| 0 <= r < front.len() && (#[trigger] front[r]).0 == t;
                assert(refs[r].0 == t);
            }
            if refs.last().0 == t {
                assert(refs[refs.len() - 1].0 == t);
            }
            if names_target(refs, t) {
                let r = choose|r: int| 0 <= r < refs.len() && (#[trigger] refs[r]).0 == t;
                if r < front.len() {
                    assert(front[r].0 == t);
                }
            }
        }
    }
}

proof fn lemma_instruction_edges(
    idx: IndexView,
    id: usize,
    label: Option<Name>,
    ins: InstructionView,
)
    requires
        id < idx.function_bodies.len(),
    ensures
        edges_framed(idx, index_instruction(idx, id, label, ins), id),
        forall|t: Seq<char>, s: Name| #[trigger]
            has_edge(edges_at(index_instruction(idx, id, label, ins), id), t, s) == (has_edge(
                edges_at(idx, id),
                t,
                s,
            ) || instruction_branches(label, ins, t, s)),
{
    let defined = match ins.assignment_target {
        Some(t) => idx.add_func_local(id, SymbolKind::LocalVar, UseDefKind::Def, t.1, t.0),
        None => idx,
    };
    match ins.assignment_target {
        Some(t) => {
            lemma_local_keeps_edges(idx, id, SymbolKind::LocalVar, UseDefKind::Def, t.1, t.0);
        },
        None => {},
    }
    lemma_refs_edges(defined, id, label, ins.instruction.0, ins.basic_block_refs);
    lemma_framed_trans(idx, defined, index_instruction(idx, id, label, ins), id);
}

proof fn lemma_instructions_edges(
    idx: IndexView,
    id: usize,
    label: Option<Name>,
    instrs: Seq<InstructionView>,
)
    requires
        id < idx.function_bodies.len(),
    ensures
        edges_framed(idx, instrs.fold_left(idx, instruction_step(id, label)), id),
        forall|t: Seq<char>, s: Name| #[trigger]
            has_edge(edges_at(instrs.fold_left(idx, instruction_step(id, label)), id), t, s) == (
            has_edge(edges_at(idx, id), t, s) || instructions_branch(label, instrs, t, s)),
    decreases instrs.len(),
{
    let step = instruction_step(id, label);
    let after = instrs.fold_left(idx, step);
    if instrs.len() > 0 {
        let front = instrs.drop_last();
        let before = front.fold_left(idx, step);
        lemma_instructions_edges(idx, id, label, front);
        lemma_instruction_edges(before, id, label, instrs.last());
        lemma_framed_trans(idx, before, after, id);
        assert forall|t: Seq<char>, s: Name| #[trigger]
            has_edge(edges_at(after, id), t, s) == (has_edge(edges_at(idx, id), t, s)
                || instructions_branch(label, instrs, t, s)) by {
            assert(has_edge(edges_at(before, id), t, s) == (has_edge(edges_at(idx, id), t, s)
                || instructions_branch(label, front, t, s)));
            if instructions_branch(label, front, t, s) {
                let k = choose|k: int|
                    0 <= k < front.len() && instruction_branches(label, #[trigger] front[k], t, s);
                assert(instruction_branches(label, instrs[k], t, s));
            }
            if instruction_branches(label, instrs.last(), t, s) {
                assert(instruction_branches(label, instrs[instrs.len() - 1], t, s));
            }
            if instructions_branch(label, instrs, t, s) {
                let k = choose|k: int|
                    0 <= k < instrs.len() && instruction_branches(
                        label,
                        #[trigger] instrs[k],
                        t,
                        s,
                    );
                if k < front.len() {
                    assert(instruction_branches(label, front[k], t, s));
                }
            }
        }
    }
}

proof fn lemma_block_edges(idx: IndexView, id: usize, block: BasicBlockView)
    requires
        id < idx.function_bodies.len(),
    ensures
        edges_framed(idx, index_block(idx, id, block), id),
        forall|t: Seq<char>, s: Name| #[trigger]
            has_edge(edges_at(index_block(idx, id, block), id), t, s) == (has_edge(
                edges_at(idx, id),
                t,
                s,
            ) || instructions_branch(block.label, block.instructions, t, s)),
{
    let labelled = match block.label {
        Some(l) => idx.add_func_local(id, SymbolKind::Label, UseDefKind::Def, l.1, l.0),
        None => idx,
    };
    match block.label {
        Some(l) => {
            lemma_local_keeps_edges(idx, id, SymbolKind::Label, UseDefKind::Def, l.1, l.0);
        },
        None => {},
    }
    lemma_instructions_edges(labelled, id, block.label, block.instructions);
    lemma_framed_trans(idx, labelled, index_block(idx, id, block), id);
}

proof fn lemma_blocks_edges(idx: IndexView, id: usize, blocks: Seq<BasicBlockView>)
    requires
        id < idx.function_bodies.len(),
    ensures
        edges_framed(idx, blocks.fold_left(idx, block_step(id)), id),
        forall|t: Seq<char>, s: Name| #[trigger]
            has_edge(edges_at(blocks.fold_left(idx, block_step(id)), id), t, s) == (has_edge(
                edges_at(idx, id),
                t,
                s,
            ) || blocks_branch(blocks, t, s)),
    decreases blocks.len(),
{
    let step = block_step(id);
    let after = blocks.fold_left(idx, step);
    if blocks.len() > 0 {
        let front = blocks.drop_last();
        let last = blocks.last();
        let before = front.fold_left(idx, step);
        lemma_blocks_edges(idx, id, front);
        lemma_block_edges(before, id, last);
        lemma_framed_trans(idx, before, after, id);
        assert forall|t: Seq<char>, s: Name| #[trigger]
            has_edge(edges_at(after, id), t, s) == (has_edge(edges_at(idx, id), t, s)
                || blocks_branch(blocks, t, s)) by {
            assert(has_edge(edges_at(before, id), t, s) == (has_edge(edges_at(idx, id), t, s)
                || blocks_branch(front, t, s)));
            if blocks_branch(front, t, s) {
                let b = choose|b: int|
                    0 <= b < front.len() && instructions_branch(
                        (#[trigger] front[b]).label,
                        front[b].instructions,
                        t,
                        s,
                    );
                assert(instructions_branch(blocks[b].label, blocks[b].instructions, t, s));
            }
            if instructions_branch(last.label, last.instructions, t, s) {
                let b = blocks.len() - 1;
                assert(instructions_branch(blocks[b].label, blocks[b].instructions, t, s));
            }
            if blocks_branch(blocks, t, s) {
                let b = choose|b: int|
                    0 <= b < blocks.len() && instructions_branch(
                        (#[trigger] blocks[b]).label,
                        blocks[b].instructions,
                        t,
                        s,
                    );
                if b < front.len() {
                    assert(instructions_branch(front[b].label, front[b].instructions, t, s));
                }
            }
        }
    }
}

proof fn lemma_args_edges(idx: IndexView, id: usize, args: Seq<FuncArgView>)
    requires
        id < idx.function_bodies.len(),
    ensures
        edges_framed(idx, args.fold_left(idx, arg_step(id)), id),
        edges_at(args.fold_left(idx, arg_step(id)), id) == edges_at(idx, id),
    decreases args.len(),
{
    if args.len() > 0 {
        let front = args.drop_last();
        let before = front.fold_left(idx, arg_step(id));
        lemma_args_edges(idx, id, front);
        let a = args.last();
        lemma_local_keeps_edges(
            before,
            id,
            SymbolKind::LocalVar,
            UseDefKind::Def,
            a.name.1,
            a.name.0,
        );
        lemma_framed_trans(idx, before, args.fold_left(idx, arg_step(id)), id);
    }
}

/// A function definition gives its own body exactly the branches of its
/// blocks, and leaves every other body as it is in blocks and branches.
proof fn lemma_function_edges(
    idx: IndexView,
    define_kw: Span,
    signature: FuncSignatureView,
    body: FuncBodyView,
)
    requires
        idx.function_bodies.len() < usize::MAX,
        all_edges_match(idx),
    ensures
        all_edges_match(index_function(idx, define_kw, signature, body)),
{
    let id = idx.function_bodies.len() as usize;
    let named = idx.add_global(
        SymbolKind::Function,
        UseDefKind::Def,
        signature.name.1,
        signature.name.0,
    );
    let fresh = opened_body(define_kw, signature, body);
    let opened = IndexView { function_bodies: named.function_bodies.push(fresh), ..named };
    let with_args = signature.args.fold_left(opened, arg_step(id));
    let after = index_function(idx, define_kw, signature, body);
    lemma_args_edges(opened, id, signature.args);
    lemma_blocks_edges(with_args, id, body.basic_blocks);
    lemma_framed_trans(opened, with_args, after, id);
    assert forall|j: int| 0 <= j < after.function_bodies.len() implies edges_match(
        #[trigger] after.function_bodies[j],
    ) by {
        if j < id {
            assert(edges_match(idx.function_bodies[j]));
            assert(opened.function_bodies[j] == idx.function_bodies[j]);
            assert(after.function_bodies[j].basic_blocks == opened.function_bodies[j].basic_blocks);
            assert(after.function_bodies[j].incoming_bb_branches
                == opened.function_bodies[j].incoming_bb_branches);
        } else {
            assert(after.function_bodies[j].basic_blocks == opened.function_bodies[j].basic_blocks);
            assert(opened.function_bodies[j] == fresh);
            assert forall|t: Seq<char>, s: Name| #[trigger]
                has_edge(after.function_bodies[j].incoming_bb_branches, t, s) == blocks_branch(
                    after.function_bodies[j].basic_blocks,
                    t,
                    s,
                ) by {
                assert(has_edge(edges_at(after, id), t, s) == (has_edge(
                    edges_at(with_args, id),
                    t,
                    s,
                ) || blocks_branch(body.basic_blocks, t, s)));
                assert(!has_edge(fresh.incoming_bb_branches, t, s));
            }
        }
    }
}

proof fn lemma_first_pass_edges(stmts: Seq<StatementView>)
    requires
        stmts.len() <= usize::MAX,
    ensures
        all_edges_match(index_statements(stmts)),
    decreases stmts.len(),
{
    if stmts.len() > 0 {
        let front = stmts.drop_last();
        lemma_first_pass_edges(front);
        lemma_index_statements_consistent(front);
        let before = index_statements(front);
        match stmts.last() {
            StatementView::FuncDef { define_kw, signature, body } => {
                lemma_function_edges(before, define_kw, signature, body);
            },
            _ => {},
        }
    }
}

/// The branches that the index holds are exactly those of the blocks.
///
/// In every function body of the index of a document, the table of
/// incoming branches has a source for a target if and only if the block
/// with that label has an instruction that is no `phi` and names the
/// target. So a `phi` adds no branch, a block that names a target twice
/// is one source, and two blocks that name it are two.
pub proof fn lemma_built_index_edges(tokens: Seq<Tok>, stmts: Seq<StatementView>)
    requires
        stmts.len() <= usize::MAX,
    ensures
        all_edges_match(built_index(tokens, stmts)),
{
    lemma_first_pass_edges(stmts);
    lemma_index_statements_consistent(stmts);
    let start = Scan { index: index_statements(stmts), cursor: None };
    lemma_tokens_keep_edges(start, tokens);
    let after = built_index(tokens, stmts);
    assert forall|j: int| 0 <= j < after.function_bodies.len() implies edges_match(
        #[trigger] after.function_bodies[j],
    ) by {
        assert(edges_match(start.index.function_bodies[j]));
    }
}

/// The second pass leaves the blocks and the branches of every function
/// body as they are.
proof fn lemma_tokens_keep_edges(start: Scan, tokens: Seq<Tok>)
    requires
        start.index.function_bodies.len() <= usize::MAX,
    ensures
        ({
            let after = tokens.fold_left(start, token_step()).index;
            &&& after.function_bodies.len() == start.index.function_bodies.len()
            &&& forall|j: int|
                0 <= j < after.function_bodies.len() ==> (
                #[trigger] after.function_bodies[j]).basic_blocks
                    == start.index.function_bodies[j].basic_blocks
                    && after.function_bodies[j].incoming_bb_branches
                    == start.index.function_bodies[j].incoming_bb_branches
        }),
    decreases tokens.len(),
{
    if tokens.len() > 0 {
        let front = tokens.drop_last();
        lemma_tokens_keep_edges(start, front);
        let before = front.fold_left(start, token_step());
        let tok = tokens.last();
        let after = index_token(before, tok);
        lemma_scope(before.index.function_bodies, before.cursor, tok.1.start);
        assert forall|j: int| 0 <= j < after.index.function_bodies.len() implies (
        #[trigger] after.index.function_bodies[j]).basic_blocks
            == before.index.function_bodies[j].basic_blocks
            && after.index.function_bodies[j].incoming_bb_branches
            == before.index.function_bodies[j].incoming_bb_branches by {}
    }
}

// ---------------------------------------------------------------------
// Every block reference is recorded
// ---------------------------------------------------------------------

/// Whether the table of labels holds each of the names `refs` as an
/// occurrence of the label that it names.
pub open spec fn labels_hold(labels: Lists, refs: Seq<Name>) -> bool {
    forall|r: int|
        0 <= r < refs.len() ==> labels.contains_key((#[trigger] refs[r]).0)
            && labels[refs[r].0].has(refs[r].1)
}

/// Whether the table of labels holds the block references of each of the
/// instructions.
pub open spec fn instructions_recorded(labels: Lists, instrs: Seq<InstructionView>) -> bool {
    forall|k: int|
        0 <= k < instrs.len() ==> labels_hold(labels, (#[trigger] instrs[k]).basic_block_refs)
}

/// Whether the function body holds, in its table of labels, every block
/// reference of every instruction of its blocks, those of `phi`
/// instructions among them.
pub open spec fn blocks_recorded(labels: Lists, blocks: Seq<BasicBlockView>) -> bool {
    forall|b: int|
        0 <= b < blocks.len() ==> instructions_recorded(labels, (#[trigger] blocks[b]).instructions)
}

/// Every function body of the index holds the block references of its
/// blocks.
pub open spec fn all_blocks_recorded(idx: IndexView) -> bool {
    forall|j: int|
        0 <= j < idx.function_bodies.len() ==> blocks_recorded(
            (#[trigger] idx.function_bodies[j]).labels,
            idx.function_bodies[j].basic_blocks,
        )
}

/// What a table holds, a table that extends it holds too.
pub proof fn lemma_extend_keeps_has(a: Lists, b: Lists, name: Seq<char>, span: Span)
    requires
        lists_extend(a, b),
        a.contains_key(name),
        a[name].has(span),
    ensures
        b.contains_key(name),
        b[name].has(span),
{
    let l = a[name];
    assert(l.of_kind(UseDefKind::Decl).contains(span) || l.of_kind(UseDefKind::Def).contains(span)
        || l.of_kind(UseDefKind::Use).contains(span));
}

proof fn lemma_extend_keeps_recorded(a: Lists, b: Lists, blocks: Seq<BasicBlockView>)
    requires
        lists_extend(a, b),
        blocks_recorded(a, blocks),
    ensures
        blocks_recorded(b, blocks),
{
    assert forall|x: int| 0 <= x < blocks.len() implies instructions_recorded(
        b,
        (#[trigger] blocks[x]).instructions,
    ) by {
        let instrs = blocks[x].instructions;
        assert(instructions_recorded(a, instrs));
        lemma_extend_keeps_instructions(a, b, instrs);
    }
}

proof fn lemma_extend_keeps_instructions(a: Lists, b: Lists, instrs: Seq<InstructionView>)
    requires
        lists_extend(a, b),
        instructions_recorded(a, instrs),
    ensures
        instructions_recorded(b, instrs),
{
    assert forall|k: int| 0 <= k < instrs.len() implies labels_hold(
        b,
        (#[trigger] instrs[k]).basic_block_refs,
    ) by {
        let refs = instrs[k].basic_block_refs;
        assert(labels_hold(a, refs));
        assert forall|r: int| 0 <= r < refs.len() implies b.contains_key((#[trigger] refs[r]).0)
            && b[refs[r].0].has(refs[r].1) by {
            lemma_extend_keeps_has(a, b, refs[r].0, refs[r].1);
        }
    }
}

proof fn lemma_instructions_record(
    idx: IndexView,
    id: usize,
    label: Option<Name>,
    instrs: Seq<InstructionView>,
)
    requires
        id < idx.function_bodies.len(),
    ensures
        instructions_recorded(
            instrs.fold_left(idx, instruction_step(id, label)).function_bodies[id as int].labels,
            instrs,
        ),
    decreases instrs.len(),
{
    let step = instruction_step(id, label);
    let after = instrs.fold_left(idx, step);
    if instrs.len() > 0 {
        let front = instrs.drop_last();
        let last = instrs.last();
        let before = front.fold_left(idx, step);
        lemma_instructions_record(idx, id, label, front);
        let n = idx.function_bodies.len();
        let inv = kept(idx, n);
        assert forall|b: IndexView, ins: InstructionView| inv(b) implies inv(
            #[trigger] step(b, ins),
        ) by {
            lemma_index_instruction_grows(b, id, label, ins);
            lemma_extends_trans(idx, b, step(b, ins));
        }
        lemma_fold_keeps(front, idx, step, inv);
        lemma_index_instruction_grows(before, id, label, last);
        assert(body_extends(before.function_bodies[id as int], after.function_bodies[id as int]));
        lemma_extend_keeps_instructions(
            before.function_bodies[id as int].labels,
            after.function_bodies[id as int].labels,
            front,
        );
        let defined = match last.assignment_target {
            Some(t) => before.add_func_local(id, SymbolKind::LocalVar, UseDefKind::Def, t.1, t.0),
            None => before,
        };
        match last.assignment_target {
            Some(t) => {
                lemma_add_func_local_grows(
                    before,
                    id,
                    SymbolKind::LocalVar,
                    UseDefKind::Def,
                    t.1,
                    t.0,
                );
            },
            None => {},
        }
        let labels = after.function_bodies[id as int].labels;
        assert forall|r: int| 0 <= r < last.basic_block_refs.len() implies labels.contains_key(
            (#[trigger] last.basic_block_refs[r]).0,
        ) && labels[last.basic_block_refs[r].0].has(last.basic_block_refs[r].1) by {
            lemma_refs_recorded(defined, id, label, last.instruction.0, last.basic_block_refs, r);
        }
        assert forall|k: int| 0 <= k < instrs.len() implies labels_hold(
            labels,
            (#[trigger] instrs[k]).basic_block_refs,
        ) by {
            if k < front.len() {
                assert(instrs[k] == front[k]);
            }
        }
    }
}

proof fn lemma_blocks_record(idx: IndexView, id: usize, blocks: Seq<BasicBlockView>)
    requires
        id < idx.function_bodies.len(),
    ensures
        blocks_recorded(
            blocks.fold_left(idx, block_step(id)).function_bodies[id as int].labels,
            blocks,
        ),
    decreases blocks.len(),
{
    let step = block_step(id);
    let after = blocks.fold_left(idx, step);
    if blocks.len() > 0 {
        let front = blocks.drop_last();
        let last = blocks.last();
        let before = front.fold_left(idx, step);
        lemma_blocks_record(idx, id, front);
        let n = idx.function_bodies.len();
        let inv = kept(idx, n);
        assert forall|b: IndexView, block: BasicBlockView| inv(b) implies inv(
            #[trigger] step(b, block),
        ) by {
            lemma_index_block_grows(b, id, block);
            lemma_extends_trans(idx, b, step(b, block));
        }
        lemma_fold_keeps(front, idx, step, inv);
        lemma_index_block_grows(before, id, last);
        assert(body_extends(before.function_bodies[id as int], after.function_bodies[id as int]));
        lemma_extend_keeps_recorded(
            before.function_bodies[id as int].labels,
            after.function_bodies[id as int].labels,
            front,
        );
        let labelled = match last.label {
            Some(l) => before.add_func_local(id, SymbolKind::Label, UseDefKind::Def, l.1, l.0),
            None => before,
        };
        match last.label {
            Some(l) => {
                lemma_add_func_local_grows(
                    before,
                    id,
                    SymbolKind::Label,
                    UseDefKind::Def,
                    l.1,
                    l.0,
                );
            },
            None => {},
        }
        lemma_instructions_record(labelled, id, last.label, last.instructions);
        let labels = after.function_bodies[id as int].labels;
        assert forall|b: int| 0 <= b < blocks.len() implies instructions_recorded(
            labels,
            (#[trigger] blocks[b]).instructions,
        ) by {
            if b < front.len() {
                assert(blocks[b] == front[b]);
            }
        }
    }
}

proof fn lemma_first_pass_records(stmts: Seq<StatementView>)
    requires
        stmts.len() <= usize::MAX,
    ensures
        all_blocks_recorded(index_statements(stmts)),
    decreases stmts.len(),
{
    if stmts.len() > 0 {
        let front = stmts.drop_last();
        lemma_first_pass_records(front);
        lemma_index_statements_consistent(front);
        let before = index_statements(front);
        let after = index_statement(before, stmts.last());
        lemma_index_statement_grows(before, stmts.last());
        assert forall|j: int| 0 <= j < after.function_bodies.len() implies blocks_recorded(
            (#[trigger] after.function_bodies[j]).labels,
            after.function_bodies[j].basic_blocks,
        ) by {
            if j < before.function_bodies.len() {
                assert(body_extends(before.function_bodies[j], after.function_bodies[j]));
                lemma_extend_keeps_recorded(
                    before.function_bodies[j].labels,
                    after.function_bodies[j].labels,
                    before.function_bodies[j].basic_blocks,
                );
            } else {
                match stmts.last() {
                    StatementView::FuncDef { define_kw, signature, body } => {
                        let id = before.function_bodies.len() as usize;
                        let named = before.add_global(
                            SymbolKind::Function,
                            UseDefKind::Def,
                            signature.name.1,
                            signature.name.0,
                        );
                        let opened = IndexView {
                            function_bodies: named.function_bodies.push(
                                opened_body(define_kw, signature, body),
                            ),
                            ..named
                        };
                        let with_args = signature.args.fold_left(opened, arg_step(id));
                        lemma_args_edges(opened, id, signature.args);
                        lemma_blocks_record(with_args, id, body.basic_blocks);
                        lemma_blocks_edges(with_args, id, body.basic_blocks);
                    },
                    _ => {},
                }
            }
        }
    }
}

/// Every block reference is recorded: in every function body of the
/// index of a document, each label that an instruction of its blocks
/// names, a `phi` too, is held as an occurrence of that label in the
/// table of labels of the function.
pub proof fn lemma_built_index_records_refs(tokens: Seq<Tok>, stmts: Seq<StatementView>)
    requires
        stmts.len() <= usize::MAX,
    ensures
        all_blocks_recorded(built_index(tokens, stmts)),
{
    lemma_first_pass_records(stmts);
    lemma_index_statements_consistent(stmts);
    let start = Scan { index: index_statements(stmts), cursor: None };
    lemma_tokens_grow(start, tokens);
    let after = built_index(tokens, stmts);
    assert forall|j: int| 0 <= j < after.function_bodies.len() implies blocks_recorded(
        (#[trigger] after.function_bodies[j]).labels,
        after.function_bodies[j].basic_blocks,
    ) by {
        assert(body_extends(start.index.function_bodies[j], after.function_bodies[j]));
        lemma_extend_keeps_recorded(
            start.index.function_bodies[j].labels,
            after.function_bodies[j].labels,
            start.index.function_bodies[j].basic_blocks,
        );
    }
}

} // verus!
