//! The symbol index: for every name its declarations, definitions and
//! uses, per scope, and a reverse index from byte offsets to occurrences.

use crate::hir_index_build::{
    arg_step, block_step, branches, built_index, debug_name, enclosing_from, index_block,
    index_function, index_instruction, index_ref, index_statement, index_token, instruction_step,
    lemma_fold_next, opened_body, ref_step, statement_step, token_step, Scan,
};
use crate::hir_parser::{
    copy_blocks, copy_name, BasicBlock, BasicBlockView, FuncBody, FuncSignature, Instruction, Name,
    Statement,
};
use crate::hir_tokenizer::{Span, Spanned, Token};
use crate::index_laws::{
    all_blocks_recorded, all_edges_match, consistent, lemma_built_index_consistent,
    lemma_built_index_edges, lemma_built_index_records_refs,
};
use crate::name_table::{same_text, NameTable};
use crate::occurrence_laws::{all_labels_from_blocks, lemma_built_index_labels};
use std::collections::BTreeMap;
use vstd::prelude::*;
use vstd::std_specs::cmp::OrdSpec;
use vstd::std_specs::iter::IteratorSpec;
use vstd::string::*;

verus! {

/// The three ways in which a symbol occurs.
#[derive(Clone, Copy, Debug, PartialEq, Eq, Structural)]
pub enum UseDefKind {
    Decl,
    Def,
    Use,
}

/// The occurrences of one symbol: three lists of spans.
#[derive(Debug, PartialEq, Eq)]
pub struct UseDefList {
    pub decls: Vec<Span>,
    pub defs: Vec<Span>,
    pub uses: Vec<Span>,
}

/// The model of a `UseDefList`.
pub struct UseDefView {
    pub decls: Seq<Span>,
    pub defs: Seq<Span>,
    pub uses: Seq<Span>,
}

impl UseDefView {
    /// The list without occurrences.
    pub open spec fn empty() -> UseDefView {
        UseDefView { decls: Seq::empty(), defs: Seq::empty(), uses: Seq::empty() }
    }

    /// The spans of one kind.
    pub open spec fn of_kind(self, ud: UseDefKind) -> Seq<Span> {
        match ud {
            UseDefKind::Decl => self.decls,
            UseDefKind::Def => self.defs,
            UseDefKind::Use => self.uses,
        }
    }

    /// Whether the span is recorded, as whatever kind.
    pub open spec fn has(self, span: Span) -> bool {
        self.decls.contains(span) || self.defs.contains(span) || self.uses.contains(span)
    }

    /// The list with `span` added at the end of the spans of kind `ud`.
    pub open spec fn with(self, ud: UseDefKind, span: Span) -> UseDefView {
        match ud {
            UseDefKind::Decl => UseDefView { decls: self.decls.push(span), ..self },
            UseDefKind::Def => UseDefView { defs: self.defs.push(span), ..self },
            UseDefKind::Use => UseDefView { uses: self.uses.push(span), ..self },
        }
    }

    /// No span is recorded twice, neither in one list nor in two.
    pub open spec fn distinct(self) -> bool {
        &&& self.decls.no_duplicates()
        &&& self.defs.no_duplicates()
        &&& self.uses.no_duplicates()
        &&& forall|s: Span| !(self.decls.contains(s) && self.defs.contains(s))
        &&& forall|s: Span| !(self.decls.contains(s) && self.uses.contains(s))
        &&& forall|s: Span| !(self.defs.contains(s) && self.uses.contains(s))
    }
}

impl View for UseDefList {
    type V = UseDefView;

    open spec fn view(&self) -> UseDefView {
        UseDefView { decls: self.decls@, defs: self.defs@, uses: self.uses@ }
    }
}

impl Default for UseDefList {
    fn default() -> (r: UseDefList)
        ensures
            r@ == UseDefView::empty(),
    {
        UseDefList { decls: Vec::new(), defs: Vec::new(), uses: Vec::new() }
    }
}

impl Clone for UseDefList {
    fn clone(&self) -> (r: UseDefList)
        ensures
            r@ == self@,
    {
        UseDefList {
            decls: copy_spans(&self.decls),
            defs: copy_spans(&self.defs),
            uses: copy_spans(&self.uses),
        }
    }
}

fn copy_spans(v: &Vec<Span>) -> (r: Vec<Span>)
    ensures
        r@ == v@,
{
    let mut out: Vec<Span> = Vec::new();
    let mut i: usize = 0;
    while i < v.len()
        invariant
            i <= v@.len(),
            out@ =~= v@.subrange(0, i as int),
        decreases v@.len() - i,
    {
        out.push(v[i]);
        i += 1;
    }
    assert(v@.subrange(0, v@.len() as int) =~= v@);
    out
}

fn holds_span(v: &Vec<Span>, span: Span) -> (r: bool)
    ensures
        r == v@.contains(span),
{
    let mut i: usize = 0;
    while i < v.len()
        invariant
            i <= v@.len(),
            forall|j: int| 0 <= j < i ==> v@[j] != span,
        decreases v@.len() - i,
    {
        if v[i] == span {
            return true;
        }
        i += 1;
    }
    false
}

impl UseDefList {
    /// The list of the spans of kind `ud`.
    pub fn get_use_def_kind(&self, ud: UseDefKind) -> (r: &Vec<Span>)
        ensures
            r@ == self@.of_kind(ud),
            *r == match ud {
                UseDefKind::Decl => self.decls,
                UseDefKind::Def => self.defs,
                UseDefKind::Use => self.uses,
            },
    {
        match ud {
            UseDefKind::Decl => &self.decls,
            UseDefKind::Def => &self.defs,
            UseDefKind::Use => &self.uses,
        }
    }

    /// The list of the spans of kind `ud`, to be changed in place: what
    /// the caller leaves in it is that list afterwards, and the two other
    /// lists stay as they are.
    pub fn get_use_def_kind_mut(&mut self, ud: UseDefKind) -> (r: &mut Vec<Span>)
        ensures
            *r == match ud {
                UseDefKind::Decl => old(self).decls,
                UseDefKind::Def => old(self).defs,
                UseDefKind::Use => old(self).uses,
            },
            *final(self) == match ud {
                UseDefKind::Decl => (UseDefList {
                    decls: *final(r),
                    defs: old(self).defs,
                    uses: old(self).uses,
                }),
                UseDefKind::Def => (UseDefList {
                    decls: old(self).decls,
                    defs: *final(r),
                    uses: old(self).uses,
                }),
                UseDefKind::Use => (UseDefList {
                    decls: old(self).decls,
                    defs: old(self).defs,
                    uses: *final(r),
                }),
            },
    {
        match ud {
            UseDefKind::Decl => &mut self.decls,
            UseDefKind::Def => &mut self.defs,
            UseDefKind::Use => &mut self.uses,
        }
    }

    /// Whether the span is recorded, as whatever kind.
    pub fn holds(&self, span: Span) -> (r: bool)
        ensures
            r == self@.has(span),
    {
        holds_span(&self.decls, span) || holds_span(&self.defs, span) || holds_span(
            &self.uses,
            span,
        )
    }

    /// Records `span` as an occurrence of kind `ud`, unless the span is
    /// recorded already, as whatever kind. Says whether it was added.
    pub fn record(&mut self, ud: UseDefKind, span: Span) -> (added: bool)
        ensures
            added == !old(self)@.has(span),
            final(self)@ == if added {
                old(self)@.with(ud, span)
            } else {
                old(self)@
            },
    {
        if self.holds(span) {
            return false;
        }
        self.get_use_def_kind_mut(ud).push(span);
        true
    }
}

/// The model of a table of occurrence lists.
pub type Lists = Map<Seq<char>, UseDefView>;

/// The table as a map from names to the models of their lists.
pub open spec fn lists_of(t: NameTable<UseDefList>) -> Lists {
    Map::new(|n: Seq<char>| t.has(n), |n: Seq<char>| t@[n]@)
}

/// The list that a table has for `name`: empty where it has none.
pub open spec fn list_for(t: Lists, name: Seq<char>) -> UseDefView {
    if t.contains_key(name) {
        t[name]
    } else {
        UseDefView::empty()
    }
}

/// Whether `span` is not yet recorded for `name`.
pub open spec fn is_new(t: Lists, name: Seq<char>, span: Span) -> bool {
    !list_for(t, name).has(span)
}

/// The table after `span` was recorded for `name` as an occurrence of
/// kind `ud`: unchanged where the span is recorded for that name already.
pub open spec fn recorded(t: Lists, name: Seq<char>, ud: UseDefKind, span: Span) -> Lists {
    if is_new(t, name, span) {
        t.insert(name, list_for(t, name).with(ud, span))
    } else {
        t
    }
}

/// Records `span` for `name` in the table. Says whether it was added.
pub fn record_in(
    table: &mut NameTable<UseDefList>,
    name: &str,
    ud: UseDefKind,
    span: Span,
) -> (added: bool)
    requires
        old(table).wf(),
    ensures
        final(table).wf(),
        added == is_new(lists_of(*old(table)), name@, span),
        lists_of(*final(table)) == recorded(lists_of(*old(table)), name@, ud, span),
{
    let ghost before = *table;
    match table.find(name) {
        Some(i) => {
            proof {
                before.lemma_entry(i as int);
            }
            let added = table.entries[i].1.record(ud, span);
            proof {
                before.lemma_value_changed(&*table, i as int);
                assert(lists_of(*table) =~= recorded(lists_of(before), name@, ud, span));
            }
            added
        },
        None => {
            let mut list = UseDefList::default();
            list.get_use_def_kind_mut(ud).push(span);
            proof {
                assert(list@ =~= UseDefView::empty().with(ud, span));
                assert(!UseDefView::empty().has(span));
            }
            table.insert(name.to_owned(), list);
            proof {
                let after = *table;
                assert forall|n: Seq<char>| after.has(n) == (before.has(n) || n == name@) by {
                    assert(after@.contains_key(n) == after.has(n));
                    assert(before@.contains_key(n) == before.has(n));
                }
                assert(lists_of(after) =~= recorded(lists_of(before), name@, ud, span));
            }
            true
        },
    }
}

// ---------------------------------------------------------------------
// Occurrences and function bodies
// ---------------------------------------------------------------------

/// The categories of symbol. The first three live in the global scope,
/// the last two in the scope of one function.
#[derive(Clone, Copy, Debug, PartialEq, Eq, Structural)]
pub enum SymbolKind {
    GlobalVar,
    Function,
    DbgAnnotation,
    Label,
    LocalVar,
}

impl SymbolKind {
    /// Whether symbols of this category live in the global scope.
    pub open spec fn is_global(self) -> bool {
        self == SymbolKind::GlobalVar || self == SymbolKind::Function || self
            == SymbolKind::DbgAnnotation
    }

    /// Whether symbols of this category live in the global scope.
    pub fn in_global_scope(&self) -> (r: bool)
        ensures
            r == self.is_global(),
    {
        match self {
            SymbolKind::GlobalVar => true,
            SymbolKind::Function => true,
            SymbolKind::DbgAnnotation => true,
            SymbolKind::Label => false,
            SymbolKind::LocalVar => false,
        }
    }
}

/// One occurrence of a symbol in the source.
#[derive(Debug, PartialEq, Eq)]
pub struct SymbolOccurrence {
    pub span: Span,
    pub use_def: UseDefKind,
    pub symbol_kind: SymbolKind,
    pub name: String,
    /// For a label or a local variable, the place of its function in
    /// `HIRIndex::function_bodies`.
    pub func_body_id: Option<usize>,
}

/// The model of a `SymbolOccurrence`.
pub struct OccurrenceView {
    pub span: Span,
    pub use_def: UseDefKind,
    pub symbol_kind: SymbolKind,
    pub name: Seq<char>,
    pub func_body_id: Option<usize>,
}

impl View for SymbolOccurrence {
    type V = OccurrenceView;

    open spec fn view(&self) -> OccurrenceView {
        OccurrenceView {
            span: self.span,
            use_def: self.use_def,
            symbol_kind: self.symbol_kind,
            name: self.name@,
            func_body_id: self.func_body_id,
        }
    }
}

impl Clone for SymbolOccurrence {
    fn clone(&self) -> (r: SymbolOccurrence)
        ensures
            r@ == self@,
    {
        SymbolOccurrence {
            span: self.span,
            use_def: self.use_def,
            symbol_kind: self.symbol_kind,
            name: self.name.clone(),
            func_body_id: self.func_body_id,
        }
    }
}

/// The model of the table of incoming branches: for each target label the
/// labels of the blocks that branch to it.
pub type Edges = Map<Seq<char>, Seq<Name>>;

/// The table of incoming branches as a map.
pub open spec fn edges_of(t: NameTable<Vec<Spanned<String>>>) -> Edges {
    Map::new(|n: Seq<char>| t.has(n), |n: Seq<char>| t@[n].deep_view())
}

/// The blocks that are known to branch to `target`.
pub open spec fn sources_of(e: Edges, target: Seq<char>) -> Seq<Name> {
    if e.contains_key(target) {
        e[target]
    } else {
        Seq::empty()
    }
}

/// The edges with one from the block labelled `source` to `target`: it
/// is entered once, however often the block names the target.
pub open spec fn with_edge(e: Edges, target: Seq<char>, source: Name) -> Edges {
    if sources_of(e, target).contains(source) {
        e
    } else {
        e.insert(target, sources_of(e, target).push(source))
    }
}

/// What the index holds of one function definition.
#[derive(Debug, PartialEq, Eq)]
pub struct FunctionBody {
    pub name: Spanned<String>,
    /// From the `define` keyword through the closing bracket.
    pub complete_range: Span,
    pub labels: NameTable<UseDefList>,
    pub local_vars: NameTable<UseDefList>,
    pub basic_blocks: Vec<BasicBlock>,
    /// For each label the labels of the blocks that branch to it.
    pub incoming_bb_branches: NameTable<Vec<Spanned<String>>>,
}

/// The model of a `FunctionBody`.
pub struct FunctionBodyView {
    pub name: Name,
    pub complete_range: Span,
    pub labels: Lists,
    pub local_vars: Lists,
    pub basic_blocks: Seq<BasicBlockView>,
    pub incoming_bb_branches: Edges,
}

impl View for FunctionBody {
    type V = FunctionBodyView;

    open spec fn view(&self) -> FunctionBodyView {
        FunctionBodyView {
            name: self.name.deep_view(),
            complete_range: self.complete_range,
            labels: lists_of(self.labels),
            local_vars: lists_of(self.local_vars),
            basic_blocks: self.basic_blocks.deep_view(),
            incoming_bb_branches: edges_of(self.incoming_bb_branches),
        }
    }
}

impl FunctionBody {
    /// In none of the three tables a name occurs twice.
    pub open spec fn wf(&self) -> bool {
        self.labels.wf() && self.local_vars.wf() && self.incoming_bb_branches.wf()
    }
}

impl FunctionBodyView {
    /// The table of the local category `k`: of the labels, or else of the
    /// local variables.
    pub open spec fn table(self, k: SymbolKind) -> Lists {
        if k == SymbolKind::Label {
            self.labels
        } else {
            self.local_vars
        }
    }

    /// The body with `t` as its table of the local category `k`.
    pub open spec fn with_table(self, k: SymbolKind, t: Lists) -> FunctionBodyView {
        if k == SymbolKind::Label {
            FunctionBodyView { labels: t, ..self }
        } else {
            FunctionBodyView { local_vars: t, ..self }
        }
    }
}

// ---------------------------------------------------------------------
// The index
// ---------------------------------------------------------------------

/// The symbol index of one document.
#[derive(Debug, PartialEq, Eq)]
pub struct HIRIndex {
    pub global_vars: NameTable<UseDefList>,
    pub functions: NameTable<UseDefList>,
    pub dgb_annotations: NameTable<UseDefList>,
    /// The occurrences by the byte offset at which they start.
    pub reverse_idx: BTreeMap<usize, SymbolOccurrence>,
    /// One entry for each function definition, in source order.
    pub function_bodies: Vec<FunctionBody>,
}

/// The model of the reverse index.
pub type Occurrences = Map<usize, OccurrenceView>;

/// The reverse index as a map from start offsets to occurrences.
pub open spec fn occurrences_of(m: BTreeMap<usize, SymbolOccurrence>) -> Occurrences {
    Map::new(|k: usize| m@.contains_key(k), |k: usize| m@[k]@)
}

/// The model of an `HIRIndex`.
pub struct IndexView {
    pub global_vars: Lists,
    pub functions: Lists,
    pub dgb_annotations: Lists,
    pub reverse_idx: Occurrences,
    pub function_bodies: Seq<FunctionBodyView>,
}

impl View for HIRIndex {
    type V = IndexView;

    open spec fn view(&self) -> IndexView {
        IndexView {
            global_vars: lists_of(self.global_vars),
            functions: lists_of(self.functions),
            dgb_annotations: lists_of(self.dgb_annotations),
            reverse_idx: occurrences_of(self.reverse_idx),
            function_bodies: Seq::new(
                self.function_bodies@.len(),
                |i: int| self.function_bodies@[i]@,
            ),
        }
    }
}

impl IndexView {
    /// The index of an empty document.
    pub open spec fn empty() -> IndexView {
        IndexView {
            global_vars: Map::empty(),
            functions: Map::empty(),
            dgb_annotations: Map::empty(),
            reverse_idx: Map::empty(),
            function_bodies: Seq::empty(),
        }
    }

    /// The table of the global category `k`.
    pub open spec fn global_table(self, k: SymbolKind) -> Lists {
        match k {
            SymbolKind::Function => self.functions,
            SymbolKind::DbgAnnotation => self.dgb_annotations,
            _ => self.global_vars,
        }
    }

    /// The index with `t` as its table of the global category `k`.
    pub open spec fn with_global_table(self, k: SymbolKind, t: Lists) -> IndexView {
        match k {
            SymbolKind::Function => IndexView { functions: t, ..self },
            SymbolKind::DbgAnnotation => IndexView { dgb_annotations: t, ..self },
            _ => IndexView { global_vars: t, ..self },
        }
    }

    /// The table in which symbols of category `k` are looked up: a global
    /// one, or one of the function at place `id`.
    pub open spec fn table(self, k: SymbolKind, id: Option<usize>) -> Lists
        recommends
            !k.is_global() ==> id is Some && id->0 < self.function_bodies.len(),
    {
        if k.is_global() {
            self.global_table(k)
        } else {
            self.function_bodies[id->0 as int].table(k)
        }
    }

    /// The reverse index after the occurrence was entered, if `added`
    /// says that it is a new one: it takes the place of whatever started
    /// at the same offset.
    pub open spec fn entered(self, added: bool, occ: OccurrenceView) -> Occurrences {
        if added {
            self.reverse_idx.insert(occ.span.start, occ)
        } else {
            self.reverse_idx
        }
    }

    /// The index after an occurrence of a global symbol was registered.
    /// A span that is recorded for the name already, as whatever kind,
    /// changes nothing.
    pub open spec fn add_global(
        self,
        k: SymbolKind,
        ud: UseDefKind,
        span: Span,
        name: Seq<char>,
    ) -> IndexView
        recommends
            k.is_global(),
    {
        let t = self.global_table(k);
        let occ = OccurrenceView { span, use_def: ud, symbol_kind: k, name, func_body_id: None };
        IndexView {
            reverse_idx: self.entered(is_new(t, name, span), occ),
            ..self.with_global_table(k, recorded(t, name, ud, span))
        }
    }

    /// The index after an occurrence of a label or of a local variable
    /// was registered in the scope of the function at place `id`. The
    /// other functions keep their tables.
    pub open spec fn add_func_local(
        self,
        id: usize,
        k: SymbolKind,
        ud: UseDefKind,
        span: Span,
        name: Seq<char>,
    ) -> IndexView
        recommends
            !k.is_global(),
            id < self.function_bodies.len(),
    {
        let body = self.function_bodies[id as int];
        let t = body.table(k);
        let occ = OccurrenceView {
            span,
            use_def: ud,
            symbol_kind: k,
            name,
            func_body_id: Some(id),
        };
        IndexView {
            reverse_idx: self.entered(is_new(t, name, span), occ),
            function_bodies: self.function_bodies.update(
                id as int,
                body.with_table(k, recorded(t, name, ud, span)),
            ),
            ..self
        }
    }
}

impl IndexView {
    /// Whether an occurrence starts at `k` and covers the offset `pos`.
    pub open spec fn covers_at(self, k: usize, pos: usize) -> bool {
        self.reverse_idx.contains_key(k) && self.reverse_idx[k].span.covers(pos)
    }

    /// Whether the occurrence that starts at `k` is the first of those
    /// that cover the offset `pos`.
    pub open spec fn first_at(self, k: usize, pos: usize) -> bool {
        self.covers_at(k, pos) && forall|j: usize| self.covers_at(j, pos) ==> k <= j
    }

    /// The occurrence at the offset `pos`: of the occurrences whose span
    /// covers `pos` the one that starts first, if there is any.
    pub open spec fn symbol_at(self, pos: usize) -> Option<OccurrenceView> {
        if exists|k: usize| self.first_at(k, pos) {
            Some(self.reverse_idx[choose|k: usize| self.first_at(k, pos)])
        } else {
            None
        }
    }

    /// The spans of kind `ud` of the symbol that `occ` is an occurrence
    /// of, from the table of its category and scope; `None` where the
    /// index has no such scope or no such name.
    pub open spec fn ranges_of(self, occ: OccurrenceView, ud: UseDefKind) -> Option<Seq<Span>> {
        if !occ.symbol_kind.is_global() && !(occ.func_body_id is Some && occ.func_body_id->0
            < self.function_bodies.len()) {
            None
        } else {
            let t = self.table(occ.symbol_kind, occ.func_body_id);
            if t.contains_key(occ.name) {
                Some(t[occ.name].of_kind(ud))
            } else {
                None
            }
        }
    }

    /// The index with an edge from the block labelled `source` to the
    /// block labelled `target`, in the function at place `id`.
    pub open spec fn with_edge(self, id: usize, target: Seq<char>, source: Name) -> IndexView
        recommends
            id < self.function_bodies.len(),
    {
        let body = self.function_bodies[id as int];
        IndexView {
            function_bodies: self.function_bodies.update(
                id as int,
                FunctionBodyView {
                    incoming_bb_branches: with_edge(body.incoming_bb_branches, target, source),
                    ..body
                },
            ),
            ..self
        }
    }
}

impl Default for HIRIndex {
    fn default() -> (r: HIRIndex)
        ensures
            r.wf(),
            r@ == IndexView::empty(),
            r.function_bodies@.len() == 0,
    {
        let r = HIRIndex {
            global_vars: NameTable::new(),
            functions: NameTable::new(),
            dgb_annotations: NameTable::new(),
            reverse_idx: BTreeMap::new(),
            function_bodies: Vec::new(),
        };
        proof {
            assert(r@.global_vars =~= Map::<Seq<char>, UseDefView>::empty());
            assert(r@.functions =~= Map::<Seq<char>, UseDefView>::empty());
            assert(r@.dgb_annotations =~= Map::<Seq<char>, UseDefView>::empty());
            assert(r@.reverse_idx =~= Map::<usize, OccurrenceView>::empty());
            assert(r@.function_bodies =~= Seq::<FunctionBodyView>::empty());
        }
        r
    }
}

impl HIRIndex {
    /// In no table of the index a name occurs twice.
    pub open spec fn wf(&self) -> bool {
        &&& self.global_vars.wf()
        &&& self.functions.wf()
        &&& self.dgb_annotations.wf()
        &&& forall|i: int|
            0 <= i < self.function_bodies@.len() ==> (#[trigger] self.function_bodies@[i]).wf()
    }

    /// The table in which symbols of category `k` are looked up: one of
    /// the three global tables, or for a local category one of the two
    /// tables of the function body `fb`.
    pub fn get_by_symbol_kind<'a>(&'a self, k: SymbolKind, fb: Option<&'a FunctionBody>) -> (r:
        &'a NameTable<UseDefList>)
        requires
            !k.is_global() ==> fb is Some,
        ensures
            *r == match k {
                SymbolKind::GlobalVar => self.global_vars,
                SymbolKind::Function => self.functions,
                SymbolKind::DbgAnnotation => self.dgb_annotations,
                SymbolKind::Label => fb->0.labels,
                SymbolKind::LocalVar => fb->0.local_vars,
            },
    {
        match k {
            SymbolKind::GlobalVar => &self.global_vars,
            SymbolKind::Function => &self.functions,
            SymbolKind::DbgAnnotation => &self.dgb_annotations,
            SymbolKind::Label => &fb.unwrap().labels,
            SymbolKind::LocalVar => &fb.unwrap().local_vars,
        }
    }

    /// Records the occurrence in the table `map`, and where it is a new
    /// one enters it in the reverse index.
    fn add_internal(
        map: &mut NameTable<UseDefList>,
        reverse_idx: &mut BTreeMap<usize, SymbolOccurrence>,
        func_body_id: Option<usize>,
        k: SymbolKind,
        ud: UseDefKind,
        span: &Span,
        name: &str,
    )
        requires
            old(map).wf(),
        ensures
            final(map).wf(),
            lists_of(*final(map)) == recorded(lists_of(*old(map)), name@, ud, *span),
            occurrences_of(*final(reverse_idx)) == if is_new(lists_of(*old(map)), name@, *span) {
                occurrences_of(*old(reverse_idx)).insert(
                    span.start,
                    OccurrenceView {
                        span: *span,
                        use_def: ud,
                        symbol_kind: k,
                        name: name@,
                        func_body_id,
                    },
                )
            } else {
                occurrences_of(*old(reverse_idx))
            },
    {
        broadcast use vstd::std_specs::btree::group_btree_axioms;
        broadcast use vstd::laws_cmp::group_laws_cmp;

        let ghost before = *reverse_idx;
        if record_in(map, name, ud, *span) {
            let occ = SymbolOccurrence {
                span: *span,
                use_def: ud,
                symbol_kind: k,
                name: name.to_owned(),
                func_body_id,
            };
            reverse_idx.insert(span.start, occ);
            assert(occurrences_of(*reverse_idx) =~= occurrences_of(before).insert(
                span.start,
                occ@,
            ));
        }
    }

    /// Registers an occurrence of a global symbol: a global variable, a
    /// function or a debug annotation.
    pub fn add_global(&mut self, k: SymbolKind, ud: UseDefKind, span: &Span, name: &str)
        requires
            old(self).wf(),
            k.is_global(),
        ensures
            final(self).wf(),
            final(self)@ == old(self)@.add_global(k, ud, *span, name@),
            final(self).function_bodies@.len() == old(self).function_bodies@.len(),
    {
        let ghost before = *self;
        match k {
            SymbolKind::Function => {
                Self::add_internal(
                    &mut self.functions,
                    &mut self.reverse_idx,
                    None,
                    k,
                    ud,
                    span,
                    name,
                );
            },
            SymbolKind::DbgAnnotation => {
                Self::add_internal(
                    &mut self.dgb_annotations,
                    &mut self.reverse_idx,
                    None,
                    k,
                    ud,
                    span,
                    name,
                );
            },
            _ => {
                Self::add_internal(
                    &mut self.global_vars,
                    &mut self.reverse_idx,
                    None,
                    k,
                    ud,
                    span,
                    name,
                );
            },
        }
        proof {
            assert(self@.function_bodies =~= before@.function_bodies);
        }
    }

    /// Registers an occurrence of a global symbol under its spanned name.
    pub fn add_global_spanned(&mut self, k: SymbolKind, ud: UseDefKind, spanned: &Spanned<String>)
        requires
            old(self).wf(),
            k.is_global(),
        ensures
            final(self).wf(),
            final(self)@ == old(self)@.add_global(k, ud, spanned.1, spanned.0@),
            final(self).function_bodies@.len() == old(self).function_bodies@.len(),
    {
        self.add_global(k, ud, &spanned.1, spanned.0.as_str())
    }

    /// Registers an occurrence of a label or of a local variable in the
    /// scope of the function at place `func_body_id`.
    pub fn add_func_local(
        &mut self,
        func_body_id: usize,
        k: SymbolKind,
        ud: UseDefKind,
        span: &Span,
        name: &str,
    )
        requires
            old(self).wf(),
            !k.is_global(),
            func_body_id < old(self).function_bodies@.len(),
        ensures
            final(self).wf(),
            final(self)@ == old(self)@.add_func_local(func_body_id, k, ud, *span, name@),
            final(self).function_bodies@.len() == old(self).function_bodies@.len(),
    {
        let ghost before = *self;
        match k {
            SymbolKind::Label => {
                Self::add_internal(
                    &mut self.function_bodies[func_body_id].labels,
                    &mut self.reverse_idx,
                    Some(func_body_id),
                    k,
                    ud,
                    span,
                    name,
                );
            },
            _ => {
                Self::add_internal(
                    &mut self.function_bodies[func_body_id].local_vars,
                    &mut self.reverse_idx,
                    Some(func_body_id),
                    k,
                    ud,
                    span,
                    name,
                );
            },
        }
        proof {
            assert(self@.function_bodies =~= before@.add_func_local(
                func_body_id,
                k,
                ud,
                *span,
                name@,
            ).function_bodies);
        }
    }

    /// Registers an occurrence of a label or of a local variable under
    /// its spanned name.
    pub fn add_func_local_spanned(
        &mut self,
        func_body_id: usize,
        k: SymbolKind,
        ud: UseDefKind,
        spanned: &Spanned<String>,
    )
        requires
            old(self).wf(),
            !k.is_global(),
            func_body_id < old(self).function_bodies@.len(),
        ensures
            final(self).wf(),
            final(self)@ == old(self)@.add_func_local(func_body_id, k, ud, spanned.1, spanned.0@),
            final(self).function_bodies@.len() == old(self).function_bodies@.len(),
    {
        self.add_func_local(func_body_id, k, ud, &spanned.1, spanned.0.as_str())
    }
}

// ---------------------------------------------------------------------
// Building the index
// ---------------------------------------------------------------------

fn holds_name(v: &Vec<Spanned<String>>, n: &Spanned<String>) -> (r: bool)
    ensures
        r == v.deep_view().contains(n.deep_view()),
{
    let mut i: usize = 0;
    while i < v.len()
        invariant
            i <= v@.len(),
            forall|j: int| 0 <= j < i ==> v.deep_view()[j] != n.deep_view(),
        decreases v@.len() - i,
    {
        if v[i].0 == n.0 && v[i].1 == n.1 {
            assert(v.deep_view()[i as int] == n.deep_view());
            return true;
        }
        i += 1;
    }
    false
}

/// Enters an edge from the block labelled `source` to the block labelled
/// `target`, unless the table holds that edge already.
fn add_edge(table: &mut NameTable<Vec<Spanned<String>>>, target: &str, source: &Spanned<String>)
    requires
        old(table).wf(),
    ensures
        final(table).wf(),
        edges_of(*final(table)) == with_edge(edges_of(*old(table)), target@, source.deep_view()),
{
    let ghost before = *table;
    let ghost goal = with_edge(edges_of(before), target@, source.deep_view());
    match table.find(target) {
        Some(i) => {
            proof {
                before.lemma_entry(i as int);
            }
            if !holds_name(&table.entries[i].1, source) {
                let ghost old_list = table.entries@[i as int].1.deep_view();
                table.entries[i].1.push(copy_name(source));
                assert(table.entries@[i as int].1.deep_view() =~= old_list.push(
                    source.deep_view(),
                ));
            }
            proof {
                before.lemma_value_changed(&*table, i as int);
                assert(edges_of(*table) =~= goal);
            }
        },
        None => {
            let mut list: Vec<Spanned<String>> = Vec::new();
            list.push(copy_name(source));
            proof {
                assert(list.deep_view() =~= Seq::<Name>::empty().push(source.deep_view()));
            }
            table.insert(target.to_owned(), list);
            proof {
                let after = *table;
                assert forall|n: Seq<char>| after.has(n) == (before.has(n) || n == target@) by {
                    assert(after@.contains_key(n) == after.has(n));
                    assert(before@.contains_key(n) == before.has(n));
                }
                assert(edges_of(after) =~= goal);
            }
        },
    }
}

/// The name under which a debug annotation is indexed.
fn debug_key(text: &str) -> (r: String)
    ensures
        r@ == debug_name(text@),
{
    let mut s = String::new();
    s.push('!');
    s.append(text);
    assert(s@ =~= debug_name(text@));
    s
}

impl HIRIndex {
    fn index_ref(
        &mut self,
        id: usize,
        label: &Option<Spanned<String>>,
        mnemonic: &str,
        r: &Spanned<String>,
    )
        requires
            old(self).wf(),
            id < old(self).function_bodies@.len(),
        ensures
            final(self).wf(),
            final(self).function_bodies@.len() == old(self).function_bodies@.len(),
            final(self)@ == index_ref(old(self)@, id, label.deep_view(), mnemonic@, r.deep_view()),
    {
        self.add_func_local_spanned(id, SymbolKind::Label, UseDefKind::Use, r);
        if !same_text(mnemonic, "phi") {
            match label {
                Some(l) => {
                    let ghost used = *self;
                    add_edge(
                        &mut self.function_bodies[id].incoming_bb_branches,
                        r.0.as_str(),
                        l,
                    );
                    proof {
                        assert(self@.function_bodies =~= used@.with_edge(
                            id,
                            r.0@,
                            l.deep_view(),
                        ).function_bodies);
                    }
                },
                None => {},
            }
        }
    }

    fn index_instruction(&mut self, id: usize, label: &Option<Spanned<String>>, ins: &Instruction)
        requires
            old(self).wf(),
            id < old(self).function_bodies@.len(),
        ensures
            final(self).wf(),
            final(self).function_bodies@.len() == old(self).function_bodies@.len(),
            final(self)@ == index_instruction(old(self)@, id, label.deep_view(), ins.deep_view()),
    {
        match &ins.assignment_target {
            Some(t) => {
                self.add_func_local_spanned(id, SymbolKind::LocalVar, UseDefKind::Def, t);
            },
            None => {},
        }
        let ghost defined = self@;
        let ghost step = ref_step(id, label.deep_view(), ins.instruction.0@);
        let ghost refs = ins.basic_block_refs.deep_view();
        let mut i: usize = 0;
        proof {
            assert(refs.take(0).fold_left(defined, step) == defined);
        }
        while i < ins.basic_block_refs.len()
            invariant
                i <= ins.basic_block_refs@.len(),
                refs == ins.basic_block_refs.deep_view(),
                step == ref_step(id, label.deep_view(), ins.instruction.0@),
                self.wf(),
                id < self.function_bodies@.len(),
                self.function_bodies@.len() == old(self).function_bodies@.len(),
                self@ == refs.take(i as int).fold_left(defined, step),
            decreases ins.basic_block_refs@.len() - i,
        {
            proof {
                lemma_fold_next(refs, i as int, defined, step);
            }
            self.index_ref(id, label, ins.instruction.0.as_str(), &ins.basic_block_refs[i]);
            i += 1;
        }
        proof {
            assert(refs.take(refs.len() as int) =~= refs);
        }
    }

    fn index_block(&mut self, id: usize, block: &BasicBlock)
        requires
            old(self).wf(),
            id < old(self).function_bodies@.len(),
        ensures
            final(self).wf(),
            final(self).function_bodies@.len() == old(self).function_bodies@.len(),
            final(self)@ == index_block(old(self)@, id, block.deep_view()),
    {
        match &block.label {
            Some(l) => {
                self.add_func_local_spanned(id, SymbolKind::Label, UseDefKind::Def, l);
            },
            None => {},
        }
        let ghost labelled = self@;
        let ghost step = instruction_step(id, block.label.deep_view());
        let ghost instrs = block.instructions.deep_view();
        let mut i: usize = 0;
        proof {
            assert(instrs.take(0).fold_left(labelled, step) == labelled);
        }
        while i < block.instructions.len()
            invariant
                i <= block.instructions@.len(),
                instrs == block.instructions.deep_view(),
                step == instruction_step(id, block.label.deep_view()),
                self.wf(),
                id < self.function_bodies@.len(),
                self.function_bodies@.len() == old(self).function_bodies@.len(),
                self@ == instrs.take(i as int).fold_left(labelled, step),
            decreases block.instructions@.len() - i,
        {
            proof {
                lemma_fold_next(instrs, i as int, labelled, step);
            }
            self.index_instruction(id, &block.label, &block.instructions[i]);
            i += 1;
        }
        proof {
            assert(instrs.take(instrs.len() as int) =~= instrs);
        }
    }

    fn index_function(&mut self, define_kw: &Span, signature: &FuncSignature, body: &FuncBody)
        requires
            old(self).wf(),
            old(self).function_bodies@.len() < usize::MAX,
        ensures
            final(self).wf(),
            final(self).function_bodies@.len() == old(self).function_bodies@.len() + 1,
            final(self)@ == index_function(
                old(self)@,
                *define_kw,
                signature.deep_view(),
                body.deep_view(),
            ),
    {
        self.add_global_spanned(SymbolKind::Function, UseDefKind::Def, &signature.name);
        let ghost named = *self;
        let fresh = FunctionBody {
            name: copy_name(&signature.name),
            complete_range: Span { start: define_kw.start, end: body.closing_bracket.end },
            labels: NameTable::new(),
            local_vars: NameTable::new(),
            basic_blocks: copy_blocks(&body.basic_blocks),
            incoming_bb_branches: NameTable::new(),
        };
        proof {
            assert(fresh@.labels =~= Map::<Seq<char>, UseDefView>::empty());
            assert(fresh@.local_vars =~= Map::<Seq<char>, UseDefView>::empty());
            assert(fresh@.incoming_bb_branches =~= Map::<Seq<char>, Seq<Name>>::empty());
            assert(fresh@ == opened_body(*define_kw, signature.deep_view(), body.deep_view()));
        }
        self.function_bodies.push(fresh);
        let id = self.function_bodies.len() - 1;
        let ghost opened = self@;
        proof {
            assert(opened.function_bodies =~= named@.function_bodies.push(fresh@));
        }
        let ghost astep = arg_step(id);
        let ghost args = signature.args.deep_view();
        let mut i: usize = 0;
        proof {
            assert(args.take(0).fold_left(opened, astep) == opened);
        }
        while i < signature.args.len()
            invariant
                i <= signature.args@.len(),
                args == signature.args.deep_view(),
                astep == arg_step(id),
                self.wf(),
                id < self.function_bodies@.len(),
                self.function_bodies@.len() == old(self).function_bodies@.len() + 1,
                self@ == args.take(i as int).fold_left(opened, astep),
            decreases signature.args@.len() - i,
        {
            proof {
                lemma_fold_next(args, i as int, opened, astep);
            }
            self.add_func_local_spanned(
                id,
                SymbolKind::LocalVar,
                UseDefKind::Def,
                &signature.args[i].name,
            );
            i += 1;
        }
        proof {
            assert(args.take(args.len() as int) =~= args);
        }
        let ghost with_args = self@;
        let ghost bstep = block_step(id);
        let ghost blocks = body.basic_blocks.deep_view();
        let mut j: usize = 0;
        proof {
            assert(blocks.take(0).fold_left(with_args, bstep) == with_args);
        }
        while j < body.basic_blocks.len()
            invariant
                j <= body.basic_blocks@.len(),
                blocks == body.basic_blocks.deep_view(),
                bstep == block_step(id),
                self.wf(),
                id < self.function_bodies@.len(),
                self.function_bodies@.len() == old(self).function_bodies@.len() + 1,
                self@ == blocks.take(j as int).fold_left(with_args, bstep),
            decreases body.basic_blocks@.len() - j,
        {
            proof {
                lemma_fold_next(blocks, j as int, with_args, bstep);
            }
            self.index_block(id, &body.basic_blocks[j]);
            j += 1;
        }
        proof {
            assert(blocks.take(blocks.len() as int) =~= blocks);
        }
    }

    fn index_statement(&mut self, stmt: &Statement)
        requires
            old(self).wf(),
            old(self).function_bodies@.len() < usize::MAX,
        ensures
            final(self).wf(),
            final(self).function_bodies@.len() <= old(self).function_bodies@.len() + 1,
            final(self)@ == index_statement(old(self)@, stmt.deep_view()),
    {
        match stmt {
            Statement::GlobalVar { name, def } => {
                self.add_global_spanned(SymbolKind::GlobalVar, UseDefKind::Def, name);
            },
            Statement::FuncDecl { signature, addr } => {
                self.add_global_spanned(SymbolKind::Function, UseDefKind::Decl, &signature.name);
            },
            Statement::FuncDef { define_kw, signature, body } => {
                self.index_function(define_kw, signature, body);
            },
            Statement::DbgAnnotation { name, def } => {
                let key = debug_key(name.0.as_str());
                self.add_global(SymbolKind::DbgAnnotation, UseDefKind::Def, &name.1, key.as_str());
            },
        }
    }

    /// The place of the first function body whose range covers `pos`.
    fn find_enclosing(&self, pos: usize) -> (r: Option<usize>)
        ensures
            r == enclosing_from(self@.function_bodies, pos, 0),
            r is Some ==> r->0 < self.function_bodies@.len(),
    {
        let ghost bodies = self@.function_bodies;
        let mut i: usize = 0;
        while i < self.function_bodies.len()
            invariant
                i <= self.function_bodies@.len(),
                bodies == self@.function_bodies,
                enclosing_from(bodies, pos, 0) == enclosing_from(bodies, pos, i as int),
            decreases self.function_bodies@.len() - i,
        {
            if self.function_bodies[i].complete_range.contains(pos) {
                return Some(i);
            }
            i += 1;
        }
        None
    }

    /// Registers the use that one token stands for. `cursor` is the
    /// function that the last local name was found in; the result is the
    /// one for the next token.
    fn index_token(&mut self, cursor: Option<usize>, tok: &Spanned<Token>) -> (next: Option<usize>)
        requires
            old(self).wf(),
            cursor is Some ==> cursor->0 < old(self).function_bodies@.len(),
        ensures
            final(self).wf(),
            final(self).function_bodies@.len() == old(self).function_bodies@.len(),
            next is Some ==> next->0 < final(self).function_bodies@.len(),
            (Scan { index: final(self)@, cursor: next }) == index_token(
                Scan { index: old(self)@, cursor },
                tok.deep_view(),
            ),
    {
        match &tok.0 {
            Token::GlobalName(name) => {
                if self.functions.contains_key(name.as_str()) {
                    self.add_global(SymbolKind::Function, UseDefKind::Use, &tok.1, name.as_str());
                } else {
                    self.add_global(SymbolKind::GlobalVar, UseDefKind::Use, &tok.1, name.as_str());
                }
                cursor
            },
            Token::DebugRef(name) => {
                let key = debug_key(name.as_str());
                self.add_global(SymbolKind::DbgAnnotation, UseDefKind::Use, &tok.1, key.as_str());
                cursor
            },
            Token::LocalName(name) => {
                let cached = match cursor {
                    Some(id) => self.function_bodies[id].complete_range.contains(tok.1.start),
                    None => false,
                };
                let scope = if cached {
                    cursor
                } else {
                    self.find_enclosing(tok.1.start)
                };
                match scope {
                    Some(id) => {
                        self.add_func_local(
                            id,
                            SymbolKind::LocalVar,
                            UseDefKind::Use,
                            &tok.1,
                            name.as_str(),
                        );
                    },
                    None => {},
                }
                scope
            },
            _ => cursor,
        }
    }
}

/// Builds the index of a document from its tokens and its statements.
///
/// The first pass registers what the statements declare and define. The
/// second registers a use for every name token that the first pass did
/// not record already. The index that comes of it is consistent; its
/// function bodies hold exactly the branches of their blocks, every
/// block reference as an occurrence of its label, and as definitions of
/// labels the labels of their blocks.
pub fn create_index(tokens: &[Spanned<Token>], stmts: &[Statement]) -> (index: HIRIndex)
    ensures
        index.wf(),
        index@ == built_index(tokens.deep_view(), stmts.deep_view()),
        consistent(index@),
        all_edges_match(index@),
        all_blocks_recorded(index@),
        all_labels_from_blocks(index@),
{
    let count = stmts.len();
    proof {
        lemma_built_index_consistent(tokens.deep_view(), stmts.deep_view());
        lemma_built_index_edges(tokens.deep_view(), stmts.deep_view());
        lemma_built_index_records_refs(tokens.deep_view(), stmts.deep_view());
        lemma_built_index_labels(tokens.deep_view(), stmts.deep_view());
    }
    let mut index = HIRIndex::default();
    let ghost first = statement_step();
    let ghost all = stmts.deep_view();
    let mut i: usize = 0;
    proof {
        assert(all.take(0).fold_left(IndexView::empty(), first) == IndexView::empty());
    }
    while i < count
        invariant
            i <= stmts@.len(),
            count == stmts@.len(),
            all == stmts.deep_view(),
            first == statement_step(),
            index.wf(),
            index.function_bodies@.len() <= i,
            index@ == all.take(i as int).fold_left(IndexView::empty(), first),
        decreases stmts@.len() - i,
    {
        proof {
            lemma_fold_next(all, i as int, IndexView::empty(), first);
        }
        index.index_statement(&stmts[i]);
        i += 1;
    }
    proof {
        assert(all.take(all.len() as int) =~= all);
    }
    let ghost start = Scan { index: index@, cursor: None };
    let ghost second = token_step();
    let ghost toks = tokens.deep_view();
    let mut cursor: Option<usize> = None;
    let mut j: usize = 0;
    proof {
        assert(toks.take(0).fold_left(start, second) == start);
    }
    while j < tokens.len()
        invariant
            j <= tokens@.len(),
            toks == tokens.deep_view(),
            second == token_step(),
            index.wf(),
            cursor is Some ==> cursor->0 < index.function_bodies@.len(),
            (Scan { index: index@, cursor }) == toks.take(j as int).fold_left(start, second),
        decreases tokens@.len() - j,
    {
        proof {
            lemma_fold_next(toks, j as int, start, second);
        }
        cursor = index.index_token(cursor, &tokens[j]);
        j += 1;
    }
    proof {
        assert(toks.take(toks.len() as int) =~= toks);
    }
    index
}

// ---------------------------------------------------------------------
// Looking symbols up
// ---------------------------------------------------------------------

/// A `BTreeMap` is walked in the order of its keys.
proof fn lemma_keys_ascend(keys: Seq<usize>)
    requires
        vstd::std_specs::btree::increasing_seq(keys),
    ensures
        forall|i: int, j: int| 0 <= i < j < keys.len() ==> keys[i] < keys[j],
{
    broadcast use vstd::std_specs::btree::group_btree_axioms;
    broadcast use vstd::laws_cmp::group_laws_cmp;

    assert forall|i: int, j: int| 0 <= i < j < keys.len() implies keys[i] < keys[j] by {
        assert(keys[i].cmp_spec(&keys[j]) == core::cmp::Ordering::Less);
    }
}

impl HIRIndex {
    /// The occurrence at the byte offset `pos`: of the occurrences whose
    /// span covers `pos` the one that starts first, if there is any.
    pub fn find_symbol_at_position(&self, pos: usize) -> (r: Option<&SymbolOccurrence>)
        ensures
            match r {
                Some(occ) => self@.symbol_at(pos) == Some(occ@),
                None => self@.symbol_at(pos) is None,
            },
    {
        broadcast use vstd::std_specs::btree::group_btree_axioms;
        broadcast use vstd::laws_cmp::group_laws_cmp;

        let ghost view = self@;
        let iter = self.reverse_idx.iter();
        let ghost all = iter.remaining();
        let ghost keys = all.map_values(|kv: (&usize, &SymbolOccurrence)| *kv.0);
        proof {
            lemma_keys_ascend(keys);
        }
        for kv in it: iter
            invariant
                view == self@,
                it.seq() == all,
                all == vstd::std_specs::btree::spec_btree_map_iter(&self.reverse_idx).remaining(),
                keys == all.map_values(|kv: (&usize, &SymbolOccurrence)| *kv.0),
                forall|i: int, j: int| 0 <= i < j < keys.len() ==> keys[i] < keys[j],
                forall|j: int| 0 <= j < it.index() ==> !(#[trigger] all[j]).1.span.covers(pos),
        {
            if kv.1.span.contains(pos) {
                proof {
                    let here = it.index();
                    let k = *kv.0;
                    assert(all[here] == kv);
                    assert(self.reverse_idx@.contains_key(k));
                    assert(view.covers_at(k, pos));
                    assert forall|other: usize| view.covers_at(other, pos) implies k <= other by {
                        assert(all.contains((&other, &self.reverse_idx@[other])));
                        let at = choose|at: int|
                            0 <= at < all.len() && all[at] == (&other, &self.reverse_idx@[other]);
                        assert(keys[at] == other);
                        assert(keys[here] == k);
                        if at < here {
                            assert(!all[at].1.span.covers(pos));
                        }
                    }
                    assert(view.first_at(k, pos));
                    let chosen = choose|c: usize| view.first_at(c, pos);
                    assert(view.first_at(chosen, pos));
                    assert(chosen == k);
                }
                return Some(kv.1);
            }
        }
        proof {
            assert forall|k: usize| !view.covers_at(k, pos) by {
                if view.covers_at(k, pos) {
                    assert(all.contains((&k, &self.reverse_idx@[k])));
                    let at = choose|at: int|
                        0 <= at < all.len() && all[at] == (&k, &self.reverse_idx@[k]);
                    assert(!all[at].1.span.covers(pos));
                }
            }
        }
        None
    }

    /// The spans of kind `ud` of the symbol that `occ` is an occurrence
    /// of: from a global table, or from a table of the function that the
    /// occurrence names. `None` where the index has no such function or
    /// no such name.
    pub fn get_use_def_ranges(&self, occ: &SymbolOccurrence, ud: UseDefKind) -> (r: Option<
        &Vec<Span>,
    >)
        requires
            self.wf(),
        ensures
            match r {
                Some(spans) => self@.ranges_of(occ@, ud) == Some(spans@),
                None => self@.ranges_of(occ@, ud) is None,
            },
    {
        let body = match occ.func_body_id {
            Some(id) => if id < self.function_bodies.len() {
                Some(&self.function_bodies[id])
            } else {
                None
            },
            None => None,
        };
        if !occ.symbol_kind.in_global_scope() && body.is_none() {
            return None;
        }
        let table = self.get_by_symbol_kind(occ.symbol_kind, body);
        match table.get(occ.name.as_str()) {
            Some(list) => Some(list.get_use_def_kind(ud)),
            None => None,
        }
    }
}

} // verus!
