use hir_language_server::hir_index::{
    create_index, record_in, HIRIndex, SymbolKind, SymbolOccurrence, UseDefKind, UseDefList,
};
use hir_language_server::hir_parser::parse_from_str;
use hir_language_server::hir_tokenizer::Span;
use hir_language_server::name_table::{same_text, NameTable};

fn sp(start: usize, end: usize) -> Span {
    Span { start, end }
}

fn index_of(src: &str) -> HIRIndex {
    let res = parse_from_str(src);
    assert_eq!(res.errors, []);
    create_index(&res.tokens, &res.stmts)
}

/// The spans of `text` in `src`, in order.
fn all(src: &str, text: &str) -> Vec<Span> {
    src.match_indices(text)
        .map(|(at, t)| sp(at, at + t.len()))
        .collect()
}

#[test]
fn definition_span_covers_exactly_the_name() {
    let src = "@a = \"test\"";
    let idx = index_of(src);
    let list = idx.global_vars.get("@a").unwrap();
    assert_eq!(list.defs, vec![sp(0, 2)]);
    assert_eq!(&src[list.defs[0].start..list.defs[0].end], "@a");
    assert_eq!(list.decls, vec![]);
    assert_eq!(list.uses, vec![]);
}

#[test]
fn function_used_before_its_definition_is_a_function_use() {
    let src = "@table = [@late, @other]\ndefine void @late() {\n  ret\n}\n";
    let idx = index_of(src);
    let late = all(src, "@late");
    let f = idx.functions.get("@late").unwrap();
    assert_eq!(f.defs, vec![late[1]]);
    assert_eq!(f.uses, vec![late[0]]);
    assert_eq!(idx.global_vars.get("@late"), None);
    // A name that no statement declares as a function is a global variable.
    let other = idx.global_vars.get("@other").unwrap();
    assert_eq!(other.uses, all(src, "@other"));
    assert_eq!(idx.functions.get("@other"), None);
    let occ = idx.find_symbol_at_position(late[0].start).unwrap();
    assert_eq!(occ.symbol_kind, SymbolKind::Function);
    assert_eq!(occ.use_def, UseDefKind::Use);
}

#[test]
fn declaration_and_definition_are_kept_apart() {
    let src = "declare int32 @_test1(int32 %a)\ndefine void @_test1(int32 %a) {\n  call @_test1(int32 %a)\n  ret @_test1\n}\n";
    let idx = index_of(src);
    assert_eq!(idx.functions.len(), 1);
    let names = all(src, "@_test1");
    let f = idx.functions.get("@_test1").unwrap();
    assert_eq!(f.decls, vec![names[0]]);
    assert_eq!(f.defs, vec![names[1]]);
    assert_eq!(f.uses, vec![names[2], names[3]]);
    // A declaration alone opens no function body.
    assert_eq!(idx.function_bodies.len(), 1);
}

#[test]
fn locals_of_one_function_are_not_seen_in_another() {
    let src = "define void @a(int32 %foo) {\n  int32 %only_a = add %foo %foo\n  ret\n}\ndefine void @b(int32 %foo) {\n  ret %foo\n}\n";
    let idx = index_of(src);
    assert_eq!(idx.function_bodies.len(), 2);
    let foo = all(src, "%foo");
    let a = &idx.function_bodies[0];
    let b = &idx.function_bodies[1];
    assert_eq!(a.name.0, "@a");
    assert_eq!(b.name.0, "@b");
    let in_a = a.local_vars.get("%foo").unwrap();
    assert_eq!(in_a.defs, vec![foo[0]]);
    assert_eq!(in_a.uses, vec![foo[1], foo[2]]);
    let in_b = b.local_vars.get("%foo").unwrap();
    assert_eq!(in_b.defs, vec![foo[3]]);
    assert_eq!(in_b.uses, vec![foo[4]]);
    assert!(a.local_vars.contains_key("%only_a"));
    assert!(!b.local_vars.contains_key("%only_a"));
    let occ = idx.find_symbol_at_position(foo[4].start).unwrap();
    assert_eq!(occ.func_body_id, Some(1));
    assert_eq!(occ.symbol_kind, SymbolKind::LocalVar);
}

#[test]
fn local_name_outside_every_function_is_dropped() {
    let src = "@g = %loose\ndefine void @f(int32 %x) {\n  ret\n}\n!1 %after";
    let idx = index_of(src);
    assert_eq!(idx.function_bodies.len(), 1);
    assert_eq!(idx.function_bodies[0].local_vars.len(), 1);
    let loose = all(src, "%loose")[0];
    assert_eq!(idx.find_symbol_at_position(loose.start), None);
    let after = all(src, "%after")[0];
    assert_eq!(idx.find_symbol_at_position(after.start), None);
}

#[test]
fn same_target_twice_in_one_block_is_one_edge() {
    let src = "define void @f() {\n  ret\nfirst:\n  switch %x, default=done, label=done\nsecond:\n  br done\ndone:\n  ret\n}";
    let idx = index_of(src);
    let body = &idx.function_bodies[0];
    let incoming = body.incoming_bb_branches.get("done").unwrap();
    let names: Vec<&str> = incoming.iter().map(|s| s.0.as_str()).collect();
    assert_eq!(names, vec!["first", "second"]);
    assert_eq!(incoming[0].1, all(src, "first")[0]);
    assert_eq!(incoming[1].1, all(src, "second")[0]);
    assert_eq!(body.incoming_bb_branches.len(), 1);
    // All three references are uses of the label.
    assert_eq!(body.labels.get("done").unwrap().uses.len(), 3);
}

#[test]
fn entry_block_has_no_label_to_branch_from() {
    let src = "define void @f() {\n  br next\nnext:\n  ret\n}";
    let idx = index_of(src);
    let body = &idx.function_bodies[0];
    assert_eq!(body.incoming_bb_branches.len(), 0);
    assert_eq!(body.labels.get("next").unwrap().uses.len(), 1);
}

#[test]
fn phi_names_a_label_without_branching_to_it() {
    let src = "define void @f() {\n  ret\nleft:\n  br join\njoin:\n  int32 %v = phi left, join\n  ret\n}";
    let idx = index_of(src);
    let body = &idx.function_bodies[0];
    assert_eq!(body.incoming_bb_branches.len(), 1);
    let to_join = body.incoming_bb_branches.get("join").unwrap();
    assert_eq!(to_join.len(), 1);
    assert_eq!(to_join[0].0, "left");
    assert_eq!(body.incoming_bb_branches.get("left"), None);
    let left = body.labels.get("left").unwrap();
    assert_eq!(left.defs, vec![all(src, "left")[0]]);
    assert_eq!(left.uses, vec![all(src, "left")[1]]);
    let join = body.labels.get("join").unwrap();
    assert_eq!(join.uses.len(), 2);
    let at_phi = idx
        .find_symbol_at_position(all(src, "left")[1].start)
        .unwrap();
    assert_eq!(at_phi.symbol_kind, SymbolKind::Label);
    assert_eq!(at_phi.use_def, UseDefKind::Use);
}

#[test]
fn every_offset_of_an_occurrence_finds_it() {
    let src = "
        @a = \"test\"
        declare int32 @foo::bar(ptr %, int32 %baz) = 0x1234
        define void @_test1(int32 %foo, data128 %baz) {
          body_0:
            int32 %res_1 = call @foo::bar(ptr @a, int32 %foo)
            br done_1
          done_1:
            int32 %p = phi body_0
            ret int32 %res_1 !21 # some comment
        }
        !21 {\"some\": \"data\"}";
    let idx = index_of(src);
    assert!(idx.reverse_idx.len() > 15);
    let mut covered = vec![false; src.len() + 2];
    for (start, occ) in idx.reverse_idx.iter() {
        assert_eq!(*start, occ.span.start);
        for pos in occ.span.start..occ.span.end {
            assert_eq!(idx.find_symbol_at_position(pos), Some(occ));
            covered[pos] = true;
        }
        // What the occurrence points to holds its span.
        let ranges = idx.get_use_def_ranges(occ, occ.use_def).unwrap();
        assert!(ranges.contains(&occ.span));
    }
    for pos in 0..covered.len() {
        if !covered[pos] {
            assert_eq!(idx.find_symbol_at_position(pos), None);
        }
    }
}

#[test]
fn lookup_takes_the_occurrence_that_starts_first() {
    let mut idx = HIRIndex::default();
    idx.add_global(SymbolKind::GlobalVar, UseDefKind::Def, &sp(5, 20), "@wide");
    idx.add_global(SymbolKind::GlobalVar, UseDefKind::Def, &sp(10, 12), "@narrow");
    assert_eq!(idx.find_symbol_at_position(4), None);
    assert_eq!(idx.find_symbol_at_position(5).unwrap().name, "@wide");
    assert_eq!(idx.find_symbol_at_position(11).unwrap().name, "@wide");
    assert_eq!(idx.find_symbol_at_position(19).unwrap().name, "@wide");
    assert_eq!(idx.find_symbol_at_position(20), None);
}

#[test]
fn same_span_twice_leaves_the_list_as_it_is() {
    let mut idx = HIRIndex::default();
    idx.add_global(SymbolKind::Function, UseDefKind::Def, &sp(3, 7), "@f");
    let once = idx.functions.get("@f").unwrap().defs.len();
    assert_eq!(once, 1);
    idx.add_global(SymbolKind::Function, UseDefKind::Def, &sp(3, 7), "@f");
    assert_eq!(idx.functions.get("@f").unwrap().defs.len(), once);
    // Not as another kind either.
    idx.add_global(SymbolKind::Function, UseDefKind::Use, &sp(3, 7), "@f");
    let list = idx.functions.get("@f").unwrap();
    assert_eq!(list.defs, vec![sp(3, 7)]);
    assert_eq!(list.uses, vec![]);
    assert_eq!(idx.reverse_idx.len(), 1);
    assert_eq!(idx.reverse_idx[&3].use_def, UseDefKind::Def);
    // Another span of the same name is added.
    idx.add_global_spanned(
        SymbolKind::Function,
        UseDefKind::Use,
        &("@f".to_string(), sp(9, 11)),
    );
    assert_eq!(idx.functions.get("@f").unwrap().uses, vec![sp(9, 11)]);
    assert_eq!(idx.reverse_idx.len(), 2);
}

#[test]
fn definition_token_is_not_also_a_use() {
    let src = "@a = 1\n!3 x\ndefine void @f(int32 %p) {\n  ret\n}";
    let idx = index_of(src);
    assert_eq!(idx.global_vars.get("@a").unwrap().uses, vec![]);
    assert_eq!(idx.dgb_annotations.get("!3").unwrap().uses, vec![]);
    assert_eq!(idx.functions.get("@f").unwrap().uses, vec![]);
    assert_eq!(
        idx.function_bodies[0].local_vars.get("%p").unwrap().uses,
        vec![]
    );
}

#[test]
fn debug_annotations_are_indexed_with_their_bang() {
    let src = "define void @f() {\n  ret !21\n}\n!21 {}";
    let idx = index_of(src);
    let refs = all(src, "!21");
    let list = idx.dgb_annotations.get("!21").unwrap();
    assert_eq!(list.defs, vec![refs[1]]);
    assert_eq!(list.uses, vec![refs[0]]);
    assert_eq!(idx.dgb_annotations.get("21"), None);
    let occ = idx.find_symbol_at_position(refs[0].start + 1).unwrap();
    assert_eq!(occ.name, "!21");
    assert_eq!(occ.symbol_kind, SymbolKind::DbgAnnotation);
}

#[test]
fn ranges_follow_the_scope_of_the_occurrence() {
    let src = "define void @a(int32 %x) {\n  ret %x\n}\ndefine void @b(int32 %x) {\n  ret %x\n}\n";
    let idx = index_of(src);
    let xs = all(src, "%x");
    let occ = idx.find_symbol_at_position(xs[3].start).unwrap();
    assert_eq!(occ.func_body_id, Some(1));
    assert_eq!(
        idx.get_use_def_ranges(occ, UseDefKind::Def),
        Some(&vec![xs[2]])
    );
    assert_eq!(
        idx.get_use_def_ranges(occ, UseDefKind::Use),
        Some(&vec![xs[3]])
    );
    assert_eq!(idx.get_use_def_ranges(occ, UseDefKind::Decl), Some(&vec![]));
    let f = idx.find_symbol_at_position(all(src, "@a")[0].start).unwrap();
    assert_eq!(
        idx.get_use_def_ranges(f, UseDefKind::Def),
        Some(&vec![all(src, "@a")[0]])
    );
}

#[test]
fn ranges_of_a_stale_occurrence_are_none() {
    let idx = index_of("define void @a(int32 %x) {\n  ret %x\n}\n");
    let unknown_name = SymbolOccurrence {
        span: sp(0, 1),
        use_def: UseDefKind::Use,
        symbol_kind: SymbolKind::GlobalVar,
        name: "@gone".to_string(),
        func_body_id: None,
    };
    assert_eq!(idx.get_use_def_ranges(&unknown_name, UseDefKind::Def), None);
    let unknown_scope = SymbolOccurrence {
        span: sp(0, 1),
        use_def: UseDefKind::Use,
        symbol_kind: SymbolKind::LocalVar,
        name: "%x".to_string(),
        func_body_id: Some(7),
    };
    assert_eq!(
        idx.get_use_def_ranges(&unknown_scope, UseDefKind::Def),
        None
    );
    let no_scope = SymbolOccurrence {
        span: sp(0, 1),
        use_def: UseDefKind::Use,
        symbol_kind: SymbolKind::Label,
        name: "%x".to_string(),
        func_body_id: None,
    };
    assert_eq!(idx.get_use_def_ranges(&no_scope, UseDefKind::Def), None);
}

#[test]
fn table_of_a_category_is_the_right_one() {
    let idx = index_of("@g = 1\ndeclare void @d()\n!1 x\ndefine void @f(int32 %x) {\n  ret\nl:\n  ret\n}\n");
    let body = &idx.function_bodies[0];
    assert!(idx
        .get_by_symbol_kind(SymbolKind::GlobalVar, None)
        .contains_key("@g"));
    assert!(idx
        .get_by_symbol_kind(SymbolKind::Function, None)
        .contains_key("@d"));
    assert!(idx
        .get_by_symbol_kind(SymbolKind::DbgAnnotation, Some(body))
        .contains_key("!1"));
    assert!(idx
        .get_by_symbol_kind(SymbolKind::Label, Some(body))
        .contains_key("l"));
    assert!(idx
        .get_by_symbol_kind(SymbolKind::LocalVar, Some(body))
        .contains_key("%x"));
}

#[test]
fn local_occurrences_are_added_by_hand() {
    let mut idx = index_of("define void @f() {\n  ret\n}\n");
    idx.add_func_local(0, SymbolKind::Label, UseDefKind::Def, &sp(100, 104), "out");
    idx.add_func_local_spanned(
        0,
        SymbolKind::LocalVar,
        UseDefKind::Use,
        &("%v".to_string(), sp(110, 112)),
    );
    idx.add_func_local(0, SymbolKind::Label, UseDefKind::Use, &sp(100, 104), "out");
    let body = &idx.function_bodies[0];
    assert_eq!(body.labels.get("out").unwrap().defs, vec![sp(100, 104)]);
    assert_eq!(body.labels.get("out").unwrap().uses, vec![]);
    assert_eq!(body.local_vars.get("%v").unwrap().uses, vec![sp(110, 112)]);
    let occ = idx.find_symbol_at_position(111).unwrap();
    assert_eq!(occ.func_body_id, Some(0));
    assert_eq!(occ.name, "%v");
    assert_eq!(occ.clone(), *occ);
}

#[test]
fn list_of_a_kind_is_the_field() {
    let mut list = UseDefList {
        decls: vec![sp(1, 2)],
        defs: vec![sp(3, 4)],
        uses: vec![sp(5, 6), sp(7, 8)],
    };
    assert_eq!(list.get_use_def_kind(UseDefKind::Decl), &vec![sp(1, 2)]);
    assert_eq!(list.get_use_def_kind(UseDefKind::Def), &vec![sp(3, 4)]);
    assert_eq!(
        list.get_use_def_kind(UseDefKind::Use),
        &vec![sp(5, 6), sp(7, 8)]
    );
    list.get_use_def_kind_mut(UseDefKind::Def).push(sp(9, 10));
    list.get_use_def_kind_mut(UseDefKind::Decl).clear();
    list.get_use_def_kind_mut(UseDefKind::Use).pop();
    assert_eq!(
        list,
        UseDefList {
            decls: vec![],
            defs: vec![sp(3, 4), sp(9, 10)],
            uses: vec![sp(5, 6)],
        }
    );
    assert!(list.holds(sp(9, 10)));
    assert!(!list.holds(sp(7, 8)));
    assert!(!list.record(UseDefKind::Use, sp(3, 4)));
    assert!(list.record(UseDefKind::Decl, sp(7, 8)));
    assert_eq!(list.decls, vec![sp(7, 8)]);
    assert_eq!(UseDefList::default().defs.len(), 0);
}

#[test]
fn table_records_under_names() {
    let mut table: NameTable<UseDefList> = NameTable::new();
    assert!(record_in(&mut table, "a", UseDefKind::Def, sp(0, 1)));
    assert!(record_in(&mut table, "b", UseDefKind::Def, sp(0, 1)));
    assert!(!record_in(&mut table, "a", UseDefKind::Use, sp(0, 1)));
    assert!(record_in(&mut table, "a", UseDefKind::Use, sp(2, 3)));
    assert_eq!(table.len(), 2);
    assert_eq!(table.get("a").unwrap().uses, vec![sp(2, 3)]);
    assert_eq!(table.get("b").unwrap().defs, vec![sp(0, 1)]);
}

#[test]
fn name_table_maps_names_to_values() {
    let mut table: NameTable<u32> = NameTable::new();
    assert_eq!(table.len(), 0);
    assert_eq!(table.get("x"), None);
    table.insert("x".to_string(), 1);
    table.insert("y".to_string(), 2);
    table.insert("x".to_string(), 3);
    assert_eq!(table.len(), 2);
    assert_eq!(table.get("x"), Some(&3));
    assert_eq!(table.get("y"), Some(&2));
    assert_eq!(table.find("y"), Some(1));
    assert_eq!(table.find("z"), None);
    assert!(table.contains_key("x"));
    assert!(!table.contains_key(""));
    assert!(same_text("abc", "abc"));
    assert!(!same_text("abc", "abd"));
    assert!(!same_text("abc", "ab"));
    assert!(same_text("\u{e9}", "\u{e9}"));
}

#[test]
fn global_and_local_categories_are_told_apart() {
    assert!(SymbolKind::GlobalVar.in_global_scope());
    assert!(SymbolKind::Function.in_global_scope());
    assert!(SymbolKind::DbgAnnotation.in_global_scope());
    assert!(!SymbolKind::Label.in_global_scope());
    assert!(!SymbolKind::LocalVar.in_global_scope());
}

#[test]
fn empty_document_has_an_empty_index() {
    let idx = index_of("");
    assert_eq!(idx, HIRIndex::default());
    assert_eq!(idx.find_symbol_at_position(0), None);
}

#[test]
fn phi_reference_has_its_occurrence_in_the_reverse_index() {
    let src = "define void @first() {\n  ret\n}\ndefine void @f() {\n  ret\nleft:\n  br join\njoin:\n  int32 %v = phi left, join\n  ret\n}";
    let idx = index_of(src);
    let at_phi = all(src, "left")[1];
    let body = &idx.function_bodies[1];
    assert_eq!(body.labels.get("left").unwrap().uses, vec![at_phi]);
    assert_eq!(
        idx.reverse_idx[&at_phi.start],
        SymbolOccurrence {
            span: at_phi,
            use_def: UseDefKind::Use,
            symbol_kind: SymbolKind::Label,
            name: "left".to_string(),
            func_body_id: Some(1),
        }
    );
    // The only instruction that names `left` is the phi: no branch to it.
    assert_eq!(body.incoming_bb_branches.get("left"), None);
}

#[test]
fn every_span_of_a_function_starts_inside_it() {
    let src = "define void @a(int32 %x, int32 %y) {\n  br l\nl:\n  int32 %z = add %x %y\n  br l\n}\n@g = %x\ndefine void @b(int32 %x) {\n  ret %x\nl:\n  br l\n}\n";
    let idx = index_of(src);
    assert_eq!(idx.function_bodies.len(), 2);
    let mut seen = Vec::new();
    for body in idx.function_bodies.iter() {
        let tables = [&body.labels, &body.local_vars];
        for table in tables.iter() {
            for (_, list) in table.entries.iter() {
                for span in list.decls.iter().chain(&list.defs).chain(&list.uses) {
                    assert!(body.complete_range.contains(span.start));
                    // No other function holds the span.
                    assert!(!seen.contains(span));
                }
            }
        }
        for table in tables.iter() {
            for (_, list) in table.entries.iter() {
                seen.extend(list.decls.iter().chain(&list.defs).chain(&list.uses).cloned());
            }
        }
    }
    assert!(
        idx.function_bodies[0].complete_range.end <= idx.function_bodies[1].complete_range.start
    );
}

#[test]
fn a_name_is_a_function_or_a_global_variable() {
    let src = "@v = [@f, @w, @v]\ndeclare void @f()\n@u = @f\n";
    let idx = index_of(src);
    // Declared as a function: every token is held once by the function.
    let f = idx.functions.get("@f").unwrap();
    assert_eq!(f.decls, vec![all(src, "@f")[1]]);
    assert_eq!(f.uses, vec![all(src, "@f")[0], all(src, "@f")[2]]);
    assert_eq!(idx.global_vars.get("@f"), None);
    // Not declared as a function: a global variable, and no function.
    assert_eq!(idx.global_vars.get("@w").unwrap().uses, all(src, "@w"));
    assert_eq!(idx.functions.get("@w"), None);
    let v = idx.global_vars.get("@v").unwrap();
    assert_eq!(v.defs, vec![all(src, "@v")[0]]);
    assert_eq!(v.uses, vec![all(src, "@v")[1]]);
    assert_eq!(idx.functions.get("@v"), None);
    assert_eq!(idx.functions.len(), 1);
}
