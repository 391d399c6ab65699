use hir_language_server::hir_index::{create_index, UseDefKind, UseDefList};
use hir_language_server::hir_parser::parse_from_str;
use hir_language_server::hir_tokenizer::Span;

fn document(functions: usize) -> String {
    let mut src = String::new();
    src.push_str("@shared = [0, 1, 2]\n");
    for i in 0..functions {
        src.push_str(&format!("declare int32 @helper_{}(int32 %a)\n", i));
    }
    for i in 0..functions {
        src.push_str(&format!(
            "define exported int32 @work_{i}(int32 %n, ptr %out) {{\n  int32 %first = call @helper_{i}(int32 %n) !{i}\n  br loop\nloop:\n  int32 %acc = phi loop, done\n  switch int32 %acc, default=done, int32 0 label=loop\ndone:\n  store ptr %out int32 %acc @shared\n  ret int32 %first # result\n}}\n!{i} {{\"line\": {i}}}\n",
            i = i
        ));
    }
    src
}

#[test]
fn statements_are_cloned_with_all_they_hold() {
    let res = parse_from_str(&document(2));
    assert_eq!(res.errors, []);
    assert_eq!(res.stmts.len(), 7);
    for stmt in res.stmts.iter() {
        assert_eq!(stmt.clone(), *stmt);
    }
    let list = UseDefList {
        decls: vec![Span { start: 1, end: 2 }],
        defs: vec![],
        uses: vec![Span { start: 3, end: 4 }, Span { start: 5, end: 6 }],
    };
    assert_eq!(list.clone(), list);
}

#[test]
fn large_document_is_analyzed_and_indexed() {
    let functions = 150;
    let src = document(functions);
    let res = parse_from_str(&src);
    assert_eq!(res.errors, []);
    assert_eq!(res.stmts.len(), 1 + 3 * functions);
    let idx = create_index(&res.tokens, &res.stmts);
    assert_eq!(idx.function_bodies.len(), functions);
    assert_eq!(idx.functions.len(), 2 * functions);
    assert_eq!(idx.dgb_annotations.len(), functions);
    assert_eq!(idx.global_vars.len(), 1);
    assert_eq!(
        idx.global_vars.get("@shared").unwrap().uses.len(),
        functions
    );
    for (i, body) in idx.function_bodies.iter().enumerate() {
        assert_eq!(body.name.0, format!("@work_{}", i));
        assert_eq!(body.basic_blocks.len(), 3);
        assert_eq!(body.labels.len(), 2);
        assert_eq!(body.local_vars.len(), 4);
        // `loop` is reached from itself, `done` from `loop`; the phi adds no edge.
        let to_loop = body.incoming_bb_branches.get("loop").unwrap();
        assert_eq!(to_loop.len(), 1);
        assert_eq!(to_loop[0].0, "loop");
        let to_done = body.incoming_bb_branches.get("done").unwrap();
        assert_eq!(to_done.len(), 1);
        assert_eq!(to_done[0].0, "loop");
        assert_eq!(&src[body.complete_range.start..body.complete_range.start + 6], "define");
        assert_eq!(&src[body.complete_range.end - 1..body.complete_range.end], "}");
    }
    // No two occurrences overlap, and each points to a list that holds it.
    let mut last_end = 0;
    for (start, occ) in idx.reverse_idx.iter() {
        assert_eq!(*start, occ.span.start);
        assert!(last_end <= occ.span.start);
        assert!(occ.span.start < occ.span.end);
        last_end = occ.span.end;
        let ranges = idx.get_use_def_ranges(occ, occ.use_def).unwrap();
        assert!(ranges.contains(&occ.span));
    }
    let call = src.find("call @helper_7(").unwrap() + 5;
    let occ = idx.find_symbol_at_position(call).unwrap();
    assert_eq!(occ.name, "@helper_7");
    assert_eq!(occ.use_def, UseDefKind::Use);
    let decls = idx.get_use_def_ranges(occ, UseDefKind::Decl).unwrap();
    assert_eq!(decls.len(), 1);
    assert_eq!(
        &src[decls[0].start..decls[0].end],
        "@helper_7"
    );
}

#[test]
fn broken_function_in_the_middle_costs_what_it_spans() {
    let good = document(1);
    let src = format!(
        "{}define void @broken(int32 %x) {{\n  int32 = oops\n}}\n@after = 1\n",
        good
    );
    let res = parse_from_str(&src);
    assert_eq!(res.errors.len(), 1);
    let at = &res.errors[0].span;
    assert_eq!(&src[at.start..at.end], "=");
    let idx = create_index(&res.tokens, &res.stmts);
    assert_eq!(idx.function_bodies.len(), 1);
    assert!(idx.functions.contains_key("@work_0"));
    assert!(idx.global_vars.contains_key("@after"));
    // The name of the broken function is seen as a token only: a use of a
    // global variable, since no statement declares it.
    assert!(!idx.functions.contains_key("@broken"));
    assert_eq!(idx.global_vars.get("@broken").unwrap().uses.len(), 1);
}
