use hir_language_server::hir_index::{create_index, FunctionBody, UseDefList};
use hir_language_server::hir_parser::parse_from_str;
use hir_language_server::hir_tokenizer::Span;
use hir_language_server::name_table::NameTable;
use std::fmt::Debug;
use std::ops::Range;

fn sp(r: Range<usize>) -> Span {
    Span {
        start: r.start,
        end: r.end,
    }
}

fn spans(rs: Vec<Range<usize>>) -> Vec<Span> {
    rs.into_iter().map(sp).collect()
}

/// The table holds exactly the expected names, each with the expected value.
fn assert_table<V: PartialEq + Debug>(table: &NameTable<V>, expected: Vec<(String, V)>) {
    assert_eq!(table.len(), expected.len(), "{:?}", table);
    for (name, value) in expected.iter() {
        assert_eq!(table.get(name), Some(value), "entry {:?}", name);
    }
}

#[test]
fn test_index() {
    // Test with arguments and with modifiers
    let res = parse_from_str(
        "
        @a = \"test\"
        declare int32 @foo::bar(ptr %, int32 %baz) = 0x1234
        declare int32 @_test1(int32 %foo, data128 %baz)
        define void @_test1(int32 %foo, data128 %baz) {
          some instruction
          body_0:
            int32 %res_1 = call @foo::bar(ptr @a, int32 %foo)
            br switch_1
          switch_1:
            switch int32 %res_1, default=done_1, int32 0 label=done_1
          done_1:
            ret int32 %res_1 !21 # some comment
        }
        !21 {\"some\": \"data\"}",
    );
    assert_eq!(res.errors, []);
    let idx = create_index(&res.tokens, &res.stmts);
    assert_table(
        &idx.global_vars,
        vec![(
            "@a".to_string(),
            UseDefList {
                decls: Vec::new(),
                defs: spans(vec![9..11]),
                uses: spans(vec![284..286]),
            },
        )],
    );

    assert_table(
        &idx.functions,
        vec![
            (
                "@foo::bar".to_string(),
                UseDefList {
                    decls: spans(vec![43..52]),
                    defs: Vec::new(),
                    uses: spans(vec![270..279]),
                },
            ),
            (
                "@_test1".to_string(),
                UseDefList {
                    decls: spans(vec![103..110]),
                    defs: spans(vec![157..164]),
                    uses: Vec::new(),
                },
            ),
        ],
    );

    assert_table(
        &idx.dgb_annotations,
        vec![(
            "!21".to_string(),
            UseDefList {
                decls: Vec::new(),
                defs: spans(vec![498..501]),
                uses: spans(vec![461..464]),
            },
        )],
    );

    match &idx.function_bodies[..] {
        [FunctionBody {
            name,
            complete_range,
            labels,
            local_vars,
            basic_blocks,
            incoming_bb_branches,
        }] => {
            assert_eq!(name.0, "@_test1");
            assert_eq!(name.1, sp(157..164));
            assert_eq!(*complete_range, sp(145..489));
            assert_table(
                labels,
                vec![
                    (
                        "body_0".to_string(),
                        UseDefList {
                            decls: Vec::new(),
                            defs: spans(vec![230..236]),
                            uses: Vec::new(),
                        },
                    ),
                    (
                        "switch_1".to_string(),
                        UseDefList {
                            decls: vec![],
                            defs: spans(vec![334..342]),
                            uses: spans(vec![315..323]),
                        },
                    ),
                    (
                        "done_1".to_string(),
                        UseDefList {
                            decls: Vec::new(),
                            defs: spans(vec![424..430]),
                            uses: spans(vec![385..391, 407..413]),
                        },
                    ),
                ],
            );
            assert_table(
                local_vars,
                vec![
                    (
                        "%foo".to_string(),
                        UseDefList {
                            decls: Vec::new(),
                            defs: spans(vec![171..175]),
                            uses: spans(vec![294..298]),
                        },
                    ),
                    (
                        "%baz".to_string(),
                        UseDefList {
                            decls: Vec::new(),
                            defs: spans(vec![185..189]),
                            uses: Vec::new(),
                        },
                    ),
                    (
                        "%res_1".to_string(),
                        UseDefList {
                            decls: Vec::new(),
                            defs: spans(vec![256..262]),
                            uses: spans(vec![369..375, 454..460]),
                        },
                    ),
                ],
            );
            assert_eq!(basic_blocks.len(), 4);
            assert_table(
                incoming_bb_branches,
                vec![
                    (
                        "switch_1".to_string(),
                        vec![("body_0".to_string(), sp(230..236))],
                    ),
                    (
                        "done_1".to_string(),
                        // Note that `switch_1` is listed only once, although it mentions `done1`
                        // as its target twice.
                        vec![("switch_1".to_string(), sp(334..342))],
                    ),
                ],
            );
        }
        _ => panic!("Unexpected index contents {:?}", res.stmts),
    };
}
