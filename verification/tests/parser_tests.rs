use hir_language_server::hir_parser::{parse_from_str, FuncBody, FuncSignature, Statement};
use hir_language_server::hir_tokenizer::Span;

#[test]
fn test_parse_globals() {
    let res = parse_from_str("@var1 = [0,0,4,0]");
    assert_eq!(res.errors, []);
    match res.stmts[..] {
        [Statement::GlobalVar { ref name, def: _ }] => {
            assert_eq!(name.0, "@var1");
        }
        _ => panic!("Unexpected parse {:?}", res.stmts),
    }
}

#[test]
fn test_parse_funcdecl() {
    // Test without arguments and without an address, but with modifiers
    let res = parse_from_str("declare exported int64 @_2_test()");
    assert_eq!(res.errors, []);
    match res.stmts[..] {
        [Statement::FuncDecl {
            signature:
                FuncSignature {
                    ref modifiers,
                    ref ret_type,
                    ref name,
                    ref args,
                },
            addr: None,
        }] => {
            assert_eq!(modifiers.len(), 1);
            assert_eq!(modifiers[0].0, "exported");
            assert_eq!(ret_type.0, "int64");
            assert_eq!(name.0, "@_2_test");
            assert_eq!(args.len(), 0);
        }
        _ => panic!("Unexpected parse {:?}", res.stmts),
    };

    // Test with arguments and with an address, but without modifiers
    let res = parse_from_str("declare void @foo::bar(int1 %, data128 %baz) = 0x123");
    assert_eq!(res.errors, []);
    match res.stmts[..] {
        [Statement::FuncDecl {
            signature:
                FuncSignature {
                    ref modifiers,
                    ref ret_type,
                    ref name,
                    ref args,
                },
            addr: Some(ref addr),
        }] => {
            assert_eq!(modifiers.len(), 0);
            assert_eq!(ret_type.0, "void");
            assert_eq!(name.0, "@foo::bar");
            assert_eq!(args.len(), 2);
            assert_eq!(args[0].type_.0, "int1");
            assert_eq!(args[0].name.0, "%");
            assert_eq!(args[1].type_.0, "data128");
            assert_eq!(args[1].name.0, "%baz");
            assert_eq!(addr.0, "123");
        }
        _ => panic!("Unexpected parse {:?}", res.stmts),
    };
}

#[test]
fn test_parse_funcdef() {
    // Test with arguments and with modifiers
    let res = parse_from_str(
        "
    define void @foo::bar(ptr %arg1_2, data128 %baz) {
        some instruction
    body_0:
        int32 %v1 = load int32 ptr %arg1_2 !161  # generateBinaryOperatorFcf
        # comment on separate line
        br int1 %v1 doneIsNull_1, elseIsNull_2
    doneIsNull_1:
        # empty block; not actually valid but accepted
    elseIsNull_2:
        ret
    }",
    );
    assert_eq!(res.errors, []);
    match &res.stmts[..] {
        [Statement::FuncDef {
            signature:
                FuncSignature {
                    modifiers,
                    ret_type,
                    name,
                    args,
                },
            body:
                FuncBody {
                    opening_bracket,
                    closing_bracket,
                    basic_blocks,
                },
            ..
        }] => {
            assert_eq!(modifiers.len(), 0);
            assert_eq!(ret_type.0, "void");
            assert_eq!(name.0, "@foo::bar");
            assert_eq!(args.len(), 2);
            assert_eq!(args[0].type_.0, "ptr");
            assert_eq!(args[0].name.0, "%arg1_2");
            assert_eq!(args[1].type_.0, "data128");
            assert_eq!(args[1].name.0, "%baz");

            assert_eq!(*opening_bracket, Span { start: 54, end: 55 });
            assert_eq!(
                *closing_bracket,
                Span {
                    start: 359,
                    end: 360,
                }
            );
            assert_eq!(basic_blocks.len(), 4);
            assert_eq!(basic_blocks[0].label, None);
            assert_eq!(basic_blocks[1].label.as_ref().unwrap().0, "body_0");
            assert_eq!(basic_blocks[2].label.as_ref().unwrap().0, "doneIsNull_1");
            assert_eq!(basic_blocks[3].label.as_ref().unwrap().0, "elseIsNull_2");
        }
        _ => panic!("Unexpected parse {:?}", res.stmts),
    };
}

#[test]
fn test_parse_dbgannotation() {
    let res = parse_from_str("!123 {}");
    assert_eq!(res.errors, []);
    match res.stmts[..] {
        [Statement::DbgAnnotation { ref name, def: _ }] => {
            assert_eq!(name.0, "123");
        }
        _ => panic!("Unexpected parse {:?}", res.stmts),
    }
}

#[test]
fn test_recovers_multistmt() {
    let res = parse_from_str(
        "\
    @1 = [12]
    declare void @foo()",
    );
    assert_eq!(res.errors, []);
    match &res.stmts[..] {
        [Statement::GlobalVar {
            name: varname,
            def: _,
        }, Statement::FuncDecl {
            signature:
                FuncSignature {
                    modifiers,
                    ret_type,
                    name: funcname,
                    args,
                },
            addr: None,
        }] => {
            assert_eq!(varname.0, "@1");
            assert_eq!(funcname.0, "@foo");
            assert_eq!(ret_type.0, "void");
            assert_eq!(modifiers.len(), 0);
            assert_eq!(args.len(), 0);
        }
        _ => panic!("Unexpected parse {:?}", res.stmts),
    }
}

#[test]
fn test_recovers_from_bad_line() {
    let res = parse_from_str(
        "\
    @1 = [12]
    broken line
    @bar = [32]
    ",
    );
    assert_eq!(res.errors.len(), 1);
    match &res.stmts[..] {
        [Statement::GlobalVar {
            name: name1,
            def: _,
        }, Statement::GlobalVar {
            name: name2,
            def: _,
        }] => {
            assert_eq!(name1.0, "@1");
            assert_eq!(name2.0, "@bar");
        }
        _ => panic!("Unexpected parse {:?}", res.stmts),
    }
}
