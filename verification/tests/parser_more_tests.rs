use hir_language_server::diagnostics::{Diagnostic, DiagnosticKind, Expected};
use hir_language_server::hir_parser::{
    copy_blocks, copy_name, parse_from_bytes, parse_from_str, parser, Statement,
};
use hir_language_server::hir_tokenizer::{tokenize, Span, Token};

fn only_error(src: &str) -> Diagnostic {
    let res = parse_from_str(src);
    assert_eq!(res.errors.len(), 1, "{:?}", res.errors);
    res.errors[0]
}

fn sp(start: usize, end: usize) -> Span {
    Span { start, end }
}

#[test]
fn global_definition_span_is_the_name() {
    let src = "@a = \"test\"";
    let res = parse_from_str(src);
    assert_eq!(res.errors, []);
    match &res.stmts[..] {
        [Statement::GlobalVar { name, def }] => {
            assert_eq!(name.0, "@a");
            assert_eq!(name.1, sp(0, 2));
            assert_eq!(&src[name.1.start..name.1.end], "@a");
            let soup: Vec<Token> = def.iter().map(|t| t.0.clone()).collect();
            assert_eq!(
                soup,
                vec![
                    Token::Punctuation('"'),
                    Token::Ident("test".to_string()),
                    Token::Punctuation('"'),
                ]
            );
        }
        _ => panic!("Unexpected parse {:?}", res.stmts),
    }
}

#[test]
fn tokens_keep_comments_but_statements_do_not_see_them() {
    let res = parse_from_str("# first\n@a = 1 # why\n!7 x # y");
    assert_eq!(res.errors, []);
    assert_eq!(
        res.tokens.iter().filter(|t| t.0 == Token::Comment).count(),
        3
    );
    match &res.stmts[..] {
        [Statement::GlobalVar { def: d1, .. }, Statement::DbgAnnotation { name, def: d2 }] => {
            assert_eq!(d1.len(), 1);
            assert_eq!(name.0, "7");
            assert_eq!(name.1, sp(21, 23));
            assert_eq!(d2.len(), 1);
        }
        _ => panic!("Unexpected parse {:?}", res.stmts),
    }
}

#[test]
fn bytes_and_text_give_the_same_analysis() {
    let src = "@a = 1\nbroken\ndeclare void @f()\n";
    let a = parse_from_str(src);
    let b = parse_from_bytes(src.as_bytes());
    assert_eq!(a.tokens, b.tokens);
    assert_eq!(a.stmts, b.stmts);
    assert_eq!(a.errors, b.errors);
}

#[test]
fn parser_takes_a_token_stream() {
    let src = "@a = 1\n@b = 2";
    let (tokens, _) = tokenize(src.as_bytes());
    let (stmts, errors) = parser(&tokens, src.len());
    assert_eq!(errors, []);
    assert_eq!(stmts.len(), 2);
}

#[test]
fn statement_must_start_with_a_statement_token() {
    assert_eq!(
        only_error("broken"),
        Diagnostic {
            span: sp(0, 6),
            kind: DiagnosticKind::UnexpectedToken(Expected::Statement)
        }
    );
}

#[test]
fn global_needs_an_assignment() {
    assert_eq!(
        only_error("@a 1"),
        Diagnostic {
            span: sp(3, 4),
            kind: DiagnosticKind::UnexpectedToken(Expected::Assign)
        }
    );
    assert_eq!(
        only_error("@a"),
        Diagnostic {
            span: sp(2, 2),
            kind: DiagnosticKind::UnexpectedEnd(Expected::Assign)
        }
    );
}

#[test]
fn signature_errors_name_what_was_expected() {
    assert_eq!(
        only_error("declare @f()").kind,
        DiagnosticKind::UnexpectedToken(Expected::Type)
    );
    assert_eq!(
        only_error("declare void f()").kind,
        DiagnosticKind::UnexpectedToken(Expected::GlobalName)
    );
    assert_eq!(
        only_error("declare void @f").kind,
        DiagnosticKind::UnexpectedEnd(Expected::OpenParen)
    );
    assert_eq!(
        only_error("declare void @f(int32)"),
        Diagnostic {
            span: sp(21, 22),
            kind: DiagnosticKind::UnexpectedToken(Expected::LocalName)
        }
    );
    assert_eq!(
        only_error("declare void @f(int32 %a int32 %b)").kind,
        DiagnosticKind::UnexpectedToken(Expected::CloseParen)
    );
    assert_eq!(
        only_error("declare void @f(int32 %a,)").kind,
        DiagnosticKind::UnexpectedToken(Expected::Type)
    );
}

#[test]
fn unclosed_argument_list_is_reported_at_the_end() {
    let src = "declare void @f(int32 %a";
    assert_eq!(
        only_error(src),
        Diagnostic {
            span: sp(src.len(), src.len()),
            kind: DiagnosticKind::UnclosedDelimiter('(')
        }
    );
}

#[test]
fn unclosed_body_is_reported_at_the_end() {
    let src = "define void @f() {\n  ret\n";
    assert_eq!(
        only_error(src),
        Diagnostic {
            span: sp(src.len(), src.len()),
            kind: DiagnosticKind::UnclosedDelimiter('{')
        }
    );
}

#[test]
fn declaration_errors_name_what_was_expected() {
    assert_eq!(
        only_error("declare void @f() = x").kind,
        DiagnosticKind::UnexpectedToken(Expected::HexNum)
    );
    assert_eq!(
        only_error("declare void @f() junk").kind,
        DiagnosticKind::UnexpectedToken(Expected::LineEnd)
    );
    assert_eq!(
        only_error("declare void @f() =").kind,
        DiagnosticKind::UnexpectedEnd(Expected::HexNum)
    );
}

#[test]
fn body_errors_name_what_was_expected() {
    assert_eq!(
        only_error("define void @f()").kind,
        DiagnosticKind::UnexpectedEnd(Expected::OpenBrace)
    );
    assert_eq!(
        only_error("define void @f() { ret").kind,
        DiagnosticKind::UnexpectedToken(Expected::LineEnd)
    );
    assert_eq!(
        only_error("define void @f() {\n int32 x\n}").kind,
        DiagnosticKind::UnexpectedToken(Expected::LocalName)
    );
    assert_eq!(
        only_error("define void @f() {\n int32 %x y\n}").kind,
        DiagnosticKind::UnexpectedToken(Expected::Assign)
    );
    assert_eq!(
        only_error("define void @f() {\n int32 %x = 5\n}").kind,
        DiagnosticKind::UnexpectedToken(Expected::Mnemonic)
    );
    assert_eq!(
        only_error("define void @f() {\n l: ret\n}").kind,
        DiagnosticKind::UnexpectedToken(Expected::LineEnd)
    );
    assert_eq!(
        only_error("define void @f() {\n ret\n} }").kind,
        DiagnosticKind::UnexpectedToken(Expected::LineEnd)
    );
    assert_eq!(
        only_error("define void @f() {\n ret\n ( \n").kind,
        DiagnosticKind::UnexpectedToken(Expected::CloseBrace)
    );
}

#[test]
fn lexical_errors_come_before_syntax_errors() {
    let res = parse_from_str("@a = 1\nbroken\n@b = \u{e9}");
    assert_eq!(
        res.errors,
        vec![
            Diagnostic {
                span: sp(19, 21),
                kind: DiagnosticKind::UnrecognizedText
            },
            Diagnostic {
                span: sp(7, 13),
                kind: DiagnosticKind::UnexpectedToken(Expected::Statement)
            },
        ]
    );
    assert_eq!(res.stmts.len(), 2);
}

#[test]
fn broken_last_statement_keeps_the_ones_before() {
    let res = parse_from_str("@a = 1\n@b = 2\ndeclare void");
    assert_eq!(res.errors.len(), 1);
    assert_eq!(res.stmts.len(), 2);
}

#[test]
fn each_broken_statement_gives_one_diagnostic() {
    let res = parse_from_str("bad one\n@a = 1\nbad two here\n@b = 2\nbad");
    assert_eq!(res.errors.len(), 3);
    match &res.stmts[..] {
        [Statement::GlobalVar { name: a, .. }, Statement::GlobalVar { name: b, .. }] => {
            assert_eq!(a.0, "@a");
            assert_eq!(b.0, "@b");
        }
        _ => panic!("Unexpected parse {:?}", res.stmts),
    }
}

#[test]
fn parsing_resumes_where_a_statement_can_start() {
    // `@x = 1` in the middle of the broken line is the first place from
    // which a statement can be read again.
    let res = parse_from_str("broken @x = 1\n@y = 2");
    assert_eq!(res.errors.len(), 1);
    match &res.stmts[..] {
        [Statement::GlobalVar { name: a, .. }, Statement::GlobalVar { name: b, .. }] => {
            assert_eq!(a.0, "@x");
            assert_eq!(b.0, "@y");
        }
        _ => panic!("Unexpected parse {:?}", res.stmts),
    }
}

#[test]
fn blank_lines_may_stand_anywhere() {
    let res = parse_from_str(
        "\n\n@a = 1\n\n\ndefine void @f() {\n\n\n  ret\n\n  l:\n\n\n    br l\n\n}\n\n\n!1 x\n\n",
    );
    assert_eq!(res.errors, []);
    assert_eq!(res.stmts.len(), 3);
}

#[test]
fn block_references_are_the_operands_that_name_a_label() {
    let src = "define void @f() {\n  br later\nearly:\n  br early, later, nowhere\nlater:\n  switch x, default=early, label=later\n}";
    let res = parse_from_str(src);
    assert_eq!(res.errors, []);
    match &res.stmts[..] {
        [Statement::FuncDef { body, .. }] => {
            let blocks = &body.basic_blocks;
            assert_eq!(blocks.len(), 3);
            let refs = |b: usize, i: usize| -> Vec<String> {
                blocks[b].instructions[i]
                    .basic_block_refs
                    .iter()
                    .map(|r| r.0.clone())
                    .collect()
            };
            assert_eq!(refs(0, 0), vec!["later"]);
            assert_eq!(refs(1, 0), vec!["early", "later"]);
            assert_eq!(refs(2, 0), vec!["early", "later"]);
            let first = &blocks[1].instructions[0].basic_block_refs[0];
            assert_eq!(&src[first.1.start..first.1.end], "early");
        }
        _ => panic!("Unexpected parse {:?}", res.stmts),
    }
}

#[test]
fn label_span_is_the_identifier() {
    let src = "define void @f() {\n  ret\nexit:\n  ret\n}";
    let res = parse_from_str(src);
    assert_eq!(res.errors, []);
    match &res.stmts[..] {
        [Statement::FuncDef { body, .. }] => {
            let label = body.basic_blocks[1].label.as_ref().unwrap();
            assert_eq!(label.0, "exit");
            assert_eq!(&src[label.1.start..label.1.end], "exit");
            assert_eq!(label.1, sp(25, 29));
            assert_eq!(&src[label.1.end..label.1.end + 1], ":");
        }
        _ => panic!("Unexpected parse {:?}", res.stmts),
    }
}

#[test]
fn instructions_and_blocks_have_spans() {
    let src = "define void @f() {\n  int32 %x = add %a %b\n  ret %x # c\nnext:\nlast:\n  ret\n}";
    let res = parse_from_str(src);
    assert_eq!(res.errors, []);
    match &res.stmts[..] {
        [Statement::FuncDef {
            define_kw, body, ..
        }] => {
            assert_eq!(*define_kw, sp(0, 6));
            let blocks = &body.basic_blocks;
            assert_eq!(blocks.len(), 3);
            let of = |s: &Span| &src[s.start..s.end];
            assert_eq!(of(&blocks[0].instructions[0].span), "int32 %x = add %a %b");
            assert_eq!(of(&blocks[0].instructions[1].span), "ret %x");
            assert_eq!(of(&blocks[0].span), "int32 %x = add %a %b\n  ret %x");
            assert_eq!(of(&blocks[1].span), "next:");
            assert_eq!(of(&blocks[2].span), "last:\n  ret");
            let target = blocks[0].instructions[0]
                .assignment_target
                .as_ref()
                .unwrap();
            assert_eq!(target.0, "%x");
            assert_eq!(of(&target.1), "%x");
            assert_eq!(blocks[0].instructions[0].instruction.0, "add");
            assert_eq!(blocks[0].instructions[1].assignment_target, None);
        }
        _ => panic!("Unexpected parse {:?}", res.stmts),
    }
}

#[test]
fn empty_entry_block_stands_behind_the_bracket() {
    let src = "define void @f() {\nonly:\n  ret\n}";
    let res = parse_from_str(src);
    assert_eq!(res.errors, []);
    match &res.stmts[..] {
        [Statement::FuncDef { body, .. }] => {
            assert_eq!(body.opening_bracket, sp(17, 18));
            assert_eq!(body.basic_blocks[0].label, None);
            assert_eq!(body.basic_blocks[0].instructions.len(), 0);
            assert_eq!(body.basic_blocks[0].span, sp(18, 18));
        }
        _ => panic!("Unexpected parse {:?}", res.stmts),
    }
}

#[test]
fn copies_are_equal_to_what_they_copy() {
    let res = parse_from_str("define void @f() {\n  br a\na:\n  int32 %x = phi a\n}");
    assert_eq!(res.errors, []);
    match &res.stmts[..] {
        [Statement::FuncDef {
            signature, body, ..
        }] => {
            assert_eq!(copy_name(&signature.name), signature.name);
            assert_eq!(copy_blocks(&body.basic_blocks), body.basic_blocks);
            let ins = &body.basic_blocks[1].instructions[0];
            assert_eq!(ins.clone(), *ins);
            assert_eq!(body.basic_blocks[1].clone(), body.basic_blocks[1]);
        }
        _ => panic!("Unexpected parse {:?}", res.stmts),
    }
}

#[test]
fn label_of_the_first_block_is_its_identifier() {
    let res = parse_from_str("define void @f() {\nbody_0:\nret\n}");
    assert_eq!(res.errors, []);
    match &res.stmts[..] {
        [Statement::FuncDef { body, .. }] => {
            assert_eq!(body.opening_bracket, sp(17, 18));
            assert_eq!(body.closing_bracket, sp(31, 32));
            assert_eq!(
                body.basic_blocks[1].label,
                Some(("body_0".to_string(), sp(19, 25)))
            );
            assert_eq!(body.basic_blocks[1].span, sp(19, 30));
        }
        _ => panic!("Unexpected parse {:?}", res.stmts),
    }
}

#[test]
fn messages_tell_the_kinds_of_diagnostic_apart() {
    let at = |kind: DiagnosticKind| Diagnostic {
        span: sp(0, 1),
        kind,
    };
    assert_eq!(
        at(DiagnosticKind::UnrecognizedText).message(),
        "Unrecognized text"
    );
    assert_eq!(
        at(DiagnosticKind::UnexpectedToken(Expected::Assign)).message(),
        "Unexpected token in input, expected '='"
    );
    assert_eq!(
        at(DiagnosticKind::UnexpectedEnd(Expected::HexNum)).message(),
        "Unexpected end of input, expected a hexadecimal number"
    );
    assert_eq!(
        at(DiagnosticKind::UnclosedDelimiter('{')).message(),
        "Unclosed delimiter {"
    );
    assert_eq!(
        only_error("declare void @f(int32 %a").message(),
        "Unclosed delimiter ("
    );
    let expected = [
        (
            Expected::Statement,
            "a global name, 'declare', 'define' or a debug reference",
        ),
        (Expected::Type, "a type"),
        (Expected::GlobalName, "a global name"),
        (Expected::LocalName, "a local name"),
        (Expected::Mnemonic, "an instruction"),
        (Expected::HexNum, "a hexadecimal number"),
        (Expected::Assign, "'='"),
        (Expected::OpenParen, "'('"),
        (Expected::CloseParen, "',' or ')'"),
        (Expected::OpenBrace, "'{'"),
        (Expected::CloseBrace, "an instruction, a label or '}'"),
        (Expected::LineEnd, "end of line"),
    ];
    for (e, text) in expected.iter() {
        assert_eq!(e.describe(), *text);
    }
}
