use hir_language_server::diagnostics::{Diagnostic, DiagnosticKind};
use hir_language_server::hir_tokenizer::{tokenize, Span, Token, TokenKind};

fn lex(src: &str) -> (Vec<(Token, Span)>, Vec<Diagnostic>) {
    tokenize(src.as_bytes())
}

fn text(src: &str, span: &Span) -> String {
    src[span.start..span.end].to_string()
}

#[test]
fn lexes_every_kind_of_token() {
    let src = "declare define\n# note\n( @g::h %l.1 !12 int32 exported foo 0x1F 12";
    let (tokens, errors) = lex(src);
    assert_eq!(errors, []);
    let expected = vec![
        (Token::Declare, 0, 7),
        (Token::Define, 8, 14),
        (Token::Newline, 14, 15),
        (Token::Comment, 15, 21),
        (Token::Newline, 21, 22),
        (Token::Punctuation('('), 22, 23),
        (Token::GlobalName("@g::h".to_string()), 24, 29),
        (Token::LocalName("%l.1".to_string()), 30, 34),
        (Token::DebugRef("12".to_string()), 35, 38),
        (Token::Type("int32".to_string()), 39, 44),
        (Token::FuncModifier("exported".to_string()), 45, 53),
        (Token::Ident("foo".to_string()), 54, 57),
        (Token::HexNum("1F".to_string()), 58, 62),
        (Token::HexNum("12".to_string()), 63, 65),
    ];
    assert_eq!(tokens.len(), expected.len());
    for (got, want) in tokens.iter().zip(expected.iter()) {
        assert_eq!(got.0, want.0);
        assert_eq!(
            got.1,
            Span {
                start: want.1,
                end: want.2
            }
        );
    }
}

#[test]
fn token_kinds_match_their_tokens() {
    let (tokens, _) = lex("declare define\n#c\n= @a %b !1 void inline x 7");
    let kinds: Vec<TokenKind> = tokens.iter().map(|t| t.0.kind()).collect();
    assert_eq!(
        kinds,
        vec![
            TokenKind::Declare,
            TokenKind::Define,
            TokenKind::Newline,
            TokenKind::Comment,
            TokenKind::Newline,
            TokenKind::Punctuation,
            TokenKind::GlobalName,
            TokenKind::LocalName,
            TokenKind::DebugRef,
            TokenKind::Type,
            TokenKind::FuncModifier,
            TokenKind::Ident,
            TokenKind::HexNum,
        ]
    );
}

#[test]
fn names_keep_their_sigil_and_numbers_lose_their_prefix() {
    let (tokens, errors) = lex("@var1 %arg1_2 % !161 0x1234 0X0a 0x");
    assert_eq!(errors, []);
    let got: Vec<Token> = tokens.into_iter().map(|t| t.0).collect();
    assert_eq!(
        got,
        vec![
            Token::GlobalName("@var1".to_string()),
            Token::LocalName("%arg1_2".to_string()),
            Token::LocalName("%".to_string()),
            Token::DebugRef("161".to_string()),
            Token::HexNum("1234".to_string()),
            Token::HexNum("0a".to_string()),
            Token::HexNum("0".to_string()),
            Token::Ident("x".to_string()),
        ]
    );
}

#[test]
fn keyword_table_tells_types_and_modifiers_from_identifiers() {
    for word in [
        "void", "int1", "int8", "int16", "int32", "int64", "int128", "data128", "double", "ptr",
    ] {
        let (tokens, _) = lex(word);
        assert_eq!(tokens[0].0, Token::Type(word.to_string()));
    }
    for word in ["exported", "inline", "noinline", "noreturn"] {
        let (tokens, _) = lex(word);
        assert_eq!(tokens[0].0, Token::FuncModifier(word.to_string()));
    }
    for word in ["int3", "declared", "defin", "Void", "_", "br", "phi"] {
        let (tokens, _) = lex(word);
        assert_eq!(tokens[0].0, Token::Ident(word.to_string()));
    }
}

#[test]
fn span_of_a_token_is_its_text() {
    let src = "  @a = \"test\"\t# trailing\r\n%x";
    let (tokens, errors) = lex(src);
    assert_eq!(errors, []);
    let texts: Vec<String> = tokens.iter().map(|t| text(src, &t.1)).collect();
    assert_eq!(
        texts,
        vec!["@a", "=", "\"", "test", "\"", "# trailing\r", "\n", "%x"]
    );
}

#[test]
fn bang_without_digit_is_punctuation() {
    let (tokens, errors) = lex("! !x !7");
    assert_eq!(errors, []);
    let got: Vec<Token> = tokens.into_iter().map(|t| t.0).collect();
    assert_eq!(
        got,
        vec![
            Token::Punctuation('!'),
            Token::Punctuation('!'),
            Token::Ident("x".to_string()),
            Token::DebugRef("7".to_string()),
        ]
    );
}

#[test]
fn unrecognized_text_is_reported_once_and_skipped() {
    let src = "@a \u{e9}\u{e9} = 1 \u{1} 2";
    let (tokens, errors) = lex(src);
    assert_eq!(
        errors,
        vec![
            Diagnostic {
                span: Span { start: 3, end: 7 },
                kind: DiagnosticKind::UnrecognizedText
            },
            Diagnostic {
                span: Span { start: 12, end: 13 },
                kind: DiagnosticKind::UnrecognizedText
            },
        ]
    );
    let got: Vec<Token> = tokens.into_iter().map(|t| t.0).collect();
    assert_eq!(
        got,
        vec![
            Token::GlobalName("@a".to_string()),
            Token::Punctuation('='),
            Token::HexNum("1".to_string()),
            Token::HexNum("2".to_string()),
        ]
    );
}

#[test]
fn empty_source_has_no_tokens() {
    let (tokens, errors) = lex("");
    assert_eq!(tokens.len(), 0);
    assert_eq!(errors, []);
    let (tokens, errors) = lex(" \t \r ");
    assert_eq!(tokens.len(), 0);
    assert_eq!(errors, []);
}

#[test]
fn token_spans_follow_each_other() {
    let src = "define void @f(int32 %a) {\n  ret %a !1 # done\n}\n";
    let (tokens, _) = lex(src);
    let mut last_end = 0;
    for (_, span) in tokens.iter() {
        assert!(last_end <= span.start);
        assert!(span.start < span.end);
        assert!(span.end <= src.len());
        last_end = span.end;
    }
}

#[test]
fn token_clone_is_equal() {
    let (tokens, _) = lex("@a = 1 # c\n");
    for (token, _) in tokens.iter() {
        assert_eq!(token.clone(), *token);
    }
}

#[test]
fn punctuation_test_looks_at_the_character() {
    assert!(Token::Punctuation(':').is_punct(':'));
    assert!(!Token::Punctuation(':').is_punct('='));
    assert!(!Token::Ident(":".to_string()).is_punct(':'));
}

#[test]
fn span_contains_is_half_open() {
    let span = Span { start: 3, end: 5 };
    assert!(!span.contains(2));
    assert!(span.contains(3));
    assert!(span.contains(4));
    assert!(!span.contains(5));
    assert!(!Span { start: 3, end: 3 }.contains(3));
}
