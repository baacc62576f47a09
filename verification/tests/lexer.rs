use mal::lexer::{is_line_comment, skip_to_eol, Lexer, LexerError, TokenKind};

fn kinds(src: &str) -> Vec<TokenKind> {
    Lexer::new(src).tokenize().unwrap().into_iter().map(|t| t.kind).collect()
}

#[test]
fn test_tokenize_assignment() {
    assert_eq!(
        kinds("أ ≔ 5"),
        vec![TokenKind::Ident, TokenKind::Assign, TokenKind::Num, TokenKind::Eof]
    );
}

#[test]
fn test_tokenize_lambda_define() {
    assert_eq!(
        kinds("ضعف ≡ λس. س · 2"),
        vec![
            TokenKind::Ident, TokenKind::Define, TokenKind::Lambda, TokenKind::Ident,
            TokenKind::Dot, TokenKind::Ident, TokenKind::Mul, TokenKind::Num, TokenKind::Eof
        ]
    );
}

#[test]
fn test_tokenize_print_call() {
    assert_eq!(
        kinds("⎕ ضعف(5)"),
        vec![
            TokenKind::Print, TokenKind::Ident, TokenKind::LParen,
            TokenKind::Num, TokenKind::RParen, TokenKind::Eof
        ]
    );
}

#[test]
fn test_tokenize_block_and_list() {
    assert_eq!(
        kinds("﴿ أ ⋄ ب ﴾ ⟨1،2⟩"),
        vec![
            TokenKind::LBlock, TokenKind::Ident, TokenKind::Diamond, TokenKind::Ident, TokenKind::RBlock,
            TokenKind::LAngle, TokenKind::Num, TokenKind::Comma, TokenKind::Num, TokenKind::RAngle,
            TokenKind::Eof
        ]
    );
}

#[test]
fn test_ident_and_str_ranges() {
    let src = "سلام ≔ \"مرحبا\"";
    let toks = Lexer::new(src).tokenize().unwrap();
    let ident = &toks[0];
    assert_eq!(ident.kind, TokenKind::Ident);
    assert_eq!(&src[ident.start as usize..(ident.start + ident.len) as usize], "سلام");
    let s = &toks[2];
    assert_eq!(s.kind, TokenKind::Str);
    assert_eq!(&src[s.start as usize..(s.start + s.len) as usize], "\"مرحبا\"");
}

#[test]
fn test_line_col_tracking() {
    let toks = Lexer::new("أ ≔ 1\n⎕ أ").tokenize().unwrap();
    assert_eq!((toks[0].line, toks[0].col), (1, 1));
    assert_eq!((toks[3].line, toks[3].col), (2, 1));
    assert_eq!((toks[4].line, toks[4].col), (2, 3));
}

#[test]
fn test_unterminated_string_abstain() {
    let err = Lexer::new("س ≔ \"نص").tokenize().unwrap_err();
    assert!(matches!(err, LexerError::UnterminatedString { .. }));
}

#[test]
fn test_unexpected_char_abstain() {
    let err = Lexer::new("أ ≔ 5 @").tokenize().unwrap_err();
    assert!(matches!(err, LexerError::UnexpectedChar { .. }));
}

#[test]
fn test_number_overflow_abstain() {
    let err = Lexer::new("9999999999999999999999").tokenize().unwrap_err();
    assert!(matches!(err, LexerError::NumberOverflow { .. }));
}

#[test]
fn test_tokenize_true_keyword() {
    assert_eq!(kinds("true"), vec![TokenKind::TrueLit, TokenKind::Eof]);
}

#[test]
fn test_tokenize_false_keyword() {
    assert_eq!(kinds("false"), vec![TokenKind::FalseLit, TokenKind::Eof]);
}

#[test]
fn test_tokenize_bool_in_expression() {
    assert_eq!(
        kinds("true ∧ false"),
        vec![TokenKind::TrueLit, TokenKind::And, TokenKind::FalseLit, TokenKind::Eof]
    );
}

#[test]
fn test_tokenize_identifier_not_keyword() {
    assert_eq!(kinds("trueish"), vec![TokenKind::Ident, TokenKind::Eof]);
}

#[test]
fn lexer_number_payload_and_offsets() {
    let toks = Lexer::new("x ≔ 9223372036854775807").tokenize().unwrap();
    assert_eq!(toks[2].kind, TokenKind::Num);
    assert_eq!(toks[2].num, i64::MAX);
    assert_eq!(toks[1].start, 2);
    assert_eq!(toks[1].len, 3);
    assert_eq!(toks[2].start, 6);
    assert_eq!(toks[3].kind, TokenKind::Eof);
    assert_eq!(toks[3].start, 25);
    assert_eq!(toks[3].len, 0);
}

#[test]
fn lexer_number_overflow_at_limit() {
    let err = Lexer::new("9223372036854775808").tokenize().unwrap_err();
    assert_eq!(err, LexerError::NumberOverflow { line: 1, col: 1 });
}

#[test]
fn lexer_slashes_are_division() {
    assert_eq!(kinds("1 // 2"), vec![TokenKind::Num, TokenKind::Div, TokenKind::Div, TokenKind::Num, TokenKind::Eof]);
    assert_eq!(
        kinds("x /* y"),
        vec![TokenKind::Ident, TokenKind::Div, TokenKind::Mul, TokenKind::Ident, TokenKind::Eof]
    );
}

#[test]
fn lexer_two_char_operators() {
    assert_eq!(
        kinds("a == b => c = d / e"),
        vec![
            TokenKind::Ident, TokenKind::EqEq, TokenKind::Ident, TokenKind::FatArrow,
            TokenKind::Ident, TokenKind::Eq, TokenKind::Ident, TokenKind::Div,
            TokenKind::Ident, TokenKind::Eof
        ]
    );
}

#[test]
fn lexer_sql_keywords() {
    assert_eq!(
        kinds("SELECT x FROM t WHERE x in s"),
        vec![
            TokenKind::Select, TokenKind::Ident, TokenKind::From, TokenKind::Ident,
            TokenKind::Where, TokenKind::Ident, TokenKind::In, TokenKind::Ident, TokenKind::Eof
        ]
    );
}

#[test]
fn lexer_unexpected_char_position() {
    let err = Lexer::new("أ\n  @").tokenize().unwrap_err();
    assert_eq!(err, LexerError::UnexpectedChar { line: 2, col: 3 });
}

#[test]
fn lexer_comment_helpers() {
    assert!(is_line_comment("a // b", 2));
    assert!(!is_line_comment("a / b", 2));
    assert!(!is_line_comment("/", 0));
    assert_eq!(skip_to_eol("ab\ncd", 0), 2);
    assert_eq!(skip_to_eol("abcd", 1), 4);
    assert_eq!(skip_to_eol("ab", 7), 7);
}

#[test]
fn lexer_spans_ascend_and_end_with_eof() {
    let src = "س ≔ 12 ⊕ \"ab\"";
    let toks = Lexer::new(src).tokenize().unwrap();
    let last = toks.last().unwrap();
    assert_eq!(last.kind, TokenKind::Eof);
    assert_eq!(last.start as usize, src.len());
    assert_eq!(last.len, 0);
    for w in toks.windows(2) {
        assert_ne!(w[0].kind, TokenKind::Eof);
        assert!(w[0].len > 0);
        assert!(w[0].start + w[0].len <= w[1].start);
    }
    for t in &toks {
        assert!(src.is_char_boundary(t.start as usize));
        assert!(src.is_char_boundary((t.start + t.len) as usize));
    }
}

#[test]
fn lexer_tokens_and_whitespace_cover_the_source() {
    let src = "أ ≔ 5";
    let toks = Lexer::new(src).tokenize().unwrap();
    let token_bytes: u32 = toks.iter().map(|t| t.len).sum();
    let mut outside = 0usize;
    for (b, c) in src.char_indices() {
        let inside = toks.iter().any(|t| t.start as usize <= b && b < (t.start + t.len) as usize);
        if !inside {
            assert!(c.is_whitespace());
            outside += c.len_utf8();
        }
    }
    assert_eq!(token_bytes, 6);
    assert_eq!(token_bytes as usize + outside, src.len());
}
