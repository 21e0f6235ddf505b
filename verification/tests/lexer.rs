use cic::lexer::{tokenize, LexError, LexErrorKind, Lexer, Punct, Span, Spanned, Token, TokenKind};

fn lex(src: &str) -> Result<Vec<Token>, LexError<'_>> {
    let mut lexer = Lexer::new(src);
    let mut tokens = Vec::new();

    loop {
        let token = lexer.next_token()?;
        match token.kind {
            TokenKind::Eof => return Ok(tokens),
            _ => tokens.push(token),
        }
    }
}

#[test]
fn specficiation_example() {
    let tokens = lex("(33 + (912 * 11))").unwrap();
    let expected: [(TokenKind, usize, usize); 9] = [
        (Punct::OpenParen.into(), 0, 1),
        (33.into(), 1, 3),
        (Punct::Plus.into(), 4, 5),
        (Punct::OpenParen.into(), 6, 7),
        (912.into(), 7, 10),
        (Punct::Star.into(), 11, 12),
        (11.into(), 13, 15),
        (Punct::CloseParen.into(), 15, 16),
        (Punct::CloseParen.into(), 16, 17),
    ];

    assert_eq!(tokens.len(), expected.len());
    for (token, (kind, start, end)) in tokens.iter().zip(expected) {
        assert_eq!(token.kind, kind);
        assert_eq!(token.span, Span::new(start, end));
    }
}

#[test]
fn display_follows_specification_format() {
    let output: Vec<_> = lex("(33 + (912 * 11))").unwrap().iter().map(|t| t.to_string()).collect();

    let expected = [
        r#"<OpenParen, '(', 0>"#,
        r#"<Integer, '33', 1>"#,
        r#"<Plus, '+', 4>"#,
        r#"<OpenParen, '(', 6>"#,
        r#"<Integer, '912', 7>"#,
        r#"<Star, '*', 11>"#,
        r#"<Integer, '11', 13>"#,
        r#"<CloseParen, ')', 15>"#,
        r#"<CloseParen, ')', 16>"#,
    ];

    assert_eq!(output, expected);
    println!("{output:#?}");
}

#[test]
fn integer_past_i64_max_non_accepted() {
    let tokens = lex("(1 + 9223372036854775808)").unwrap_err();
    assert!(matches!(tokens.kind, LexErrorKind::InvalidInteger("9223372036854775808")));
    assert_eq!(tokens.span, Span::new(5, 24))
}

#[test]
fn unexpected_char_is_rejected() {
    let tokens = lex("(1 + a)").unwrap_err();
    assert!(matches!(tokens.kind, LexErrorKind::UnexpectedChar('a')));
    assert_eq!(tokens.span, Span::new(5, 6))
}

#[test]
fn i64_max_is_accepted() {
    let tokens = lex("9223372036854775807").unwrap();
    assert_eq!(tokens.len(), 1);
    assert_eq!(tokens[0].kind, TokenKind::Integer(i64::MAX));
    assert_eq!(tokens[0].span, Span::new(0, 19));
}

#[test]
fn leading_zeros_and_all_punctuation() {
    let tokens = lex("007-/*\t\r\n\x0c+)").unwrap();
    let kinds: Vec<TokenKind> = tokens.iter().map(|t| t.kind).collect();
    assert_eq!(
        kinds,
        vec![
            TokenKind::Integer(7),
            TokenKind::Punct(Punct::Minus),
            TokenKind::Punct(Punct::Slash),
            TokenKind::Punct(Punct::Star),
            TokenKind::Punct(Punct::Plus),
            TokenKind::Punct(Punct::CloseParen),
        ]
    );
    assert_eq!(tokens[0].span, Span::new(0, 3));
    assert_eq!(tokens[4].span, Span::new(10, 11));
}

#[test]
fn tokens_follow_each_other_after_whitespace() {
    let tokens = lex("  12 \t(  3").unwrap();
    assert_eq!(tokens[0].span, Span::new(2, 4));
    assert_eq!(tokens[1].span, Span::new(6, 7));
    assert_eq!(tokens[2].span, Span::new(9, 10));
}

#[test]
fn integer_span_slices_its_digits() {
    let src = " (405 * 6)";
    let tokens = lex(src).unwrap();
    assert_eq!(tokens[1].kind, TokenKind::Integer(405));
    assert_eq!(tokens[1].span.slice(src), "405");
    assert_eq!(Span::new(2, 9).slice(src), "405 * 6");
}

#[test]
fn end_of_input_repeats() {
    let mut lexer = Lexer::new("1  ");
    assert_eq!(lexer.next_token().unwrap().kind, TokenKind::Integer(1));
    let first = lexer.next_token().unwrap();
    let second = lexer.next_token().unwrap();
    assert_eq!(first, Spanned::new(TokenKind::Eof, Span::new(3, 3)));
    assert_eq!(second, first);
    assert_eq!(Lexer::new("").next_token().unwrap(), Spanned::new(TokenKind::Eof, Span::new(0, 0)));
}

#[test]
fn unexpected_char_repeats() {
    let mut lexer = Lexer::new("1 $2");
    assert_eq!(lexer.next_token().unwrap().kind, TokenKind::Integer(1));
    let first = lexer.next_token().unwrap_err();
    let second = lexer.next_token().unwrap_err();
    assert_eq!(first, second);
    assert_eq!(first.kind, LexErrorKind::UnexpectedChar('$'));
    assert_eq!(first.span, Span::new(2, 3));
}

#[test]
fn unexpected_multibyte_char_spans_its_bytes() {
    let err = lex("1 + é").unwrap_err();
    assert_eq!(err.kind, LexErrorKind::UnexpectedChar('é'));
    assert_eq!(err.span, Span::new(4, 6));
    let err = lex("🦀").unwrap_err();
    assert_eq!(err.kind, LexErrorKind::UnexpectedChar('🦀'));
    assert_eq!(err.span, Span::new(0, 4));
}

#[test]
fn invalid_integer_advances_past_its_digits() {
    let mut lexer = Lexer::new("99999999999999999999 )");
    let err = lexer.next_token().unwrap_err();
    assert_eq!(err.kind, LexErrorKind::InvalidInteger("99999999999999999999"));
    assert_eq!(err.span, Span::new(0, 20));
    let next = lexer.next_token().unwrap();
    assert_eq!(next, Spanned::new(TokenKind::Punct(Punct::CloseParen), Span::new(21, 22)));
}

#[test]
fn error_texts() {
    assert_eq!(lex("(1 + a)").unwrap_err().to_string(), "lexical error at 5: unexpected character 'a'");
    assert_eq!(
        lex("(1 + 9223372036854775808)").unwrap_err().to_string(),
        "lexical error at 5: integer '9223372036854775808' doesn't fit in 64 bits"
    );
    assert_eq!(LexErrorKind::UnexpectedChar('#').message(), "unexpected character '#'");
}

#[test]
fn token_texts() {
    assert_eq!(Spanned::new(TokenKind::Eof, Span::new(17, 17)).to_string(), "<Eof, 17>");
    assert_eq!(Spanned::new(TokenKind::Integer(-45), Span::new(0, 3)).to_string(), "<Integer, '-45', 0>");
    assert_eq!(
        Spanned::new(TokenKind::Integer(i64::MIN), Span::new(2, 3)).to_string(),
        "<Integer, '-9223372036854775808', 2>"
    );
    assert_eq!(Spanned::new(TokenKind::Punct(Punct::Slash), Span::new(10, 11)).to_string(), "<Slash, '/', 10>");
    assert_eq!(TokenKind::Punct(Punct::Minus).describe(), "<Minus, '-'>");
    assert_eq!(TokenKind::Integer(0).describe(), "<Integer, '0'>");
    assert_eq!(TokenKind::Eof.describe(), "<Eof>");
}

#[test]
fn punct_chars() {
    let all = [
        (Punct::Plus, '+'),
        (Punct::Minus, '-'),
        (Punct::Star, '*'),
        (Punct::Slash, '/'),
        (Punct::OpenParen, '('),
        (Punct::CloseParen, ')'),
    ];
    for (punct, c) in all {
        assert_eq!(char::from(punct), c);
        assert_eq!(TokenKind::from(punct), TokenKind::Punct(punct));
    }
    assert_eq!(TokenKind::from(5i64), TokenKind::Integer(5));
}

#[test]
fn spans_merge_and_map() {
    let a = Span::new(3, 5);
    let b = Span::new(1, 4);
    assert_eq!(a.merge(b), Span::new(1, 5));
    assert_eq!(b.merge(a), Span::new(1, 5));
    assert_eq!(a.merge(a), a);
    let s = Spanned::new(20i64, a);
    let t = s.map(|x| x + 1);
    assert_eq!(t, Spanned::new(21i64, a));
}

#[test]
fn tokenize_reads_to_the_end_of_input() {
    let tokens = tokenize("(33 + (912 * 11))").unwrap();
    assert_eq!(tokens.len(), 10);
    assert_eq!(tokens[1].kind, TokenKind::Integer(33));
    assert_eq!(tokens[1].span, Span::new(1, 3));
    let last = tokens[tokens.len() - 1];
    assert_eq!(last.kind, TokenKind::Eof);
    assert_eq!(last.span, Span::new(17, 17));
    let texts: Vec<String> = tokens.iter().map(|t| t.to_string()).collect();
    assert_eq!(texts[0], "<OpenParen, '(', 0>");
    assert_eq!(texts[9], "<Eof, 17>");
}

#[test]
fn tokenize_of_nothing_is_the_end_of_input() {
    let tokens = tokenize("").unwrap();
    assert_eq!(tokens.len(), 1);
    assert_eq!(tokens[0].kind, TokenKind::Eof);
    assert_eq!(tokens[0].span, Span::new(0, 0));
    let blanks = tokenize(" \t\n\r ").unwrap();
    assert_eq!(blanks.len(), 1);
    assert_eq!(blanks[0].span, Span::new(5, 5));
}

#[test]
fn tokenize_stops_at_the_first_lexical_error() {
    let error = tokenize("1 + $ 2").unwrap_err();
    assert_eq!(error.kind, LexErrorKind::UnexpectedChar('$'));
    assert_eq!(error.span, Span::new(4, 5));
    let error = tokenize("(1 + 99999999999999999999)").unwrap_err();
    assert_eq!(error.kind, LexErrorKind::InvalidInteger("99999999999999999999"));
    assert_eq!(error.span, Span::new(5, 25));
    let error = tokenize("  é").unwrap_err();
    assert_eq!(error.kind, LexErrorKind::UnexpectedChar('é'));
    assert_eq!(error.span, Span::new(2, 4));
}

#[test]
fn a_run_covers_the_source_in_order() {
    let src = " (7 *  12)\n- 3 ";
    let tokens = tokenize(src).unwrap();
    let expected: [(usize, usize); 8] =
        [(1, 2), (2, 3), (4, 5), (7, 9), (9, 10), (11, 12), (13, 14), (15, 15)];
    assert_eq!(tokens.len(), expected.len());
    assert!(tokens.len() - 1 <= src.len());
    let bytes = src.as_bytes();
    let mut previous_end = 0usize;
    for (i, (token, (start, end))) in tokens.iter().zip(expected).enumerate() {
        assert_eq!(token.span, Span::new(start, end));
        assert!(previous_end <= start);
        assert!(bytes[previous_end..start].iter().all(|b| b.is_ascii_whitespace()));
        if i + 1 < tokens.len() {
            assert!(start < end);
            assert_ne!(token.kind, TokenKind::Eof);
        } else {
            assert_eq!(token.kind, TokenKind::Eof);
            assert_eq!((start, end), (src.len(), src.len()));
        }
        previous_end = end;
    }
}

#[test]
fn integers_take_the_longest_digit_run() {
    let tokens = tokenize("12(3").unwrap();
    assert_eq!(tokens[0].kind, TokenKind::Integer(12));
    assert_eq!(tokens[0].span, Span::new(0, 2));
    assert_eq!(tokens[1].kind, TokenKind::Punct(Punct::OpenParen));
    assert_eq!(tokens[1].span, Span::new(2, 3));
    assert_eq!(tokens[2].kind, TokenKind::Integer(3));
}

#[test]
fn end_of_input_repeats_after_a_whole_run() {
    let mut lexer = Lexer::new("5 ");
    assert_eq!(lexer.next_token().unwrap().kind, TokenKind::Integer(5));
    let eof = lexer.next_token().unwrap();
    assert_eq!(eof.kind, TokenKind::Eof);
    assert_eq!(eof.span, Span::new(2, 2));
    assert_eq!(lexer.next_token().unwrap(), eof);
}
