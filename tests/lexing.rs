use nfc_lexer::{Context, ErrorKind, LexError, Lexer, StringKind, Token};

fn lex_all(src: &str, cx: &mut Context) -> Result<Vec<Token>, LexError> {
    let mut lx = Lexer::new(src);
    let mut out = Vec::new();
    loop {
        let t = lx.next_token(cx)?;
        out.push(t);
        if t == Token::Eof {
            return Ok(out);
        }
    }
}

fn first_error(src: &str) -> LexError {
    let mut cx = Context::new();
    lex_all(src, &mut cx).unwrap_err()
}

#[test]
fn lexes_a_function_definition() {
    let mut cx = Context::new();
    let toks = lex_all("func hello() -> Int32 { 0 }", &mut cx).unwrap();
    let hello = cx.get_ident("hello").unwrap();
    let int32 = cx.get_ident("Int32").unwrap();
    assert_eq!(
        toks,
        vec![
            Token::KeywordFunc,
            Token::Identifier(hello),
            Token::OpenParen,
            Token::CloseParen,
            Token::Arrow,
            Token::Identifier(int32),
            Token::OpenBrace,
            Token::IntegerLiteral(0),
            Token::CloseBrace,
            Token::Eof,
        ]
    );
}

#[test]
fn numeric_radix_prefixes() {
    let mut cx = Context::new();
    assert_eq!(lex_all("0x1A", &mut cx).unwrap()[0], Token::IntegerLiteral(26));
    assert_eq!(lex_all("0b101", &mut cx).unwrap()[0], Token::IntegerLiteral(5));
    assert_eq!(lex_all("07", &mut cx).unwrap()[0], Token::IntegerLiteral(7));
    assert_eq!(lex_all("0o17", &mut cx).unwrap()[0], Token::IntegerLiteral(15));
    assert_eq!(lex_all("0D99", &mut cx).unwrap()[0], Token::IntegerLiteral(99));
    assert_eq!(lex_all("0Xff", &mut cx).unwrap()[0], Token::IntegerLiteral(255));
    assert_eq!(lex_all("0", &mut cx).unwrap(), vec![Token::IntegerLiteral(0), Token::Eof]);
    assert_eq!(lex_all("1234567", &mut cx).unwrap()[0], Token::IntegerLiteral(1234567));
}

#[test]
fn largest_integer_literal() {
    let mut cx = Context::new();
    assert_eq!(lex_all("18446744073709551615", &mut cx).unwrap()[0], Token::IntegerLiteral(u64::MAX));
    assert_eq!(lex_all("0xffffffffffffffff", &mut cx).unwrap()[0], Token::IntegerLiteral(u64::MAX));
    assert_eq!(
        first_error("18446744073709551616"),
        LexError { kind: ErrorKind::InvalidNumericLiteral, start: 0, end: 20 }
    );
}

#[test]
fn radix_prefix_needs_a_digit() {
    assert_eq!(first_error("0x"), LexError { kind: ErrorKind::InvalidNumericLiteral, start: 0, end: 2 });
    assert_eq!(first_error("0b2"), LexError { kind: ErrorKind::InvalidNumericLiteral, start: 0, end: 2 });
    assert_eq!(first_error("  0x g"), LexError { kind: ErrorKind::InvalidNumericLiteral, start: 2, end: 4 });
}

#[test]
fn nested_comments_are_skipped() {
    let mut cx = Context::new();
    let toks = lex_all("[% outer [% inner %] still-outer %]X", &mut cx).unwrap();
    let x = cx.get_ident("X").unwrap();
    assert_eq!(toks, vec![Token::Identifier(x), Token::Eof]);
}

#[test]
fn unterminated_comment() {
    assert_eq!(
        first_error("a [% one [% two %] "),
        LexError { kind: ErrorKind::UnterminatedComment, start: 2, end: 19 }
    );
}

#[test]
fn unterminated_string() {
    assert_eq!(first_error("\"abc"), LexError { kind: ErrorKind::UnterminatedString, start: 0, end: 4 });
    assert_eq!(first_error("\""), LexError { kind: ErrorKind::UnterminatedString, start: 0, end: 1 });
}

#[test]
fn numeral_next_to_identifier() {
    assert_eq!(
        first_error("5x"),
        LexError { kind: ErrorKind::AmbiguousNumeralIdentifierAdjacency, start: 0, end: 2 }
    );
    assert_eq!(
        first_error("0x1g"),
        LexError { kind: ErrorKind::AmbiguousNumeralIdentifierAdjacency, start: 0, end: 4 }
    );
    assert_eq!(
        first_error("12-"),
        LexError { kind: ErrorKind::AmbiguousNumeralIdentifierAdjacency, start: 0, end: 3 }
    );
}

#[test]
fn string_literals_and_prefixes() {
    let mut cx = Context::new();
    let toks = lex_all("\"hi there\" c\"native\" C\"\"", &mut cx).unwrap();
    match (toks[0], toks[1], toks[2]) {
        (
            Token::StringLiteral(StringKind::Normal, a),
            Token::StringLiteral(StringKind::CString, b),
            Token::StringLiteral(StringKind::CString, c),
        ) => {
            assert_eq!(cx.literal(a), "hi there");
            assert_eq!(cx.literal(b), "native");
            assert_eq!(cx.literal(c), "");
        }
        other => panic!("unexpected tokens {:?}", other),
    }
    assert_eq!(toks[3], Token::Eof);
    assert_eq!(cx.ident_count(), 0);
}

#[test]
fn unknown_string_prefix() {
    assert_eq!(
        first_error("abc\"x\""),
        LexError { kind: ErrorKind::UnrecognizedStringPrefix, start: 0, end: 3 }
    );
}

#[test]
fn escapes_are_rejected() {
    assert_eq!(first_error("\"a\\n\""), LexError { kind: ErrorKind::UnsupportedEscape, start: 2, end: 3 });
}

#[test]
fn unrecognized_characters() {
    assert_eq!(first_error("a ] b"), LexError { kind: ErrorKind::UnrecognizedCharacter, start: 2, end: 3 });
    assert_eq!(first_error("[x"), LexError { kind: ErrorKind::UnrecognizedCharacter, start: 0, end: 1 });
    assert_eq!(first_error("+"), LexError { kind: ErrorKind::UnrecognizedCharacter, start: 0, end: 1 });
}

#[test]
fn keywords_and_punctuation() {
    let mut cx = Context::new();
    let toks = lex_all("extern func _ : ; ( ) { }", &mut cx).unwrap();
    assert_eq!(
        toks,
        vec![
            Token::KeywordExtern,
            Token::KeywordFunc,
            Token::KeywordUnderscore,
            Token::Colon,
            Token::Semicolon,
            Token::OpenParen,
            Token::CloseParen,
            Token::OpenBrace,
            Token::CloseBrace,
            Token::Eof,
        ]
    );
    assert_eq!(cx.ident_count(), 3);
}

#[test]
fn operators_are_interned() {
    let mut cx = Context::new();
    let toks = lex_all("- --> -> -", &mut cx).unwrap();
    let minus = cx.get_ident("-").unwrap();
    let long = cx.get_ident("-->").unwrap();
    assert_eq!(toks, vec![Token::Operator(minus), Token::Operator(long), Token::Arrow, Token::Operator(minus), Token::Eof]);
}

#[test]
fn kebab_case_and_primes_in_identifiers() {
    let mut cx = Context::new();
    let toks = lex_all("foo-bar x' _tmp", &mut cx).unwrap();
    let a = cx.get_ident("foo-bar").unwrap();
    let b = cx.get_ident("x'").unwrap();
    let c = cx.get_ident("_tmp").unwrap();
    assert_eq!(toks, vec![Token::Identifier(a), Token::Identifier(b), Token::Identifier(c), Token::Eof]);
}

#[test]
fn unicode_identifiers_are_normalized() {
    let mut cx = Context::new();
    let toks = lex_all("caf\u{00E9} cafe\u{0301}", &mut cx).unwrap();
    assert_eq!(toks[0], toks[1]);
    match toks[0] {
        Token::Identifier(h) => assert_eq!(cx.ident(h).as_str(), "caf\u{00E9}"),
        other => panic!("unexpected token {:?}", other),
    }
}

#[test]
fn unicode_whitespace_is_skipped() {
    let mut cx = Context::new();
    let toks = lex_all("\u{3000}\t\n\u{2028}7 \u{A0}", &mut cx).unwrap();
    assert_eq!(toks, vec![Token::IntegerLiteral(7), Token::Eof]);
}

#[test]
fn empty_source() {
    let mut cx = Context::new();
    assert_eq!(lex_all("", &mut cx).unwrap(), vec![Token::Eof]);
    assert_eq!(lex_all("  [% only a comment %]  ", &mut cx).unwrap(), vec![Token::Eof]);
}

#[test]
fn eof_repeats_and_errors_do_not_advance() {
    let mut cx = Context::new();
    let mut lx = Lexer::new("a");
    assert!(matches!(lx.next_token(&mut cx), Ok(Token::Identifier(_))));
    assert_eq!(lx.offset(), 1);
    assert_eq!(lx.next_token(&mut cx), Ok(Token::Eof));
    assert_eq!(lx.next_token(&mut cx), Ok(Token::Eof));

    let mut bad = Lexer::new("  %");
    let e = bad.next_token(&mut cx).unwrap_err();
    assert_eq!(e.kind, ErrorKind::UnrecognizedCharacter);
    assert_eq!(bad.offset(), 0);
}
