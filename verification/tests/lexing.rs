use tinylang::error::LexError;
use tinylang::lexer::{lex, LexerContext, Token};

fn tokens_of(code: &str) -> Result<Vec<Token>, LexError> {
    lex(&mut LexerContext::new(String::from(code)))
}

#[test]
fn empty_source_has_no_tokens() {
    assert_eq!(tokens_of(""), Ok(vec![]));
    assert_eq!(tokens_of(" \t\n \n"), Ok(vec![]));
}

#[test]
fn keywords_are_recognised() {
    assert_eq!(
        tokens_of("print exit if while String Int Bool Any true false"),
        Ok(vec![
            Token::Print,
            Token::Exit,
            Token::If,
            Token::While,
            Token::TypeString,
            Token::TypeInt,
            Token::TypeBool,
            Token::TypeAny,
            Token::True,
            Token::False,
        ])
    );
}

#[test]
fn words_that_are_no_keywords_are_names() {
    assert_eq!(
        tokens_of("printer Print x1 whil"),
        Ok(vec![
            Token::Ident(String::from("printer")),
            Token::Ident(String::from("Print")),
            Token::Ident(String::from("x1")),
            Token::Ident(String::from("whil")),
        ])
    );
}

#[test]
fn a_name_runs_over_letters_and_digits() {
    assert_eq!(
        tokens_of("abc123+d4"),
        Ok(vec![
            Token::Ident(String::from("abc123")),
            Token::Plus,
            Token::Ident(String::from("d4")),
        ])
    );
}

#[test]
fn a_number_ends_where_its_digits_end() {
    assert_eq!(
        tokens_of("12ab"),
        Ok(vec![Token::IntLit(12), Token::Ident(String::from("ab"))])
    );
    assert_eq!(tokens_of("007"), Ok(vec![Token::IntLit(7)]));
    assert_eq!(tokens_of("0"), Ok(vec![Token::IntLit(0)]));
}

#[test]
fn punctuation_maps_byte_by_byte() {
    assert_eq!(
        tokens_of("(){}:=+-*/;!"),
        Ok(vec![
            Token::OpenParen,
            Token::CloseParen,
            Token::OpenBrace,
            Token::CloseBrace,
            Token::Colon,
            Token::Equals,
            Token::Plus,
            Token::Dash,
            Token::Star,
            Token::Slash,
            Token::Semicolon,
            Token::Bang,
        ])
    );
}

#[test]
fn string_literal_keeps_its_text() {
    assert_eq!(
        tokens_of("\"a b\tc\" \"\""),
        Ok(vec![
            Token::StringLit(String::from("a b\tc")),
            Token::StringLit(String::new()),
        ])
    );
}

#[test]
fn string_literal_may_hold_any_text() {
    assert_eq!(
        tokens_of("\"h\u{e9}llo \u{4e16}\u{754c} \u{1f600} print 12 {\""),
        Ok(vec![Token::StringLit(String::from(
            "h\u{e9}llo \u{4e16}\u{754c} \u{1f600} print 12 {"
        ))])
    );
}

#[test]
fn string_literal_has_no_escapes() {
    assert_eq!(
        tokens_of("\"a\\\" b"),
        Ok(vec![
            Token::StringLit(String::from("a\\")),
            Token::Ident(String::from("b")),
        ])
    );
}

#[test]
fn largest_integer_literal_is_read() {
    assert_eq!(
        tokens_of("9223372036854775807"),
        Ok(vec![Token::IntLit(i64::MAX)])
    );
}

#[test]
fn integer_literal_out_of_range_is_an_error() {
    assert_eq!(tokens_of("9223372036854775808"), Err(LexError::InvalidInt));
    assert_eq!(
        tokens_of("x := 99999999999999999999999999"),
        Err(LexError::InvalidInt)
    );
}

#[test]
fn unterminated_string_is_an_error() {
    assert_eq!(tokens_of("print \"abc"), Err(LexError::UnexpectedEof));
    assert_eq!(tokens_of("\""), Err(LexError::UnexpectedEof));
}

#[test]
fn unknown_byte_is_an_error_that_names_it() {
    assert_eq!(tokens_of("x := 1 # 2"), Err(LexError::InvalidToken(b'#')));
    assert_eq!(tokens_of("a\rb"), Err(LexError::InvalidToken(b'\r')));
    assert_eq!(tokens_of("\u{e9}"), Err(LexError::InvalidToken(0xc3)));
}

#[test]
fn first_error_wins() {
    assert_eq!(tokens_of("# \"abc"), Err(LexError::InvalidToken(b'#')));
    assert_eq!(tokens_of("\"abc #"), Err(LexError::UnexpectedEof));
}

#[test]
fn whitespace_is_never_a_token() {
    let tokens = tokens_of(" x \n := \t 5 ").unwrap();
    assert_eq!(
        tokens,
        vec![
            Token::Ident(String::from("x")),
            Token::Colon,
            Token::Equals,
            Token::IntLit(5),
        ]
    );
    assert!(tokens.iter().all(|t| *t != Token::Blank));
}

#[test]
fn cursor_next_walks_the_bytes() {
    let mut ctx = LexerContext::new(String::from("ab"));
    assert_eq!(ctx.peek(0), Ok(b'a'));
    assert_eq!(ctx.peek(1), Ok(b'b'));
    assert_eq!(ctx.peek(2), Err(LexError::UnexpectedEof));
    assert_eq!(ctx.peek(usize::MAX), Err(LexError::UnexpectedEof));
    assert_eq!(ctx.next(), Ok(b'a'));
    assert_eq!(ctx.peek(0), Ok(b'b'));
    assert_eq!(ctx.next(), Ok(b'b'));
    assert_eq!(ctx.next(), Err(LexError::UnexpectedEof));
    assert_eq!(ctx.peek(0), Err(LexError::UnexpectedEof));
}

#[test]
fn lexing_starts_at_the_cursor() {
    let mut ctx = LexerContext::new(String::from("# x"));
    assert_eq!(ctx.next(), Ok(b'#'));
    assert_eq!(lex(&mut ctx), Ok(vec![Token::Ident(String::from("x"))]));
    assert_eq!(lex(&mut ctx), Ok(vec![]));
}

#[test]
fn tokens_compare_by_value() {
    assert!(Token::Ident(String::from("a")).same(&Token::Ident(String::from("a"))));
    assert!(!Token::Ident(String::from("a")).same(&Token::Ident(String::from("b"))));
    assert!(!Token::Ident(String::from("a")).same(&Token::StringLit(String::from("a"))));
    assert!(Token::IntLit(3).same(&Token::IntLit(3)));
    assert!(!Token::IntLit(3).same(&Token::IntLit(4)));
    assert!(Token::Plus.same(&Token::Plus));
    assert!(!Token::Plus.same(&Token::Dash));
    assert_eq!(Token::StringLit(String::from("s")).clone(), Token::StringLit(String::from("s")));
    assert_eq!(Token::default(), Token::Blank);
}
