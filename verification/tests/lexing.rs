use jtl::lex::{Lexer, TToken};

fn scan(source: &str) -> Result<Lexer, String> {
    let mut lex = Lexer::from_source(source);
    lex.scan_tokens()?;
    Ok(lex)
}

#[test]
fn basic_lex() {
    let mut lex = Lexer::from_source(
        "Hello, {

ToPlacement|guild.count}",
    );
    let res = lex.scan_tokens();
    assert!(res.is_ok());
    let kinds: Vec<&TToken> = lex.tokens.iter().map(|t| &t.token).collect();
    assert_eq!(kinds[0], &TToken::Text("Hello, ".to_string()));
    assert_eq!(kinds[1], &TToken::OpenTag);
    assert_eq!(kinds[2], &TToken::WS);
    assert_eq!(kinds[3], &TToken::WS);
    assert_eq!(kinds[4], &TToken::Ident("ToPlacement".to_string()));
    assert_eq!(kinds[5], &TToken::ArgumentInitalizer);
    assert_eq!(kinds[6], &TToken::Ident("guild".to_string()));
    assert_eq!(kinds[7], &TToken::Dot);
    assert_eq!(kinds[8], &TToken::Ident("count".to_string()));
    assert_eq!(kinds[9], &TToken::CloseTag);
    assert_eq!(kinds.len(), 10);
}

// Tag-free text is a single Text token spanning the whole input.
#[test]
fn text_only_single_token() {
    let lex = scan("hello world!").unwrap();
    assert_eq!(lex.tokens.len(), 1);
    assert_eq!(lex.tokens[0].token, TToken::Text("hello world!".to_string()));
    assert_eq!(lex.tokens[0].start.column, 0);
    assert_eq!(lex.tokens[0].start.line, 0);
    assert_eq!(lex.tokens[0].end.column, 0);
    assert_eq!(lex.tokens[0].end.line, 12);
}

#[test]
fn integer_token_value() {
    let lex = scan("{42}").unwrap();
    assert_eq!(lex.tokens[1].token, TToken::Int(42));
}

#[test]
fn integer_overflow_fails() {
    assert!(scan("{99999999999}").is_err());
}

#[test]
fn unterminated_string_fails() {
    assert!(scan("{\"abc").is_err());
}

#[test]
fn unexpected_character_fails() {
    assert!(scan("{@}").is_err());
}

#[test]
fn quoted_string_content() {
    let lex = scan("{\"hi there\"}").unwrap();
    assert_eq!(lex.tokens[1].token, TToken::String("hi there".to_string()));
}

#[test]
fn newline_resets_column() {
    let lex = scan("a\nb").unwrap();
    // Text("a"), WS for the line break, Text("b") on row 1
    assert_eq!(lex.tokens.len(), 3);
    assert_eq!(lex.tokens[2].token, TToken::Text("b".to_string()));
    assert_eq!(lex.tokens[2].start.column, 1);
    assert_eq!(lex.tokens[2].start.line, 0);
}

#[test]
fn largest_integer_fits() {
    let lex = scan("{4294967295}").unwrap();
    assert_eq!(lex.tokens[1].token, TToken::Int(4294967295));
    assert!(scan("{4294967296}").is_err());
}

#[test]
fn to_pointer_sums_coordinates() {
    let lex = scan("ab").unwrap();
    assert_eq!(lex.tokens[0].end.to_pointer(), 2);
}
