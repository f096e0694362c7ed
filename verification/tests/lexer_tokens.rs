//! The tokenizer: single tokens, their raw text, and what remains of
//! the input behind them.

use yajlish::Lexed;
use yajlish::TokenType;
use yajlish::parse;

/// Recognize one token and hand back the unconsumed remainder with it.
fn lex(input: &[u8]) -> (&[u8], TokenType) {
    match parse(input) {
        Lexed::Token(tok, consumed) => (&input[consumed..], tok),
        other => panic!("expected a token, found {:?}", other),
    }
}

#[test]
fn test_parse() {
    assert_eq!(lex("[]".as_bytes()), ("]".as_bytes(), TokenType::LeftBracket));
    assert_eq!(lex("]".as_bytes()), ("".as_bytes(), TokenType::RightBracket));

    assert_eq!(
        lex("[\n[]\n]".as_bytes()),
        ("[]\n]".as_bytes(), TokenType::LeftBracket)
    );

    assert_eq!(
        lex("4".as_bytes()),
        ("".as_bytes(), TokenType::Number("4".as_bytes().to_vec()))
    );

    assert_eq!(
        lex("4.56e-8".as_bytes()),
        (
            "".as_bytes(),
            TokenType::Number("4.56e-8".as_bytes().to_vec())
        )
    );

    assert_eq!(
        lex("107]".as_bytes()),
        ("]".as_bytes(), TokenType::Number("107".as_bytes().to_vec()))
    );

    assert_eq!(
        lex("107E2".as_bytes()),
        (
            "".as_bytes(),
            TokenType::Number("107E2".as_bytes().to_vec())
        )
    );
}

#[test]
fn test_parse_string_success() {
    let test_string = "\"\"";

    test_parse_string(test_string);

    let test_string = "\"a\"";

    test_parse_string(test_string);

    let test_string = "\"\\u0000\"";

    test_parse_string(test_string);
}

fn test_parse_string(test_string: &str) {
    let (rest, tok) = lex(test_string.as_bytes());

    assert_eq!(rest, "".as_bytes());
    assert_eq!(tok, TokenType::String(test_string.as_bytes().to_vec()));
}

#[test]
fn test_digit_zero_or_multiple() {
    assert_eq!(
        lex("0".as_bytes()),
        ("".as_bytes(), TokenType::Number("0".as_bytes().to_vec()))
    );

    assert_eq!(
        lex("4".as_bytes()),
        ("".as_bytes(), TokenType::Number("4".as_bytes().to_vec()))
    );
}

#[test]
fn test_most_parsing() {
    assert_eq!(
        lex("\"45\"".as_bytes()),
        ("".as_bytes(), TokenType::String("\"45\"".as_bytes().to_vec()))
    );

    assert_eq!(
        lex("\"a\" ,".as_bytes()),
        (",".as_bytes(), TokenType::String("\"a\"".as_bytes().to_vec()))
    );
}

#[test]
fn test_decimal_and_exp() {
    assert_eq!(
        lex("0.456e-8".as_bytes()),
        (
            "".as_bytes(),
            TokenType::Number("0.456e-8".as_bytes().to_vec())
        )
    );
}

#[test]
fn test_incomplete_tokens() {
    assert!(matches!(parse(b"tru"), Lexed::Incomplete));
    assert!(matches!(parse(b"\"unterminated"), Lexed::Incomplete));
    assert!(matches!(parse(b"-"), Lexed::Incomplete));
    assert!(matches!(parse(b"4."), Lexed::Incomplete));
    assert!(matches!(parse(b"4e+"), Lexed::Incomplete));
    assert!(matches!(parse(b"\"ab\\u00"), Lexed::Incomplete));
}

#[test]
fn test_invalid_tokens() {
    assert!(matches!(parse(b"#"), Lexed::Invalid));
    assert!(matches!(parse(b"\"bad \x01 control\""), Lexed::Invalid));
    assert!(matches!(parse(b"\"bad \\x escape\""), Lexed::Invalid));
    assert!(matches!(parse(b"\"bad \\uZZZZ hex\""), Lexed::Invalid));
    assert!(matches!(parse(b"-x"), Lexed::Invalid));
    assert!(matches!(parse(b"4.x"), Lexed::Invalid));
}

#[test]
fn test_whitespace_only_ends() {
    assert!(matches!(parse(b""), Lexed::End));
    assert!(matches!(parse(b" \t\r\n"), Lexed::End));
}

#[test]
fn test_escapes_stay_raw() {
    assert_eq!(
        lex(b"\"a\\n\\\"b\\\\\""),
        (
            "".as_bytes(),
            TokenType::String(b"\"a\\n\\\"b\\\\\"".to_vec())
        )
    );
    assert_eq!(
        lex(b"\"\\u0041\""),
        ("".as_bytes(), TokenType::String(b"\"\\u0041\"".to_vec()))
    );
}
