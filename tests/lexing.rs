use rtoml::error::TomlError;
use rtoml::lexer::{lex, Token};

fn lit(s: &str) -> Token {
    Token::Literal(s.chars().collect())
}

#[test]
fn basic_parsing() {
    let str = "hello world";
    assert_eq!((lit(str), str.len()), lex(str.as_bytes()).unwrap()[0])
}

#[test]
fn basic_special_chars() {
    let str = "# hello world";
    assert_eq!(
        [(Token::Hash, 1), (lit(" hello world"), " hello world".len())].to_vec(),
        lex(str.as_bytes()).unwrap()
    )
}

#[test]
fn lex_key_value_line() {
    let tokens = lex(b"value = 1").unwrap();
    assert_eq!(
        vec![(lit("value "), 6), (Token::Eq, 1), (lit(" 1"), 2)],
        tokens
    );
}

#[test]
fn lex_crlf_is_one_line_break() {
    let tokens = lex(b"a\r\nb\rc").unwrap();
    assert_eq!(
        vec![
            (lit("a"), 1),
            (Token::LineBreak, 2),
            (lit("b"), 1),
            (Token::CarriageReturn, 1),
            (lit("c"), 1)
        ],
        tokens
    );
}

#[test]
fn lex_every_punctuation_byte() {
    let tokens = lex(b"=[]{}#,'\"\n\\").unwrap();
    let kinds: Vec<Token> = tokens.into_iter().map(|(t, _)| t).collect();
    assert_eq!(
        vec![
            Token::Eq,
            Token::Sbo,
            Token::Sbc,
            Token::Cbo,
            Token::Cbc,
            Token::Hash,
            Token::Comma,
            Token::SingleQuote,
            Token::DoubleQuote,
            Token::LineBreak,
            Token::BackSlash
        ],
        kinds
    );
}

#[test]
fn lex_multibyte_literal() {
    let tokens = lex("é = 'ü'".as_bytes()).unwrap();
    assert_eq!(tokens[0], (lit("é "), 3));
    assert_eq!(tokens[4], (lit("ü"), 2));
}

#[test]
fn lex_rejects_invalid_utf8() {
    assert_eq!(lex(&[b'a', 0xff, b'=']), Err(TomlError::Utf8Error));
}

#[test]
fn lex_empty_input() {
    assert_eq!(lex(b"").unwrap(), vec![]);
}

#[test]
fn array_simple_nested_int_arr() {
    let str = b"6,[1,2,4]]";
    let lexed = lex(str).unwrap();
    assert_eq!(lexed.len(), 10);
    assert_eq!(lexed[2], (Token::Sbo, 1));
}

#[test]
fn token_predicates() {
    assert!(lit(" key_1-a ").is_valid_table_name_or_key());
    assert!(!lit("a.b").is_valid_table_name_or_key());
    assert!(!lit("   ").is_valid_table_name_or_key());
    assert!(!Token::Eq.is_valid_table_name_or_key());
    assert!(lit(" \t ").is_space());
    assert!(!lit(" x ").is_space());
    assert!(lit("x").is_literal());
    assert!(!Token::Comma.is_literal());
    assert!(Token::Sbo.is_sbo());
    assert!(!Token::Sbc.is_sbo());
    assert_eq!(Token::Cbc.as_char(), '}');
    assert_eq!(
        lit("  name ").as_key(),
        rtoml::TomlKey::Literal("name".to_string())
    );
    assert!(Token::Hash.as_key().is_none());
}
