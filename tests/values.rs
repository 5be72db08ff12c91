use rtoml::cursor::{RIter, RSlice};
use rtoml::error::TomlError;
use rtoml::lexer::{lex, Token, TokenSized};
use rtoml::string::parse_string;
use rtoml::value::{parse_array, parse_inline_table, parse_value};
use rtoml::{DateTime, DateTimeValue, DateValue, Float, TimeValue, TomlKey, TomlValue};

fn get_tokens_from_literal(literal: &str) -> Vec<TokenSized> {
    vec![(Token::Literal(literal.chars().collect()), literal.len())]
}

fn value_of(literal: &str) -> Result<TomlValue, TomlError> {
    let tokens = get_tokens_from_literal(literal);
    parse_value(RIter::new(&tokens).as_slice()).map(|p| p.value)
}

fn value_of_text(text: &str) -> Result<TomlValue, TomlError> {
    let tokens = lex(text.as_bytes()).unwrap();
    parse_value(RIter::new(&tokens).as_slice()).map(|p| p.value)
}

fn float_of(value: &TomlValue) -> f64 {
    match value.as_floating().unwrap() {
        Float::Infinite { negative: false } => f64::INFINITY,
        Float::Infinite { negative: true } => f64::NEG_INFINITY,
        Float::NaN { .. } => f64::NAN,
        Float::Decimal(text) => text.parse().unwrap(),
    }
}

fn string(s: &str) -> TomlValue {
    TomlValue::String(s.to_string())
}

fn key(s: &str) -> TomlKey {
    TomlKey::from(s)
}

fn date_time(d: speedate::DateTime) -> TomlValue {
    TomlValue::DateTime(DateTime::DateTime(DateTimeValue {
        date: date_value(d.date),
        time: time_value(d.time),
    }))
}

fn date_value(d: speedate::Date) -> DateValue {
    DateValue { year: d.year, month: d.month, day: d.day }
}

fn time_value(t: speedate::Time) -> TimeValue {
    TimeValue {
        hour: t.hour,
        minute: t.minute,
        second: t.second,
        microsecond: t.microsecond,
        tz_offset: t.tz_offset,
    }
}

#[test]
fn integers() {
    // numbers with underscore
    assert_eq!(value_of("1_2_3_4").unwrap(), TomlValue::Int(1234));
    // numbers with underscore without positive sign
    assert_eq!(value_of("+1_2_3_4").unwrap(), TomlValue::Int(1234));
    // positive numbers
    assert_eq!(value_of("+1").unwrap(), TomlValue::Int(1));
    // positive numbers without positive sign
    assert_eq!(value_of("1").unwrap(), TomlValue::Int(1));
    // negative numbers
    assert_eq!(value_of("-1").unwrap(), TomlValue::Int(-1));
}

#[test]
fn integers_with_radix_prefix() {
    assert_eq!(value_of("0x1F").unwrap(), TomlValue::Int(31));
    assert_eq!(value_of("0b101").unwrap(), TomlValue::Int(5));
    assert_eq!(value_of("0o17").unwrap(), TomlValue::Int(15));
    assert_eq!(value_of("0xff").unwrap(), TomlValue::Int(255));
}

#[test]
fn integer_limits() {
    assert_eq!(value_of("9223372036854775807").unwrap(), TomlValue::Int(i64::MAX));
    assert_eq!(value_of("-9223372036854775808").unwrap(), TomlValue::Int(i64::MIN));
    // one past the largest integer reads as a float
    let big = value_of("9223372036854775808").unwrap();
    assert_eq!(float_of(&big), 9223372036854775808.0);
    assert!(matches!(value_of("0x"), Err(TomlError::CannotParseValue(_))));
}

#[test]
fn floats() {
    // floats with a separator that does not stand between two digits
    assert!(matches!(
        value_of("1_2_3_4.1_2_3_"),
        Err(TomlError::CannotParseValue(_))
    ));
    // floats with underscore
    assert_eq!(float_of(&value_of("1_2_3_4.1_2_3").unwrap()), 1234.123);
    // positive floats
    assert_eq!(float_of(&value_of("+1.102").unwrap()), 1.102);
    // positive floats without positive sign
    assert_eq!(float_of(&value_of("1.102").unwrap()), 1.102);
    // negative floats
    assert_eq!(float_of(&value_of("-1.102").unwrap()), -1.102);
    // nan positive
    assert!(float_of(&value_of("+nan").unwrap()).is_nan());
    // nan positive without positive sign
    assert!(float_of(&value_of("nan").unwrap()).is_nan());
    // nan negative
    assert!(float_of(&value_of("-nan").unwrap()).is_nan());
    // inf positive
    assert_eq!(float_of(&value_of("+inf").unwrap()), f64::INFINITY);
    // inf positive without positive sign
    assert_eq!(float_of(&value_of("inf").unwrap()), f64::INFINITY);
    // inf negative
    assert_eq!(float_of(&value_of("-inf").unwrap()), f64::NEG_INFINITY);
}

#[test]
fn float_forms() {
    assert_eq!(
        value_of("6.02e23").unwrap(),
        TomlValue::Float(Float::Decimal("6.02e23".to_string()))
    );
    assert_eq!(float_of(&value_of("1E-2").unwrap()), 0.01);
    assert_eq!(float_of(&value_of("-0.5").unwrap()), -0.5);
    assert!(matches!(value_of("1.2.3"), Err(TomlError::CannotParseValue(_))));
    assert!(matches!(value_of("1e"), Err(TomlError::CannotParseValue(_))));
    assert!(matches!(value_of("+"), Err(TomlError::CannotParseValue(_))));
}

#[test]
fn booleans_and_words() {
    assert_eq!(value_of(" true ").unwrap(), TomlValue::Boolean(true));
    assert_eq!(value_of("false").unwrap(), TomlValue::Boolean(false));
    assert!(matches!(value_of("True"), Err(TomlError::CannotParseValue(_))));
    assert!(matches!(value_of("hello"), Err(TomlError::CannotParseValue(_))));
}

#[test]
fn datetime() {
    //  RFC 3339
    let first_date = "1979-05-27T07:32:00Z";
    let second_date = "1979-05-27T00:32:00-07:00";
    let third_date = "1979-05-27T00:32:00.999999-07:00";
    let forth_date = "1979-05-27 07:32:00Z";
    let fifth_date = "1979-05-27T07:32:00";
    let six_date = "1979-05-27T00:32:00.999999";
    // Date
    let seventh_date = "1979-05-27";
    // Time
    let first_time = "07:32:00";
    let second_time = "00:32:00.999999";

    for text in [first_date, second_date, third_date, forth_date, fifth_date, six_date] {
        assert_eq!(
            value_of(text).unwrap(),
            date_time(speedate::DateTime::parse_str(text).unwrap())
        );
    }
    assert_eq!(
        value_of(seventh_date).unwrap(),
        TomlValue::DateTime(DateTime::Date(date_value(
            speedate::Date::parse_str(seventh_date).unwrap()
        )))
    );
    assert_eq!(
        value_of(first_time).unwrap(),
        TomlValue::DateTime(DateTime::Time(time_value(
            speedate::Time::parse_str(first_time).unwrap()
        )))
    );
    assert_eq!(
        value_of(second_time).unwrap(),
        TomlValue::DateTime(DateTime::Time(time_value(
            speedate::Time::parse_str(second_time).unwrap()
        )))
    );
}

#[test]
fn datetime_fields() {
    let v = value_of("1979-05-27T00:32:00-07:00").unwrap();
    let dt = *v.as_datetime().unwrap().as_datetime().unwrap();
    assert_eq!(dt.date, DateValue { year: 1979, month: 5, day: 27 });
    assert_eq!(dt.time.hour, 0);
    assert_eq!(dt.time.minute, 32);
    assert_eq!(dt.time.tz_offset, Some(-7 * 3600));
    let d = value_of("2000-02-29").unwrap();
    assert_eq!(
        *d.as_datetime().unwrap().as_date().unwrap(),
        DateValue { year: 2000, month: 2, day: 29 }
    );
    assert!(matches!(value_of("1979-13-45"), Err(TomlError::CannotParseValue(_))));
}

#[test]
fn string_basic_string() {
    let lexed = &lex(br#"""hello""""#).unwrap();
    let parsed = parse_string(RIter::new(lexed).as_slice(), Token::DoubleQuote);
    assert_eq!(string("hello"), parsed.unwrap().value);
}

#[test]
fn strings_of_each_quote() {
    assert_eq!(value_of_text(r#""""hello""""#).unwrap(), string("hello"));
    assert_eq!(value_of_text(r#""a = [b], {c} # d""#).unwrap(), string("a = [b], {c} # d"));
    assert_eq!(value_of_text(r"'C:\path\n'").unwrap(), string(r"C:\path\n"));
    assert_eq!(value_of_text("'''\nline one\nline 'two'\n'''").unwrap(), string("line one\nline 'two'\n"));
    assert_eq!(value_of_text(r#""""a ""b"" c""""#).unwrap(), string(r#"a ""b"" c"#));
    assert_eq!(value_of_text(r#""""#).unwrap(), string(""));
    assert_eq!(value_of_text("''").unwrap(), string(""));
}

#[test]
fn string_escapes() {
    assert_eq!(value_of_text(r#""a\nb""#).unwrap(), string("a\nb"));
    assert_eq!(value_of_text(r#""\b\t\f\r""#).unwrap(), string("\u{8}\t\u{c}\r"));
    assert_eq!(value_of_text(r#""q\"q\\""#).unwrap(), string("q\"q\\"));
    assert_eq!(value_of_text(r#""\u00e9t\u00E9""#).unwrap(), string("été"));
    assert_eq!(value_of_text(r#""\U0001F600!""#).unwrap(), string("😀!"));
    assert!(matches!(value_of_text(r#""\x41""#), Err(TomlError::UnknownEscapeSequence(_))));
    assert!(matches!(value_of_text(r#""\uD800""#), Err(TomlError::UnknownEscapeSequence(_))));
    assert!(matches!(value_of_text(r#""\u12""#), Err(TomlError::UnknownEscapeSequence(_))));
    assert!(matches!(value_of_text(r#""\uzzzz""#), Err(TomlError::UnknownEscapeSequence(_))));
}

#[test]
fn string_line_continuation() {
    let text = "\"\"\"\nThe quick \\\n\n   brown fox\"\"\"";
    assert_eq!(value_of_text(text).unwrap(), string("The quick brown fox"));
}

#[test]
fn unterminated_strings_fail() {
    assert!(matches!(value_of_text(r#""open"#), Err(TomlError::UnexpectedCharacter(_, _))));
    assert!(matches!(value_of_text("\"a\nb\""), Err(TomlError::UnexpectedCharacter(_, _))));
    assert!(matches!(value_of_text("'open"), Err(TomlError::UnexpectedCharacter(_, _))));
    assert!(matches!(value_of_text("'''open''"), Err(TomlError::UnexpectedCharacter(_, _))));
}

#[test]
fn arrays() {
    assert_eq!(
        value_of_text("[1,2,3,4]").unwrap(),
        TomlValue::Array(vec![TomlValue::Int(1), TomlValue::Int(2), TomlValue::Int(3), TomlValue::Int(4)])
    );
    assert_eq!(
        value_of_text("[1,2,]").unwrap(),
        TomlValue::Array(vec![TomlValue::Int(1), TomlValue::Int(2)])
    );
    assert!(value_of_text("[1 2 3]").is_err());
    assert_eq!(value_of_text("[]").unwrap(), TomlValue::Array(vec![]));
    assert!(matches!(value_of_text("[,]"), Err(TomlError::UnexpectedCharacter(_, _))));
    assert!(matches!(value_of_text("[1, 2"), Err(TomlError::UnexpectedCharacter(_, _))));
    assert!(matches!(value_of_text("[\"a\" \"b\"]"), Err(TomlError::UnexpectedCharacter(_, _))));
}

#[test]
fn arrays_nested_mixed_and_multiline() {
    let v = value_of_text("[\n  6, # six\n  [1, 2, 4],\n  \"s\", 'l',\n]").unwrap();
    assert_eq!(
        v,
        TomlValue::Array(vec![
            TomlValue::Int(6),
            TomlValue::Array(vec![TomlValue::Int(1), TomlValue::Int(2), TomlValue::Int(4)]),
            string("s"),
            string("l"),
        ])
    );
}

#[test]
fn nesting_depth_is_bounded() {
    let deep = format!("{}{}", "[".repeat(200), "]".repeat(200));
    assert!(matches!(value_of_text(&deep), Err(TomlError::NestingTooDeep(_))));
    let fine = format!("{}{}", "[".repeat(100), "]".repeat(100));
    assert!(value_of_text(&fine).is_ok());
}

#[test]
fn basic_inline_table() {
    let table = &lex(b"value = 1 }").unwrap();
    let parsed = parse_inline_table(RIter::new(table).as_slice()).unwrap();
    assert_eq!(
        parsed.value,
        TomlValue::Table(vec![(key("value"), TomlValue::Int(1))])
    );
    assert_eq!(parsed.section.pos, table.len());
}

#[test]
fn inline_tables() {
    assert_eq!(
        value_of_text("{ val = 1 }").unwrap(),
        TomlValue::Table(vec![(key("val"), TomlValue::Int(1))])
    );
    assert_eq!(
        value_of_text("{ a = \"x\", b = [1], c = { d = true } }").unwrap(),
        TomlValue::Table(vec![
            (key("a"), string("x")),
            (key("b"), TomlValue::Array(vec![TomlValue::Int(1)])),
            (key("c"), TomlValue::Table(vec![(key("d"), TomlValue::Boolean(true))])),
        ])
    );
    assert_eq!(value_of_text("{}").unwrap(), TomlValue::Table(vec![]));
    assert!(value_of_text("{ a = 1 b = 2 }").is_err());
    assert!(matches!(value_of_text("{ a = \"x\" b = 2 }"), Err(TomlError::UnexpectedCharacter(_, _))));
    assert!(matches!(value_of_text("{ a = 1, a = 2 }"), Err(TomlError::NameUsed(_))));
    assert!(matches!(value_of_text("{ a = 1,\n b = 2 }"), Err(TomlError::UnexpectedCharacter(_, _))));
    assert!(matches!(value_of_text("{ a = 1"), Err(TomlError::UnexpectedCharacter(_, _))));
}

#[test]
fn value_positions_without_value() {
    assert!(matches!(value_of_text("   "), Err(TomlError::UnspecifiedValue(_))));
    assert!(matches!(value_of_text("]"), Err(TomlError::UnspecifiedValue(_))));
}

#[test]
fn array_reader_resumes_after_closing_bracket() {
    let tokens = lex(b"1, [2]] rest").unwrap();
    let parsed = parse_array(RIter::new(&tokens).as_slice()).unwrap();
    assert_eq!(
        parsed.value,
        TomlValue::Array(vec![TomlValue::Int(1), TomlValue::Array(vec![TomlValue::Int(2)])])
    );
    assert_eq!(parsed.section.pos, 7);
}

#[test]
fn cursor_peek_and_conditional_consume() {
    let tokens = lex(b"a=\nb").unwrap();
    let mut it = RIter::new(&tokens);
    assert_eq!(it.peek().map(|t| t.0.clone()), Some(Token::Literal(vec!['a'])));
    assert!(!it.next_if_eq(&Token::Eq));
    it.next();
    assert!(it.next_if_eq(&Token::Eq));
    assert!(it.next_if_eq(&Token::LineBreak));
    assert_eq!(it.index.line, 1);
    assert_eq!(it.index.col, 0);
    let frozen: RSlice = it.as_slice();
    let resumed = RIter::from(frozen);
    assert_eq!(resumed.pos, 3);
    assert_eq!(resumed.peek().map(|t| t.1), Some(1));
}

#[test]
fn date_time_reading_order() {
    let d = DateValue { year: 1979, month: 5, day: 27 };
    let t = TimeValue { hour: 7, minute: 32, second: 0, microsecond: 0, tz_offset: None };
    let dt = DateTimeValue { date: d, time: t };
    assert_eq!(
        rtoml::num::pick_date_time(Some(dt), Some(d), Some(t)),
        Some(DateTime::DateTime(dt))
    );
    assert_eq!(rtoml::num::pick_date_time(None, Some(d), Some(t)), Some(DateTime::Date(d)));
    assert_eq!(rtoml::num::pick_date_time(None, None, Some(t)), Some(DateTime::Time(t)));
    assert_eq!(rtoml::num::pick_date_time(None, None, None), None);
}

#[test]
fn error_locations() {
    let tokens = lex(b"[1,\n  2 3]").unwrap();
    match parse_value(RIter::new(&tokens).as_slice()) {
        Err(TomlError::CannotParseValue(loc)) => {
            assert_eq!(loc.index.line, 1);
            assert_eq!(loc.token, Token::Sbc);
        }
        other => panic!("unexpected {:?}", other),
    }
}

#[test]
fn separators_stand_between_digits() {
    assert!(matches!(value_of("1_e5"), Err(TomlError::CannotParseValue(_))));
    assert!(matches!(value_of("1__2"), Err(TomlError::CannotParseValue(_))));
    assert!(matches!(value_of("1_.5"), Err(TomlError::CannotParseValue(_))));
    assert!(matches!(value_of("0xab_"), Err(TomlError::CannotParseValue(_))));
    assert_eq!(value_of("0x1_F").unwrap(), TomlValue::Int(31));
    assert_eq!(value_of("0xa_b").unwrap(), TomlValue::Int(171));
    assert_eq!(float_of(&value_of("1_0.2_5").unwrap()), 10.25);
}

#[test]
fn backslash_before_spaces_only_continues_at_line_end() {
    assert!(matches!(value_of_text("\"a\\ \""), Err(TomlError::UnknownEscapeSequence(_))));
    let text = "\"\"\"a \\   \n   b\"\"\"";
    assert_eq!(value_of_text(text).unwrap(), string("a b"));
}

#[test]
fn errors_name_the_accepted_tokens() {
    match value_of_text("\"abc") {
        Err(TomlError::UnexpectedCharacter(_, expected)) => assert_eq!(expected, vec![Token::DoubleQuote]),
        other => panic!("unexpected {:?}", other),
    }
    match value_of_text("\"ab\ncd\"") {
        Err(TomlError::UnexpectedCharacter(_, expected)) => assert_eq!(expected, vec![Token::DoubleQuote]),
        other => panic!("unexpected {:?}", other),
    }
    match value_of_text("'abc") {
        Err(TomlError::UnexpectedCharacter(_, expected)) => assert_eq!(expected, vec![Token::SingleQuote]),
        other => panic!("unexpected {:?}", other),
    }
    match value_of_text("[,1]") {
        Err(TomlError::UnexpectedCharacter(_, expected)) => {
            assert_eq!(expected, vec![Token::Sbc, Token::Literal(vec![])])
        }
        other => panic!("unexpected {:?}", other),
    }
    match value_of_text("[\"a\" \"b\"]") {
        Err(TomlError::UnexpectedCharacter(_, expected)) => assert_eq!(expected, vec![Token::Comma, Token::Sbc]),
        other => panic!("unexpected {:?}", other),
    }
    match value_of_text("{ a = 1") {
        Err(TomlError::UnexpectedCharacter(_, expected)) => assert_eq!(expected, vec![Token::Cbc]),
        other => panic!("unexpected {:?}", other),
    }
}

#[test]
fn cursor_matches_equal_literals() {
    let tokens = vec![(Token::Literal(vec!['a']), 1), (Token::Eq, 1)];
    let mut it = RIter::new(&tokens);
    assert!(!it.next_if_eq(&Token::Literal(vec!['b'])));
    assert!(it.next_if_eq(&Token::Literal(vec!['a'])));
    assert_eq!(it.pos, 1);
    assert_eq!(it.index.col, 1);
}

#[test]
fn error_location_is_after_the_token() {
    let tokens = lex(b"ab\n=").unwrap();
    let mut it = RIter::new(&tokens);
    it.next();
    let loc = rtoml::error::ErrLocation::new(it);
    assert_eq!(loc.token, Token::LineBreak);
    assert_eq!((loc.index.line, loc.index.col), (1, 0));
}
