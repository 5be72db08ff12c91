use rtoml::error::TomlError;
use rtoml::{table_get, Float, TomlKey, TomlValue};

fn key(s: &str) -> TomlKey {
    TomlKey::from(s)
}

fn parse(text: &str) -> Result<TomlValue, TomlError> {
    TomlValue::parse(text)
}

fn root_table(v: &TomlValue) -> &Vec<(TomlKey, TomlValue)> {
    v.as_table().unwrap()
}

#[test]
fn single_declaration() {
    let v = parse("k = 5").unwrap();
    assert_eq!(
        v,
        TomlValue::Table(vec![(
            TomlKey::Root,
            TomlValue::Table(vec![(key("k"), TomlValue::Int(5))])
        )])
    );
    let v = parse("my-key_2 = 'text'").unwrap();
    let top = table_get(root_table(&v), &TomlKey::Root).unwrap();
    assert_eq!(
        table_get(top.as_table().unwrap(), &key("my-key_2")),
        Some(&TomlValue::String("text".to_string()))
    );
}

#[test]
fn table_headers() {
    let v = parse("[a]\nx = 1\n[b]\ny = 2\n").unwrap();
    assert_eq!(
        v,
        TomlValue::Table(vec![
            (key("a"), TomlValue::Table(vec![(key("x"), TomlValue::Int(1))])),
            (key("b"), TomlValue::Table(vec![(key("y"), TomlValue::Int(2))])),
        ])
    );
}

#[test]
fn top_level_then_tables_with_comments() {
    let text = "# config\ntitle = \"demo\" # trailing\n\n[server]\nport = 8080\r\nhosts = [\n  'a',\n  'b',\n]\n[empty]\n";
    let v = parse(text).unwrap();
    assert_eq!(
        v,
        TomlValue::Table(vec![
            (
                TomlKey::Root,
                TomlValue::Table(vec![(key("title"), TomlValue::String("demo".to_string()))])
            ),
            (
                key("server"),
                TomlValue::Table(vec![
                    (key("port"), TomlValue::Int(8080)),
                    (
                        key("hosts"),
                        TomlValue::Array(vec![
                            TomlValue::String("a".to_string()),
                            TomlValue::String("b".to_string())
                        ])
                    ),
                ])
            ),
            (key("empty"), TomlValue::Table(vec![])),
        ])
    );
}

#[test]
fn duplicate_keys_fail() {
    assert!(matches!(parse("a = 1\na = 2"), Err(TomlError::NameUsed(_))));
    assert!(matches!(parse("[t]\na = 1\n a = 'x'"), Err(TomlError::NameUsed(_))));
    assert!(matches!(parse("[t]\n[t]\n"), Err(TomlError::NameUsed(_))));
    // the same key in two tables is fine
    assert!(parse("a = 1\n[t]\na = 2").is_ok());
}

#[test]
fn malformed_documents_fail() {
    assert!(matches!(parse("a 1"), Err(TomlError::UnexpectedCharacter(_, _))));
    assert!(matches!(parse("a = 1 b = 2"), Err(TomlError::CannotParseValue(_))));
    assert!(matches!(parse("a = 'x' b = 2"), Err(TomlError::UnexpectedCharacter(_, _))));
    assert!(matches!(parse("[a\nx = 1"), Err(TomlError::UnexpectedCharacter(_, _))));
    assert!(matches!(parse("[a] x = 1"), Err(TomlError::UnexpectedCharacter(_, _))));
    assert!(matches!(parse("a.b = 1"), Err(TomlError::UnexpectedCharacter(_, _))));
    assert!(matches!(parse("= 1"), Err(TomlError::UnexpectedCharacter(_, _))));
    assert!(matches!(parse("a ="), Err(TomlError::UnspecifiedValue(_))));
}

#[test]
fn invalid_utf8_fails() {
    assert_eq!(rtoml::parser::parse_bytes(&[b'a', b'=', 0xc3]), Err(TomlError::Utf8Error));
}

#[test]
fn empty_document() {
    assert_eq!(parse("").unwrap(), TomlValue::Table(vec![]));
    assert_eq!(parse("\n# only a comment\n").unwrap(), TomlValue::Table(vec![]));
}

#[test]
fn reparse_of_written_values() {
    let v = parse("a = [1, -2, 'x', [\"y\"]]").unwrap();
    let again = parse("a = [1,-2,'x',['y'],]").unwrap();
    assert_eq!(v, again);
}

#[test]
fn accessors() {
    let v = parse("i = 1\nf = 1.5\ns = 's'\nb = true\nd = 07:32:00\na = []\nt = {}").unwrap();
    let top = table_get(root_table(&v), &TomlKey::Root).unwrap().as_table().unwrap();
    assert_eq!(table_get(top, &key("i")).unwrap().as_int(), Some(&1));
    assert_eq!(
        table_get(top, &key("f")).unwrap().as_floating(),
        Some(&Float::Decimal("1.5".to_string()))
    );
    assert_eq!(table_get(top, &key("s")).unwrap().as_string(), Some(&"s".to_string()));
    assert_eq!(table_get(top, &key("b")).unwrap().as_boolean(), Some(&true));
    assert!(table_get(top, &key("d")).unwrap().as_datetime().unwrap().as_time().is_some());
    assert_eq!(table_get(top, &key("a")).unwrap().as_array().map(|a| a.len()), Some(0));
    assert_eq!(table_get(top, &key("t")).unwrap().as_table().map(|t| t.len()), Some(0));
    assert_eq!(table_get(top, &key("i")).unwrap().as_string(), None);
    assert_eq!(table_get(top, &key("missing")), None);
}

#[test]
fn rejected_declaration_leaves_table_unchanged() {
    let tokens = rtoml::lexer::lex(b"a = 2").unwrap();
    let mut it = rtoml::cursor::RIter::new(&tokens);
    let mut table = vec![(key("a"), TomlValue::Int(1))];
    let r = rtoml::parser::ParsedValue::key_value(&mut it, &mut table);
    assert!(matches!(r, Err(TomlError::NameUsed(_))));
    assert_eq!(table, vec![(key("a"), TomlValue::Int(1))]);
}

#[test]
fn canonical_document_reads_back() {
    let v = parse("a = -12\nb = 'x y'\nc = [1,'z',[2,],]\n").unwrap();
    assert_eq!(
        v,
        TomlValue::Table(vec![(
            TomlKey::Root,
            TomlValue::Table(vec![
                (key("a"), TomlValue::Int(-12)),
                (key("b"), TomlValue::String("x y".to_string())),
                (
                    key("c"),
                    TomlValue::Array(vec![
                        TomlValue::Int(1),
                        TomlValue::String("z".to_string()),
                        TomlValue::Array(vec![TomlValue::Int(2)]),
                    ])
                ),
            ])
        )])
    );
}
