use json_parser::lexer::Lexer;
use json_parser::parser::{Error, Parser};
use json_parser::Json;

fn parse(text: &str) -> Result<Json, Error> {
    Parser::new(Lexer::new(text)).parse()
}

fn get<'a>(entries: &'a [(String, Json)], key: &str) -> Option<&'a Json> {
    entries.iter().find(|(k, _)| k == key).map(|(_, v)| v)
}

fn number(v: &Json) -> f64 {
    match v {
        Json::Number(t) => t.parse::<f64>().unwrap(),
        other => panic!("not a number: {:?}", other),
    }
}

#[test]
fn lib_it_works() {}

#[test]
fn literals() {
    let json = "[\n    {\n        \"name\": \"Haruka\",\n        \"age\": 16,\n        \"friends\": [\"Chihaya\", \"Miki\"]\n    },\n    {\n        \"name\": \"Chihaya\",\n        \"age\": 16,\n        \"friends\": [\"Haruka\", \"Miki\"]\n    }\n]\n";
    let mut parser = Parser::new(Lexer::new(json));
    let v = parser.parse().unwrap();
    let Json::Array(items) = v else { panic!() };
    assert_eq!(items.len(), 2);
}

#[test]
fn numbers_parse_to_value() {
    for text in ["42", "42.0", "42.00"] {
        assert_eq!(number(&parse(text).unwrap()), 42.0);
        assert_eq!(number(&parse(&format!("-{text}")).unwrap()), -42.0);
    }
    assert_eq!(number(&parse(" 42  ").unwrap()), 42.0);
}

#[test]
fn object_with_nested_array() {
    let v = parse(r#"{"name":"Haruka","age":16,"friends":["Chihaya","Miki"]}"#).unwrap();
    let Json::Object(entries) = v else { panic!() };
    assert_eq!(entries.len(), 3);
    let Some(Json::Array(friends)) = get(&entries, "friends") else { panic!() };
    assert_eq!(friends.len(), 2);
    assert!(matches!(&friends[0], Json::String(s) if s == "Chihaya"));
    assert!(matches!(&friends[1], Json::String(s) if s == "Miki"));
    assert!(matches!(get(&entries, "name"), Some(Json::String(s)) if s == "Haruka"));
    assert_eq!(number(get(&entries, "age").unwrap()), 16.0);
}

#[test]
fn repeated_key_last_wins() {
    let Json::Object(entries) = parse(r#"{"a":1,"a":2}"#).unwrap() else { panic!() };
    assert_eq!(entries.len(), 1);
    assert_eq!(number(get(&entries, "a").unwrap()), 2.0);
}

#[test]
fn empty_containers() {
    let Json::Object(entries) = parse("{}").unwrap() else { panic!() };
    assert!(entries.is_empty());
    let Json::Array(items) = parse("[]").unwrap() else { panic!() };
    assert!(items.is_empty());
}

#[test]
fn trailing_content_is_error() {
    let e = parse("true true").unwrap_err();
    assert_eq!(e.message(), "Expect EOF, got bool");
    assert_eq!((e.line(), e.column()), (1, 6));
}

#[test]
fn leaves() {
    assert!(matches!(parse("null").unwrap(), Json::Null));
    assert!(matches!(parse("false").unwrap(), Json::Bool(false)));
    assert!(matches!(parse(r#""x\ny""#).unwrap(), Json::String(s) if s == r#"x\ny"#));
}

#[test]
fn lexical_error_is_reported_verbatim() {
    let e = parse("[1, -]").unwrap_err();
    assert_eq!(e.message(), "Expect numeric literal after '-'");
    assert_eq!((e.line(), e.column()), (1, 5));
    let e = parse("-").unwrap_err();
    assert_eq!(e.message(), "Unexpected EOF after '-'");
    assert_eq!((e.line(), e.column()), (1, 1));
}

#[test]
fn structural_errors() {
    let e = parse("{\"a\" 1}").unwrap_err();
    assert_eq!(e.message(), "Expect ':', got number");
    assert_eq!((e.line(), e.column()), (1, 6));
    let e = parse("[1,]").unwrap_err();
    assert_eq!(e.message(), "Expect Primary, got ']'");
    assert_eq!((e.line(), e.column()), (1, 4));
    let e = parse("{1:2}").unwrap_err();
    assert_eq!(e.message(), "Expect string, got number");
    let e = parse("[1\n 2]").unwrap_err();
    assert_eq!(e.message(), "Expect ']', got number");
    assert_eq!((e.line(), e.column()), (2, 2));
    let e = parse("").unwrap_err();
    assert_eq!(e.message(), "Expect Primary, got EOF");
}

#[test]
fn whole_text_entry_point() {
    let Json::Array(items) = json_parser::parser::parse_json(" [1, [true], {\"k\": null}] ").unwrap() else {
        panic!()
    };
    assert_eq!(items.len(), 3);
    assert_eq!(number(&items[0]), 1.0);
    assert!(matches!(&items[1], Json::Array(v) if v.len() == 1 && matches!(v[0], Json::Bool(true))));
    assert!(matches!(&items[2], Json::Object(e) if e.len() == 1 && e[0].0 == "k" && matches!(e[0].1, Json::Null)));
    let e = json_parser::parser::parse_json("{\"a\": tru}").unwrap_err();
    assert_eq!(e.message(), "Unexpected identifier");
    assert_eq!((e.line(), e.column()), (1, 7));
}

#[test]
fn insert_entry_replaces_equal_key() {
    let mut entries: Vec<(String, Json)> = Vec::new();
    json_parser::parser::insert_entry(&mut entries, "a".to_string(), Json::Null);
    json_parser::parser::insert_entry(&mut entries, "b".to_string(), Json::Bool(true));
    json_parser::parser::insert_entry(&mut entries, "a".to_string(), Json::Bool(false));
    assert_eq!(entries.len(), 2);
    assert_eq!(entries[0].0, "b");
    assert_eq!(entries[1].0, "a");
    assert!(matches!(entries[1].1, Json::Bool(false)));
}

#[test]
fn nested_positions_across_lines() {
    let e = parse("{\n  \"a\": [1,\n  2 3]\n}").unwrap_err();
    assert_eq!(e.message(), "Expect ']', got number");
    assert_eq!((e.line(), e.column()), (3, 5));
}
