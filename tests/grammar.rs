use yamlish::lexer::{boolean, number, string};
use yamlish::{parse, Tracker, Value};

fn chars(t: &str) -> Vec<char> {
    t.chars().collect()
}

fn num(t: &str) -> bool {
    let c = chars(t);
    number(&c, 0, c.len())
}

fn quoted(t: &str) -> bool {
    let c = chars(t);
    string(&c, 0, c.len())
}

fn same<T: std::fmt::Debug>(a: T, b: T) {
    assert_eq!(format!("{:?}", a), format!("{:?}", b));
}

fn entries(v: Value) -> Vec<(String, Value)> {
    match v {
        Value::Object(es) => es,
        other => panic!("not an object: {:?}", other),
    }
}

#[test]
fn number_literals() {
    assert!(num("123"));
    assert!(num("-7"));
    assert!(num("+0.5"));
    assert!(num("3.14"));
    assert!(!num("3.1.4"));
    assert!(!num("3."));
    assert!(!num(".5"));
    assert!(!num("-"));
    assert!(!num("1e5"));
    assert!(!num(""));
}

#[test]
fn boolean_literals() {
    let c = chars("true false True");
    assert_eq!(boolean(&c, 0, 4), Some(true));
    assert_eq!(boolean(&c, 5, 10), Some(false));
    assert_eq!(boolean(&c, 11, 15), None);
    assert_eq!(boolean(&c, 0, 3), None);
}

#[test]
fn string_literals() {
    assert!(quoted("\"abc\""));
    assert!(quoted("\"\""));
    assert!(quoted("\"a\\\"b\""));
    assert!(!quoted("\"a\"b\""));
    assert!(!quoted("\"abc\\\""));
    assert!(!quoted("\"abc"));
    assert!(quoted("'it\\s'"));
    assert!(!quoted("'a'b'"));
}

#[test]
fn escaped_quote_is_kept_in_body() {
    let es = entries(parse("k: \"a\\\"b\"").unwrap());
    same(es, vec![("k".to_string(), Value::String("a\\\"b".to_string()))]);
}

#[test]
fn single_quoted_string() {
    let es = entries(parse("k: 'x \"y\" z'\n").unwrap());
    same(es, vec![("k".to_string(), Value::String("x \"y\" z".to_string()))]);
}

#[test]
fn number_text_is_kept() {
    let es = entries(parse("a: -12.50\nb: +3").unwrap());
    same(
        es,
        vec![
            ("a".to_string(), Value::Number("-12.50".to_string())),
            ("b".to_string(), Value::Number("+3".to_string())),
        ]
    );
}

#[test]
fn duplicate_key_overwrites_in_place() {
    let es = entries(parse("a: 1\nb: 2\na: 3\n").unwrap());
    same(
        es,
        vec![
            ("a".to_string(), Value::Number("3".to_string())),
            ("b".to_string(), Value::Number("2".to_string())),
        ]
    );
}

#[test]
fn key_keeps_trailing_space() {
    let es = entries(parse("foo : 1").unwrap());
    assert_eq!(es[0].0, "foo ");
}

#[test]
fn partial_dedent_fails() {
    let input = "a:\n    b:\n        c: 1\n  d: 2\n";
    assert!(parse(input).is_err());
}

#[test]
fn full_dedent_closes_two_levels() {
    let es = entries(parse("a:\n    b:\n        c: 1\nd: 2\n").unwrap());
    assert_eq!(es.len(), 2);
    same(&es[1], &("d".to_string(), Value::Number("2".to_string())));
}

#[test]
fn uneven_widths_are_accepted() {
    let es = entries(parse("a:\n   b:\n         c: true\n").unwrap());
    let b = entries(es.into_iter().next().unwrap().1);
    let c = entries(b.into_iter().next().unwrap().1);
    same(c, vec![("c".to_string(), Value::Bool(true))]);
}

#[test]
fn array_of_objects() {
    let v = parse("-\n  a: 1\n  b: 2\n- 3\n").unwrap();
    match v {
        Value::Array(xs) => {
            assert_eq!(xs.len(), 2);
            let mut it = xs.into_iter();
            assert_eq!(entries(it.next().unwrap()).len(), 2);
            same(it.next().unwrap(), Value::Number("3".to_string()));
        }
        other => panic!("not an array: {:?}", other),
    }
}

#[test]
fn object_then_array_fails() {
    assert!(parse("a: 1\n- 2\n").is_err());
}

#[test]
fn inline_value_then_block_fails() {
    assert!(parse("a: 1\n  b: 2\n").is_err());
}

#[test]
fn bare_scalar_document_fails() {
    assert!(parse("123").is_err());
    assert!(parse("true\n").is_err());
}

#[test]
fn second_trailing_newline_fails() {
    assert!(parse("a: 1\n").is_ok());
    assert!(parse("a: 1\n\n").is_err());
}

#[test]
fn indented_root_fails() {
    assert!(parse("  a: 1").is_err());
    assert!(parse("   ").is_err());
}

#[test]
fn trailing_content_after_string_fails() {
    assert!(parse("a: \"x\" y").is_err());
}

#[test]
fn tracker_levels() {
    let mut t = Tracker::new();
    assert!(t.at_current_level(0));
    assert!(t.enter_deeper(4));
    assert!(!t.enter_deeper(4));
    assert!(t.enter_deeper(8));
    assert!(t.at_current_level(8));
    assert!(!t.exit_to(2));
    assert!(t.at_current_level(8));
    assert!(t.exit_to(0));
    assert!(t.at_current_level(0));
}

#[test]
fn canonical_round_trip() {
    // Written as the canonical form writes it: two more spaces per level,
    // strings single-quoted, scalars after `- ` or `key: `.
    let input = "- 'a b'\n-\n  k: -1.5\n  j:\n    - true\n    - 'x'\n- 7";
    let v = parse(input).unwrap();
    let expected = Value::Array(vec![
        Value::String("a b".to_string()),
        Value::Object(vec![
            ("k".to_string(), Value::Number("-1.5".to_string())),
            (
                "j".to_string(),
                Value::Array(vec![Value::Bool(true), Value::String("x".to_string())]),
            ),
        ]),
        Value::Number("7".to_string()),
    ]);
    same(v, expected);
}

#[test]
fn quoted_string_stops_at_line_break() {
    assert!(!quoted("\"foo\nbar\""));
    assert!(!quoted("'foo\nbar'"));
    assert!(!quoted("\"foo\n\""));
}

#[test]
fn string_with_single_quote_in_double_quotes() {
    let es = entries(parse("k: \"it's\"\n").unwrap());
    same(es, vec![("k".to_string(), Value::String("it's".to_string()))]);
}

#[test]
fn repeated_key_in_nested_object_keeps_one_entry() {
    let es = entries(parse("o:\n  a: 1\n  a: 2\n").unwrap());
    let inner = entries(es.into_iter().next().unwrap().1);
    same(inner, vec![("a".to_string(), Value::Number("2".to_string()))]);
}
