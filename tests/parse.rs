use std::collections::HashMap;

use yamlish::{parse, Value};

#[derive(Debug, PartialEq)]
enum V {
    S(String),
    N(f64),
    B(bool),
    O(HashMap<String, V>),
    A(Vec<V>),
}

fn conv(v: &Value) -> V {
    match v {
        Value::String(s) => V::S(s.clone()),
        Value::Number(t) => V::N(t.parse::<f64>().unwrap()),
        Value::Bool(b) => V::B(*b),
        Value::Object(es) => V::O(es.iter().map(|(k, v)| (k.clone(), conv(v))).collect()),
        Value::Array(xs) => V::A(xs.iter().map(conv).collect()),
    }
}

fn unwrap_object(input: &str) -> HashMap<String, V> {
    match conv(&parse(input).unwrap()) {
        V::O(o) => o,
        _ => panic!("not an object"),
    }
}

fn unwrap_array(input: &str) -> Vec<V> {
    match conv(&parse(input).unwrap()) {
        V::A(a) => a,
        _ => panic!("not an array"),
    }
}

fn s(x: &str) -> String {
    x.to_string()
}

#[test]
fn nested() {
    let input = "key_1: 123\nobj:\n    nested: 456\n";

    let mut obj = HashMap::new();
    obj.insert(s("nested"), V::N(456.0));

    let mut expected = HashMap::new();
    expected.insert(s("key_1"), V::N(123.0));
    expected.insert(s("obj"), V::O(obj));

    assert_eq!(unwrap_object(input), expected);
}

// A line indented deeper than its object that does not follow a bare `key:`
// is a syntax error.
#[test]
fn nested_double() {
    let input = "key_1: 123\nobj:\n    nested: 456\n        nested_again: 789\n";

    assert!(parse(input).is_err());
}

#[test]
fn nested_then_unnested() {
    let input = "key_1: 123\nobj:\n    nested: 456\ntop_level: 789\n";

    let mut obj = HashMap::new();
    obj.insert(s("nested"), V::N(456.0));

    let mut expected = HashMap::new();
    expected.insert(s("key_1"), V::N(123.0));
    expected.insert(s("obj"), V::O(obj));
    expected.insert(s("top_level"), V::N(789.0));

    assert_eq!(unwrap_object(input), expected);
}

#[test]
fn big_array() {
    let input = "- 123\n- \"a string!\"\n- 3.14\n- true\n- false\n";

    let expected = vec![
        V::N(123.0),
        V::S(s("a string!")),
        V::N(3.14),
        V::B(true),
        V::B(false),
    ];

    assert_eq!(unwrap_array(input), expected);
}

#[test]
fn big_object() {
    let input = "key_1: 123\nkeytwo: \"a string!\"\nafloat: 3.14\ntruthy: true\nfalsey: false";

    let mut expected = HashMap::new();
    expected.insert(s("key_1"), V::N(123.0));
    expected.insert(s("keytwo"), V::S(s("a string!")));
    expected.insert(s("afloat"), V::N(3.14));
    expected.insert(s("truthy"), V::B(true));
    expected.insert(s("falsey"), V::B(false));

    assert_eq!(unwrap_object(input), expected);
}

#[test]
fn it_works() {
    let input = "key_1: 123\nkey_2: \"a string!\"\na_float: 3.14\ntruthy: true\nfalsey: false\nobj:\n    nested: 456\n";

    let mut obj = HashMap::new();
    obj.insert(s("nested"), V::N(456.0));

    let mut expected = HashMap::new();
    expected.insert(s("key_1"), V::N(123.0));
    expected.insert(s("key_2"), V::S(s("a string!")));
    expected.insert(s("a_float"), V::N(3.14));
    expected.insert(s("truthy"), V::B(true));
    expected.insert(s("falsey"), V::B(false));
    expected.insert(s("obj"), V::O(obj));

    assert_eq!(unwrap_object(input), expected);
}

#[test]
fn simple_array() {
    let input = "- 1\n- 2\n";

    let expected = vec![V::N(1.0), V::N(2.0)];

    assert_eq!(unwrap_array(input), expected);
}

#[test]
fn simple_object() {
    let input = "keyone: 123\nkeytwo: 456";

    let mut expected = HashMap::new();
    expected.insert(s("keyone"), V::N(123.0));
    expected.insert(s("keytwo"), V::N(456.0));

    assert_eq!(unwrap_object(input), expected);
}

#[test]
fn array_then_object() {
    let input = "- 1\nfoo: 2\n";

    assert!(parse(input).is_err());
}

#[test]
fn empty_object() {
    let input = "key_1:";

    assert!(parse(input).is_err());
}

#[test]
fn empty() {
    let input = "";

    assert!(parse(input).is_err());
}

#[test]
fn missing_colon() {
    let input = "key_1";

    assert!(parse(input).is_err());
}

#[test]
fn key_with_spaces() {
    let input = "foo bar: 123";

    let mut expected = HashMap::new();
    expected.insert(s("foo bar"), V::N(123.0));

    assert_eq!(unwrap_object(input), expected);
}

#[test]
fn key_with_spaces_and_missing_colon() {
    let input = "foo bar";

    assert!(parse(input).is_err());
}

#[test]
fn invalid_object() {
    let input = "key_1:\nx\n";

    assert!(parse(input).is_err());
}

#[test]
fn missing_value() {
    let input = "key_1: ";

    assert!(parse(input).is_err());
}

#[test]
fn unclosed_string() {
    let input = "key_1: \"foo";

    assert!(parse(input).is_err());
}

#[test]
fn invalid_float() {
    let input = "key_1: 3.1.4";

    assert!(parse(input).is_err());
}
