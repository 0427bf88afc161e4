use json_parser::value::Value;
use json_parser::{
    consume_space, parse_array, parse_bool, parse_kv, parse_num, parse_obj, parse_space,
    parse_str, parse_string, parse_value,
};
use std::collections::HashMap;

/// A value with its numbers decoded, as callers compare them.
#[derive(Debug, PartialEq)]
enum Decoded {
    Null,
    Bool(bool),
    Str(String),
    Number(f64),
    Arr(Vec<Decoded>),
    Obj(HashMap<String, Decoded>),
}

fn number(literal: &str) -> f64 {
    let (rest, x) =
        nom::number::complete::double::<&str, (&str, nom::error::ErrorKind)>(literal).unwrap();
    assert_eq!(rest, "");
    x
}

fn decoded(value: &Value) -> Decoded {
    match value {
        Value::Null => Decoded::Null,
        Value::Bool(b) => Decoded::Bool(*b),
        Value::Str(s) => Decoded::Str(s.clone()),
        Value::Number(literal) => Decoded::Number(number(literal)),
        Value::Arr(items) => Decoded::Arr(items.iter().map(decoded).collect()),
        Value::Obj(entries) => {
            Decoded::Obj(entries.iter().map(|(k, v)| (k.clone(), decoded(v))).collect())
        }
    }
}

fn text(s: &str) -> Decoded {
    Decoded::Str(s.to_string())
}

#[test]
fn test_parse_bool() {
    let mut json = "true";
    let mut out = parse_bool(json);
    assert_eq!(out.unwrap().1, true);

    json = "false";
    out = parse_bool(json);
    assert_eq!(out.unwrap().1, false);

    json = "afalse";
    out = parse_bool(json);
    assert!(out.is_err());
}

#[test]
fn test_parse_num() {
    let json = "10";
    let out = parse_num(json);
    assert_eq!(number(out.unwrap().1), 10.0);
}

#[test]
fn test_parse_str() {
    let json = "ssstttrrr\\\"ing\\n";
    let out = parse_str(json);
    let v = out.unwrap();
    assert_eq!(v.1, "ssstttrrr\\\"ing\\n");
}

#[test]
fn test_parse_string() {
    let json = "\"sss\\\"tttrrr\\ning\"";
    let out = parse_string(json);
    let v = out.unwrap();
    assert_eq!(decoded(&v.1), text("sss\"tttrrr\ning"));
}

#[test]
fn test_parse_space() {
    let json = " \t\none";
    let out = parse_space(json);
    let v = out.unwrap();
    println!("{:?}", v);
    assert_eq!(v.0, "one");
    assert_eq!(v.1, " \t\n");
}

#[test]
fn test_parse_array() {
    let json = "[ 1 , 2 ]";
    let out = parse_array(json);
    let res: Vec<Decoded> = vec![Decoded::Number(1.0), Decoded::Number(2.0)];
    assert_eq!(decoded(&Value::Arr(out.unwrap().1)), Decoded::Arr(res));
}

#[test]
fn test_parse_kv() {
    let json = " \"k\" : 4";
    let out = parse_kv(json).unwrap();
    assert_eq!(out.0, "");
    assert_eq!((decoded(&out.1 .0), decoded(&out.1 .1)), (text("k"), Decoded::Number(4.0)));
}

#[test]
fn test_parse_object() {
    let json = " { \"foo\" : 10 , \"bar\": [1, true] , \"baz\": \"sss\", } ";
    let out = parse_obj(json).unwrap();
    let mut res = HashMap::new();
    res.insert("foo".to_string(), Decoded::Number(10.0));
    let vec: Vec<Decoded> = vec![Decoded::Number(1.0), Decoded::Bool(true)];
    res.insert("bar".to_string(), Decoded::Arr(vec));
    res.insert("baz".to_string(), text("sss"));
    assert_eq!(out.0, "");
    assert_eq!(decoded(&Value::Obj(out.1)), Decoded::Obj(res));
}

#[test]
fn test_consume_space() {
    let json = "\n true \t ";
    let parser = consume_space(parse_bool);
    let out = parser(json);
    assert_eq!(out.unwrap().1, true);
}

#[test]
fn test_parse_value() {
    let mut json = "\n 3 \t ";
    let mut out = parse_value(json);
    assert_eq!(decoded(&out.unwrap().1), Decoded::Number(3.0));

    json = "\n true \t ";
    out = parse_value(json);
    assert_eq!(decoded(&out.unwrap().1), Decoded::Bool(true));

    json = "\n \"sss\" \t ";
    out = parse_value(json);
    assert_eq!(decoded(&out.unwrap().1), text("sss"));
}

#[test]
fn test_parse_value_arr() {
    let json = "\n [1, true , 3, \"sss\"] \t ";
    let out = parse_value(json);
    let res: Vec<Decoded> =
        vec![Decoded::Number(1.0), Decoded::Bool(true), Decoded::Number(3.0), text("sss")];
    assert_eq!(decoded(&out.unwrap().1), Decoded::Arr(res));
}

#[test]
fn test_parse_value_obj() {
    let json = " { \"foo\" : 10 , \"bar\": [1, true] , \"baz\": \"sss\", } ";
    let out = parse_value(json).unwrap();
    let mut res = HashMap::new();
    res.insert("foo".to_string(), Decoded::Number(10.0));
    let vec: Vec<Decoded> = vec![Decoded::Number(1.0), Decoded::Bool(true)];
    res.insert("bar".to_string(), Decoded::Arr(vec));
    res.insert("baz".to_string(), text("sss"));
    assert_eq!(out.0, "");
    assert_eq!(decoded(&out.1), Decoded::Obj(res));
}
