use json_parser::errors::{ErrorKind, JsonError};
use json_parser::value::{find_key, values_equal, Value};
use json_parser::{
    consume_space, parse_array, parse_bool, parse_kv, parse_num, parse_obj, parse_space,
    parse_str, parse_string, parse_value, JsonParser,
};

fn number(literal: &str) -> f64 {
    let (rest, x) =
        nom::number::complete::double::<&str, (&str, nom::error::ErrorKind)>(literal).unwrap();
    assert_eq!(rest, "");
    x
}

fn num(literal: &str) -> Value {
    Value::Number(literal.to_string())
}

fn text(s: &str) -> Value {
    Value::Str(s.to_string())
}

fn parse(json: &str) -> Result<Value, JsonError> {
    JsonParser::parse(json)
}

fn nested(depth: usize) -> String {
    let mut s = String::new();
    for _ in 0..depth {
        s.push('[');
    }
    for _ in 0..depth {
        s.push(']');
    }
    s
}

#[test]
fn keywords_in_any_letter_case() {
    assert_eq!(parse("null").unwrap(), Value::Null);
    assert_eq!(parse("NULL").unwrap(), Value::Null);
    assert_eq!(parse("nUlL").unwrap(), Value::Null);
    assert_eq!(parse("true").unwrap(), Value::Bool(true));
    assert_eq!(parse("TrUe").unwrap(), Value::Bool(true));
    assert_eq!(parse("false").unwrap(), Value::Bool(false));
    assert_eq!(parse("FALSE").unwrap(), Value::Bool(false));
}

#[test]
fn keyword_consumes_exactly_its_letters() {
    assert_eq!(parse_bool("TRUEx").unwrap(), ("x", true));
    assert_eq!(parse_bool("falsefalse").unwrap(), ("false", false));
    let (rest, value) = parse_value("nullx").unwrap();
    assert_eq!(rest, "x");
    assert_eq!(value, Value::Null);
}

#[test]
fn keyword_mismatch_is_unexpected_token() {
    assert_eq!(parse_bool("tru"), Err(JsonError::UnexpectedToken(0)));
    assert_eq!(parse_bool(""), Err(JsonError::UnexpectedToken(0)));
    assert_eq!(parse_bool(" true"), Err(JsonError::UnexpectedToken(0)));
    assert_eq!(parse("nul"), Err(JsonError::UnexpectedToken(0)));
    assert_eq!(parse("  x"), Err(JsonError::UnexpectedToken(2)));
}

#[test]
fn letters_that_only_look_alike_do_not_match() {
    // U+212A, the Kelvin sign, and U+017F, the long s, are no ASCII letters.
    assert!(parse_bool("fal\u{17f}e").is_err());
    assert!(parse_bool("\u{1e6d}rue").is_err());
    // '4' is 't' minus 64, '\u{14}' is 't' minus 96: only a distance of 32 from a capital counts.
    assert!(parse_bool("4rue").is_err());
    assert!(parse_bool("\u{14}rue").is_err());
    // '`' + 32 is no letter either.
    assert!(parse_bool("tru\u{45}").is_ok());
    assert!(parse_bool("tru\u{25}").is_err());
}

#[test]
fn number_literals_decode_to_their_value() {
    assert_eq!(number(parse_num("10").unwrap().1), 10.0);
    assert_eq!(number(parse_num("-3.5e2").unwrap().1), -350.0);
    assert_eq!(number(parse_num("0").unwrap().1), 0.0);
    assert_eq!(number(parse_num("-0").unwrap().1), 0.0);
    assert_eq!(number(parse_num("0.5").unwrap().1), 0.5);
    assert_eq!(number(parse_num("1E5").unwrap().1), 100000.0);
    assert_eq!(number(parse_num("12e+2").unwrap().1), 1200.0);
    assert_eq!(number(parse_num("125e-2").unwrap().1), 1.25);
    assert_eq!(number(parse_num("123456789").unwrap().1), 123456789.0);
}

#[test]
fn number_literal_is_kept_as_written() {
    assert_eq!(parse("10").unwrap(), num("10"));
    assert_eq!(parse("-3.5e2").unwrap(), num("-3.5e2"));
    assert_eq!(parse(" 1.0 ").unwrap(), num("1.0"));
    assert_ne!(parse("1.0").unwrap(), num("1"));
}

#[test]
fn number_stops_where_the_grammar_ends() {
    assert_eq!(parse_num("10abc").unwrap(), ("abc", "10"));
    assert_eq!(parse_num("01").unwrap(), ("1", "0"));
    assert_eq!(parse_num("1.").unwrap(), (".", "1"));
    assert_eq!(parse_num("1.e5").unwrap(), (".e5", "1"));
    assert_eq!(parse_num("1e").unwrap(), ("e", "1"));
    assert_eq!(parse_num("1e+").unwrap(), ("e+", "1"));
    assert_eq!(parse_num("1e+5x").unwrap(), ("x", "1e+5"));
    assert_eq!(parse_num("1.25.3").unwrap(), (".3", "1.25"));
    assert_eq!(parse_num("-12,").unwrap(), (",", "-12"));
    assert_eq!(parse_num("7 ").unwrap(), (" ", "7"));
}

#[test]
fn number_needs_a_digit() {
    assert_eq!(parse_num(""), Err(JsonError::UnexpectedToken(0)));
    assert_eq!(parse_num("-"), Err(JsonError::UnexpectedToken(1)));
    assert_eq!(parse_num("-x"), Err(JsonError::UnexpectedToken(1)));
    assert_eq!(parse_num("+1"), Err(JsonError::UnexpectedToken(0)));
    assert_eq!(parse_num(".5"), Err(JsonError::UnexpectedToken(0)));
    assert_eq!(parse_num(" 1"), Err(JsonError::UnexpectedToken(0)));
    assert_eq!(parse("-"), Err(JsonError::UnexpectedToken(1)));
    assert_eq!(parse("01"), Err(JsonError::TrailingInput(1)));
    assert_eq!(parse("1e"), Err(JsonError::TrailingInput(1)));
}

#[test]
fn escapes_are_decoded_once() {
    let (rest, value) = parse_string("\"a\\\"b\\n\"").unwrap();
    assert_eq!(rest, "");
    assert_eq!(value, text("a\"b\n"));
    assert_eq!(parse_string("\"a\\\\nb\"").unwrap().1, text("a\\nb"));
    assert_eq!(parse_string("\"\\\\\\\\\"").unwrap().1, text("\\\\"));
    assert_ne!(parse_string("\"a\\nb\"").unwrap().1, parse_string("\"anb\"").unwrap().1);
    assert_eq!(parse_string("\"anb\"").unwrap().1, text("anb"));
}

#[test]
fn string_body_is_taken_verbatim() {
    assert_eq!(parse_string("\"\"").unwrap(), ("", text("")));
    assert_eq!(parse_string("\"a b\tc\nd\" x").unwrap(), (" x", text("a b\tc\nd")));
    assert_eq!(parse_string("\"h\u{e9}llo \u{1f600}\"!").unwrap(), ("!", text("h\u{e9}llo \u{1f600}")));
    assert_eq!(parse_string("\"[1, {}]\"").unwrap().1, text("[1, {}]"));
}

#[test]
fn raw_body_keeps_its_escapes() {
    assert_eq!(parse_str("ab\"cd").unwrap(), ("\"cd", "ab"));
    assert_eq!(parse_str("a\\\"b\" rest").unwrap(), ("\" rest", "a\\\"b"));
    assert_eq!(parse_str("").unwrap(), ("", ""));
    assert_eq!(parse_str("\"").unwrap(), ("\"", ""));
    assert_eq!(parse_str("ab\\x"), Err(JsonError::InvalidEscape(2)));
    assert_eq!(parse_str("ab\\"), Err(JsonError::UnterminatedString(3)));
}

#[test]
fn string_failures() {
    assert_eq!(parse_string("abc"), Err(JsonError::UnexpectedToken(0)));
    assert_eq!(parse_string(""), Err(JsonError::UnexpectedToken(0)));
    assert_eq!(parse_string("\"unterminated"), Err(JsonError::UnterminatedString(13)));
    assert_eq!(parse_string("\"abc\\"), Err(JsonError::UnterminatedString(5)));
    assert_eq!(parse_string("\"abc\\\""), Err(JsonError::UnterminatedString(6)));
    assert_eq!(parse_string("\"a\\tb\""), Err(JsonError::InvalidEscape(2)));
    assert_eq!(parse_string("\"\\u0041\""), Err(JsonError::InvalidEscape(1)));
    assert_eq!(parse_string("\"\\/\""), Err(JsonError::InvalidEscape(1)));
    assert_eq!(parse_string("\"h\u{e9}\\q\""), Err(JsonError::InvalidEscape(3)));
}

#[test]
fn whitespace_is_the_four_characters() {
    assert_eq!(parse_space(" \t\r\nx ").unwrap(), ("x ", " \t\r\n"));
    assert_eq!(parse_space("x").unwrap(), ("x", ""));
    assert_eq!(parse_space("").unwrap(), ("", ""));
    assert_eq!(parse_space("   ").unwrap(), ("", "   "));
    assert_eq!(parse_space("\u{b}x").unwrap(), ("\u{b}x", ""));
    assert_eq!(parse_space("\u{a0}x").unwrap(), ("\u{a0}x", ""));
    assert_eq!(parse_space(" \u{c} ").unwrap(), ("\u{c} ", " "));
}

#[test]
fn arrays_keep_order_and_count() {
    assert_eq!(
        parse("[1, true, \"x\"]").unwrap(),
        Value::Arr(vec![num("1"), Value::Bool(true), text("x")])
    );
    assert_ne!(
        parse("[1, 2]").unwrap(),
        parse("[2, 1]").unwrap()
    );
    assert_ne!(parse("[1, 1]").unwrap(), parse("[1]").unwrap());
    assert_eq!(parse("[[1],[2,[3]]]").unwrap(),
        Value::Arr(vec![
            Value::Arr(vec![num("1")]),
            Value::Arr(vec![num("2"), Value::Arr(vec![num("3")])]),
        ]));
}

#[test]
fn objects_hold_exactly_their_members() {
    let value = parse("{\"a\":1,\"b\":2}").unwrap();
    assert_eq!(
        value,
        Value::Obj(vec![("a".to_string(), num("1")), ("b".to_string(), num("2"))])
    );
    assert_eq!(
        value,
        Value::Obj(vec![("b".to_string(), num("2")), ("a".to_string(), num("1"))])
    );
    assert_ne!(value, Value::Obj(vec![("a".to_string(), num("1"))]));
    assert_ne!(
        value,
        Value::Obj(vec![("a".to_string(), num("1")), ("b".to_string(), num("3"))])
    );
    assert_ne!(
        value,
        Value::Obj(vec![
            ("a".to_string(), num("1")),
            ("b".to_string(), num("2")),
            ("c".to_string(), num("3"))
        ])
    );
    assert_eq!(parse("{\"b\":2,\"a\":1}").unwrap(), value);
}

#[test]
fn later_member_of_a_name_stands() {
    let (rest, entries) = parse_obj("{\"a\":1,\"b\":2,\"a\":3}").unwrap();
    assert_eq!(rest, "");
    assert_eq!(entries.len(), 2);
    let a = "a".to_string();
    let j = find_key(&entries, &a).unwrap();
    assert_eq!(entries[j].1, num("3"));
    assert_eq!(find_key(&entries, &"c".to_string()), None);
    assert_eq!(
        Value::Obj(entries),
        Value::Obj(vec![("b".to_string(), num("2")), ("a".to_string(), num("3"))])
    );
    // By hand a name may be listed twice: the last entry gives its value.
    let twice = Value::Obj(vec![("a".to_string(), num("1")), ("a".to_string(), num("2"))]);
    assert_eq!(twice, Value::Obj(vec![("a".to_string(), num("2"))]));
    assert_ne!(twice, Value::Obj(vec![("a".to_string(), num("1"))]));
}

#[test]
fn equality_is_structural() {
    assert!(values_equal(&Value::Null, &Value::Null));
    assert!(!values_equal(&Value::Null, &Value::Bool(false)));
    assert!(!values_equal(&text("1"), &num("1")));
    assert!(!values_equal(&Value::Arr(vec![]), &Value::Obj(vec![])));
    assert!(values_equal(&Value::Arr(vec![]), &Value::Arr(vec![])));
    assert!(!values_equal(&Value::Bool(true), &Value::Bool(false)));
    let nested_a = Value::Obj(vec![
        ("x".to_string(), Value::Obj(vec![("p".to_string(), num("1")), ("q".to_string(), num("2"))])),
        ("y".to_string(), Value::Arr(vec![Value::Null])),
    ]);
    let nested_b = Value::Obj(vec![
        ("y".to_string(), Value::Arr(vec![Value::Null])),
        ("x".to_string(), Value::Obj(vec![("q".to_string(), num("2")), ("p".to_string(), num("1"))])),
    ]);
    assert!(values_equal(&nested_a, &nested_b));
    assert!(nested_a == nested_b);
}

#[test]
fn whitespace_between_tokens_changes_nothing() {
    assert_eq!(parse(" [ 1 , 2 ] ").unwrap(), parse("[1,2]").unwrap());
    assert_eq!(
        parse("\n{\t\"a\" :\r\n[ true ,null ] , \"b\":{ } }\n").unwrap(),
        parse("{\"a\":[true,null],\"b\":{}}").unwrap()
    );
    assert_eq!(parse("\t\t7\r\n").unwrap(), parse("7").unwrap());
    // Inside a string whitespace counts.
    assert_ne!(parse("\" a\"").unwrap(), parse("\"a\"").unwrap());
}

#[test]
fn empty_containers() {
    assert_eq!(parse("[]").unwrap(), Value::Arr(vec![]));
    assert_eq!(parse("{}").unwrap(), Value::Obj(vec![]));
    assert_eq!(parse("[ ]").unwrap(), Value::Arr(vec![]));
    assert_eq!(parse(" { \n } ").unwrap(), Value::Obj(vec![]));
    assert_eq!(parse_array("[]x").unwrap(), ("x", vec![]));
    assert_eq!(parse_obj("{}x").unwrap(), ("x", vec![]));
}

#[test]
fn one_trailing_comma_is_accepted_in_both_containers() {
    assert_eq!(parse("[1,]").unwrap(), Value::Arr(vec![num("1")]));
    assert_eq!(parse("[1 , 2 , ]").unwrap(), Value::Arr(vec![num("1"), num("2")]));
    assert_eq!(parse("{\"a\":1,}").unwrap(), Value::Obj(vec![("a".to_string(), num("1"))]));
    assert_eq!(parse("[,]"), Err(JsonError::UnexpectedToken(1)));
    assert_eq!(parse("{,}"), Err(JsonError::UnexpectedToken(1)));
    assert_eq!(parse("[1,,]"), Err(JsonError::UnexpectedToken(3)));
    assert_eq!(parse("[1,,2]"), Err(JsonError::UnexpectedToken(3)));
    assert_eq!(parse("{\"a\":1,,}"), Err(JsonError::UnexpectedToken(7)));
}

#[test]
fn malformed_input_is_an_error() {
    assert_eq!(parse("{\"a\":}"), Err(JsonError::UnexpectedToken(5)));
    assert_eq!(parse("[1,"), Err(JsonError::UnterminatedContainer(3)));
    assert_eq!(parse("\"unterminated"), Err(JsonError::UnterminatedString(13)));
    assert_eq!(parse(""), Err(JsonError::UnexpectedToken(0)));
    assert_eq!(parse("   "), Err(JsonError::UnexpectedToken(3)));
    assert_eq!(parse("["), Err(JsonError::UnterminatedContainer(1)));
    assert_eq!(parse("{"), Err(JsonError::UnterminatedContainer(1)));
    assert_eq!(parse("[1"), Err(JsonError::UnterminatedContainer(2)));
    assert_eq!(parse("[1 "), Err(JsonError::UnterminatedContainer(3)));
    assert_eq!(parse("{\"a\":1"), Err(JsonError::UnterminatedContainer(6)));
    assert_eq!(parse("{\"a\":1,"), Err(JsonError::UnterminatedContainer(7)));
    assert_eq!(parse("[1 2]"), Err(JsonError::UnexpectedToken(3)));
    assert_eq!(parse("[1}"), Err(JsonError::UnexpectedToken(2)));
    assert_eq!(parse("{\"a\" 1}"), Err(JsonError::UnexpectedToken(5)));
    assert_eq!(parse("{\"a\"}"), Err(JsonError::UnexpectedToken(4)));
    assert_eq!(parse("{a:1}"), Err(JsonError::UnexpectedToken(1)));
    assert_eq!(parse("{1:1}"), Err(JsonError::UnexpectedToken(1)));
    assert_eq!(parse("{\"a\":1 \"b\":2}"), Err(JsonError::UnexpectedToken(7)));
    assert_eq!(parse("{\"a"), Err(JsonError::UnterminatedString(3)));
    assert_eq!(parse("[\"a\\x\"]"), Err(JsonError::InvalidEscape(3)));
    assert_eq!(parse("]"), Err(JsonError::UnexpectedToken(0)));
    assert_eq!(parse(":"), Err(JsonError::UnexpectedToken(0)));
}

#[test]
fn the_same_input_fails_the_same_way() {
    for json in ["{\"a\":}", "[1,", "\"unterminated", "1 2", "[\"\\q\"]", "tru"] {
        let first = parse(json).unwrap_err();
        let second = parse(json).unwrap_err();
        assert_eq!(first, second);
        assert_eq!(first.kind(), second.kind());
        let copy = json.to_string();
        assert_eq!(parse(&copy).unwrap_err(), first);
    }
}

#[test]
fn trailing_input_is_rejected() {
    assert_eq!(parse("1 2"), Err(JsonError::TrailingInput(2)));
    assert_eq!(parse("[] []"), Err(JsonError::TrailingInput(3)));
    assert_eq!(parse("truex"), Err(JsonError::TrailingInput(4)));
    assert_eq!(parse("{}}"), Err(JsonError::TrailingInput(2)));
    assert_eq!(parse("\"a\" ,"), Err(JsonError::TrailingInput(4)));
    assert_eq!(parse("1 \n").unwrap(), num("1"));
    // Taken from the start of a text, a value leaves the rest to the caller.
    assert_eq!(parse_value("1 2").unwrap(), ("2", num("1")));
    assert_eq!(parse_value(" [] ] ").unwrap(), ("] ", Value::Arr(vec![])));
}

#[test]
fn nesting_is_bounded() {
    assert!(parse(&nested(1)).is_ok());
    assert!(parse(&nested(128)).is_ok());
    assert_eq!(parse(&nested(129)), Err(JsonError::NestingTooDeep(128)));
    assert_eq!(parse(&nested(1000)), Err(JsonError::NestingTooDeep(128)));
    let mut objects = String::new();
    for _ in 0..129 {
        objects.push_str("{\"a\":");
    }
    assert_eq!(parse(&objects), Err(JsonError::NestingTooDeep(128 * 5)));
    assert!(parse_array(&nested(128)).is_ok());
    assert_eq!(parse_array(&nested(129)).unwrap_err(), JsonError::NestingTooDeep(128));
    // Side by side is not nested.
    let mut wide = String::from("[");
    for _ in 0..500 {
        wide.push_str("[],");
    }
    wide.push(']');
    assert!(parse(&wide).is_ok());
}

#[test]
fn member_is_name_colon_value() {
    let (rest, (name, value)) = parse_kv("\"k\":[1] , x").unwrap();
    assert_eq!(rest, ", x");
    assert_eq!(name, text("k"));
    assert_eq!(value, Value::Arr(vec![num("1")]));
    assert_eq!(parse_kv("k:1"), Err(JsonError::UnexpectedToken(0)));
    assert_eq!(parse_kv("\"k\" 1"), Err(JsonError::UnexpectedToken(4)));
    assert_eq!(parse_kv("\"k\":"), Err(JsonError::UnexpectedToken(4)));
}

#[test]
fn containers_need_their_bracket() {
    assert_eq!(parse_array("1"), Err(JsonError::UnexpectedToken(0)));
    assert_eq!(parse_array("  {}"), Err(JsonError::UnexpectedToken(2)));
    assert_eq!(parse_obj("[]"), Err(JsonError::UnexpectedToken(0)));
    assert_eq!(parse_obj(""), Err(JsonError::UnexpectedToken(0)));
    assert_eq!(parse_array(" [ 1 ] x").unwrap(), ("x", vec![num("1")]));
}

#[test]
fn wrapped_parser_takes_whitespace_on_both_sides() {
    let spaced_bool = consume_space(parse_bool);
    assert_eq!(spaced_bool(" \t true\r\n x ").unwrap(), ("x ", true));
    assert_eq!(spaced_bool("false").unwrap(), ("", false));
    assert_eq!(spaced_bool("  nope"), Err(JsonError::UnexpectedToken(0)));
    let spaced_num = consume_space(parse_num);
    assert_eq!(spaced_num(" 12 , 13").unwrap(), (", 13", "12"));
    let spaced_string = consume_space(parse_string);
    assert_eq!(spaced_string("  \" a \"  ").unwrap(), ("", text(" a ")));
}

#[test]
fn positions_count_characters() {
    assert_eq!(parse("[\"\u{e9}\u{1f600}\", x]"), Err(JsonError::UnexpectedToken(7)));
    assert_eq!(parse_value("\"\u{e9}\" \u{1f600}").unwrap(), ("\u{1f600}", text("\u{e9}")));
}

#[test]
fn error_kind_and_position() {
    let e = JsonError::new(ErrorKind::InvalidEscape, 7);
    assert_eq!(e, JsonError::InvalidEscape(7));
    assert_eq!(e.kind(), ErrorKind::InvalidEscape);
    assert_eq!(e.position(), 7);
    for kind in [
        ErrorKind::UnexpectedToken,
        ErrorKind::UnterminatedString,
        ErrorKind::InvalidEscape,
        ErrorKind::UnterminatedContainer,
        ErrorKind::TrailingInput,
        ErrorKind::NestingTooDeep,
    ] {
        let e = JsonError::new(kind, 3);
        assert_eq!(e.kind(), kind);
        assert_eq!(e.position(), 3);
    }
    assert_eq!(parse("1 2").unwrap_err().kind(), ErrorKind::TrailingInput);
    assert_eq!(parse("[").unwrap_err().kind(), ErrorKind::UnterminatedContainer);
    assert_eq!(parse("\"").unwrap_err().kind(), ErrorKind::UnterminatedString);
    assert_eq!(parse("\"\\a\"").unwrap_err().kind(), ErrorKind::InvalidEscape);
    assert_eq!(parse("?").unwrap_err().kind(), ErrorKind::UnexpectedToken);
    assert_eq!(parse(&nested(200)).unwrap_err().kind(), ErrorKind::NestingTooDeep);
}

#[test]
fn error_messages() {
    assert_eq!(JsonError::UnexpectedToken(0).description(), "unexpected token at character 0");
    assert_eq!(
        JsonError::UnterminatedString(13).description(),
        "unterminated string at character 13"
    );
    assert_eq!(JsonError::InvalidEscape(7).description(), "invalid escape at character 7");
    assert_eq!(
        JsonError::UnterminatedContainer(1024).description(),
        "unterminated array or object at character 1024"
    );
    assert_eq!(JsonError::TrailingInput(10).description(), "trailing input at character 10");
    assert_eq!(
        JsonError::NestingTooDeep(9007199254740993).description(),
        "nesting too deep at character 9007199254740993"
    );
    assert_eq!(parse("[1 2]").unwrap_err().description(), "unexpected token at character 3");
}

#[test]
fn parser_keeps_text_and_value() {
    let parser = JsonParser::new(" {\"a\": [1, \"x\"]} ");
    assert_eq!(parser.input, " {\"a\": [1, \"x\"]} ");
    assert_eq!(
        parser.output,
        Value::Obj(vec![("a".to_string(), Value::Arr(vec![num("1"), text("x")]))])
    );
}
