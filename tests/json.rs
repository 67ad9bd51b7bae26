use quadrivium::{parse_str, JsonValue, NasaClient, Parser};

fn parse(text: &str) -> JsonValue {
    match parse_str(text) {
        Ok(v) => v,
        Err(e) => panic!("parse of {:?} failed at {}: {}", text, e.position, e.message),
    }
}

fn number(v: &JsonValue) -> f64 {
    match v {
        JsonValue::Number(t) => t.parse::<f64>().unwrap(),
        other => panic!("not a number: {:?}", other),
    }
}

fn close(a: f64, b: f64) -> bool {
    (a - b).abs() <= 1e-9 * b.abs().max(1.0)
}

fn member<'a>(v: &'a JsonValue, key: &str) -> Option<&'a JsonValue> {
    match v {
        JsonValue::Object(ms) => ms.iter().find(|(k, _)| k == key).map(|(_, v)| v),
        _ => None,
    }
}

#[test]
fn literals() {
    assert_eq!(parse("null"), JsonValue::Null);
    assert_eq!(parse("true"), JsonValue::Boolean(true));
    assert_eq!(parse("false"), JsonValue::Boolean(false));
    assert_eq!(parse("  \n\ttrue \r\n"), JsonValue::Boolean(true));
}

#[test]
fn parser_object_is_single_use_cursor() {
    let mut p = Parser::new("false");
    assert_eq!(p.parse().unwrap(), JsonValue::Boolean(false));
}

#[test]
fn invalid_top_level_token() {
    let e = parse_str("nope").unwrap_err();
    assert_eq!(e.position, 2);
    assert!(parse_str("x").is_err());
    assert_eq!(parse_str("  @").unwrap_err().position, 2);
    assert!(parse_str("").is_err());
    assert_eq!(parse_str("   ").unwrap_err().position, 3);
    assert_eq!(parse_str("tru").unwrap_err().position, 3);
}

#[test]
fn string_escapes() {
    assert_eq!(parse("\"hello\\nworld\\t!\""), JsonValue::String("hello\nworld\t!".to_string()));
    assert_eq!(
        parse("\"\\\"\\\\\\/\\b\\f\\n\\r\\t\""),
        JsonValue::String("\"\\/\u{08}\u{0C}\n\r\t".to_string())
    );
    assert_eq!(JsonValue::String("a\"b".to_string()).render(), "\"a\\\"b\"");
}

#[test]
fn string_escape_errors() {
    let e = parse_str("\"a\\x\"").unwrap_err();
    assert_eq!(e.position, 4);
    assert!(e.message.contains("invalid escape"));
    let e = parse_str("\"a\\u0041\"").unwrap_err();
    assert_eq!(e.position, 4);
    let e = parse_str("\"a\\").unwrap_err();
    assert_eq!(e.position, 3);
}

#[test]
fn unterminated_string() {
    let e = parse_str("\"hello").unwrap_err();
    assert_eq!(e.position, 6);
    assert!(e.message.contains("Unterminated string"));
}

#[test]
fn numeric_literals() {
    assert!(close(number(&parse("42")), 42.0));
    assert!(close(number(&parse("-17")), -17.0));
    assert!(close(number(&parse("3.14")), 3.14));
    assert!(close(number(&parse("1e2")), 100.0));
    assert!(close(number(&parse("1E-2")), 0.01));
    assert!(close(number(&parse("-2e+3")), -2000.0));
    assert!(close(number(&parse("0")), 0.0));
    assert_eq!(parse("-0.5e10"), JsonValue::Number("-0.5e10".to_string()));
}

#[test]
fn numeric_edge_failures() {
    let e = parse_str("-").unwrap_err();
    assert_eq!(e.position, 1);
    assert!(e.message.contains("expected digit after minus sign"));
    let e = parse_str("1.").unwrap_err();
    assert_eq!(e.position, 2);
    assert!(e.message.contains("decimal point"));
    let e = parse_str("1e").unwrap_err();
    assert_eq!(e.position, 2);
    assert!(e.message.contains("exponent"));
    assert_eq!(parse_str("1e+").unwrap_err().position, 3);
    assert_eq!(parse_str("-x").unwrap_err().position, 1);
}

#[test]
fn leading_zero_stops_integer_part() {
    let e = parse_str("01").unwrap_err();
    assert_eq!(e.position, 1);
    assert!(e.message.contains("trailing"));
}

#[test]
fn empty_containers() {
    assert_eq!(parse("[]"), JsonValue::Array(vec![]));
    assert_eq!(parse("{}"), JsonValue::Object(vec![]));
    assert_eq!(parse("[ \n ]"), JsonValue::Array(vec![]));
    assert_eq!(parse("{ }"), JsonValue::Object(vec![]));
}

#[test]
fn trailing_commas() {
    let e = parse_str("[1,2,]").unwrap_err();
    assert_eq!(e.position, 5);
    assert!(e.message.contains("trailing comma in array"));
    let e = parse_str("{\"a\":1,}").unwrap_err();
    assert_eq!(e.position, 7);
    assert!(e.message.contains("trailing comma in object"));
}

#[test]
fn container_errors() {
    assert_eq!(parse_str("[1 2]").unwrap_err().position, 3);
    assert_eq!(parse_str("[1").unwrap_err().position, 2);
    assert_eq!(parse_str("{\"a\" 1}").unwrap_err().position, 6);
    assert_eq!(parse_str("{\"a\"").unwrap_err().position, 4);
    assert_eq!(parse_str("{\"a\":1").unwrap_err().position, 6);
    assert_eq!(parse_str("{\"a\":1 x").unwrap_err().position, 7);
    let e = parse_str("{a:1}").unwrap_err();
    assert_eq!(e.position, 1);
    assert!(e.message.contains("keys must be strings"));
}

#[test]
fn nested_structures() {
    let v = parse("[[1,2],[3,4]]");
    match &v {
        JsonValue::Array(outer) => {
            assert_eq!(outer.len(), 2);
            for inner in outer {
                match inner {
                    JsonValue::Array(xs) => assert_eq!(xs.len(), 2),
                    other => panic!("not an array: {:?}", other),
                }
            }
            assert!(close(number(match &outer[1] {
                JsonValue::Array(xs) => &xs[0],
                _ => unreachable!(),
            }), 3.0));
        }
        other => panic!("not an array: {:?}", other),
    }
    let v = parse("{\"person\":{\"name\":\"Alice\"},\"active\":true}");
    match &v {
        JsonValue::Object(ms) => {
            assert_eq!(ms.len(), 2);
            assert_eq!(ms[0].0, "person");
            match &ms[0].1 {
                JsonValue::Object(inner) => assert_eq!(inner.len(), 1),
                other => panic!("not an object: {:?}", other),
            }
        }
        other => panic!("not an object: {:?}", other),
    }
    let person = member(&v, "person").unwrap();
    assert_eq!(member(person, "name"), Some(&JsonValue::String("Alice".to_string())));
    assert_eq!(member(&v, "active"), Some(&JsonValue::Boolean(true)));
}

#[test]
fn trailing_garbage() {
    let e = parse_str("null x").unwrap_err();
    assert_eq!(e.position, 5);
    assert_eq!(e.message, "unexpected trailing characters");
}

#[test]
fn duplicate_keys_last_wins() {
    let v = parse("{\"a\":1,\"a\":2}");
    match &v {
        JsonValue::Object(ms) => {
            assert_eq!(ms.len(), 1);
            assert_eq!(ms[0].0, "a");
            assert!(close(number(&ms[0].1), 2.0));
        }
        other => panic!("not an object: {:?}", other),
    }
    let v = parse("{\"a\":1,\"b\":2,\"a\":3}");
    match &v {
        JsonValue::Object(ms) => {
            assert_eq!(ms.len(), 2);
            assert_eq!(ms[0], ("a".to_string(), JsonValue::Number("3".to_string())));
            assert_eq!(ms[1], ("b".to_string(), JsonValue::Number("2".to_string())));
        }
        other => panic!("not an object: {:?}", other),
    }
}

#[test]
fn render_scalars_and_containers() {
    assert_eq!(JsonValue::Null.render(), "null");
    assert_eq!(JsonValue::Boolean(true).render(), "true");
    assert_eq!(JsonValue::Boolean(false).render(), "false");
    assert_eq!(JsonValue::Number("1e2".to_string()).render(), "1e2");
    assert_eq!(JsonValue::Array(vec![]).render(), "[]");
    assert_eq!(JsonValue::Object(vec![]).render(), "{}");
    let v = JsonValue::Array(vec![
        JsonValue::Number("1".to_string()),
        JsonValue::Null,
        JsonValue::String("x\n".to_string()),
    ]);
    assert_eq!(v.render(), "[1, null, \"x\\n\"]");
    let o = JsonValue::Object(vec![
        ("k".to_string(), JsonValue::Boolean(true)),
        ("q\"".to_string(), JsonValue::Array(vec![])),
    ]);
    assert_eq!(o.render(), "{\"k\": true, \"q\\\"\": []}");
    assert_eq!(
        JsonValue::String("\u{08}\u{0C}\r\t\\\u{01}".to_string()).render(),
        "\"\\b\\f\\r\\t\\\\\u{01}\""
    );
}

#[test]
fn round_trip() {
    let v = JsonValue::Object(vec![
        ("name".to_string(), JsonValue::String("a \"quoted\"\tvalue\\".to_string())),
        (
            "list".to_string(),
            JsonValue::Array(vec![
                JsonValue::Number("-1.5e-3".to_string()),
                JsonValue::Object(vec![]),
                JsonValue::Array(vec![JsonValue::Null, JsonValue::Boolean(false)]),
            ]),
        ),
    ]);
    assert_eq!(parse(&v.render()), v);
    let text = "{ \"x\" : [ 1 , 2.5 , { \"y\" : \"z\" } ] }";
    let once = parse(text);
    assert_eq!(parse(&once.render()), once);
}

#[test]
fn unicode_whitespace_is_skipped() {
    assert_eq!(parse("\u{00A0}\u{3000}null\u{2028}"), JsonValue::Null);
}

#[test]
fn horizons_queries() {
    let c = NasaClient::new();
    let moon = c.moon_query_url();
    assert_eq!(
        moon,
        "https://ssd.jpl.nasa.gov/api/horizons.api?format=json&COMMAND='301'&OBJ_DATA='YES'&MAKE_EPHEM='YES'&EPHEM_TYPE='OBSERVER'&CENTER='399'&START_TIME='2024-09-07'&STOP_TIME='2024-09-08'&STEP_SIZE='1%20h'&QUANTITIES='1,20'"
    );
    let sun = c.sun_query_url();
    assert!(sun.starts_with("https://ssd.jpl.nasa.gov/api/horizons.api?format=json&COMMAND='10'&"));
    assert!(sun.ends_with("&QUANTITIES='1,20'"));
}

fn failure(text: &str) -> (String, usize) {
    let e = parse_str(text).unwrap_err();
    (e.message, e.position)
}

#[test]
fn error_messages_name_each_failure() {
    assert_eq!(failure("null x"), ("unexpected trailing characters".to_string(), 5));
    assert_eq!(failure("\"hello"), ("Unterminated string".to_string(), 6));
    assert_eq!(failure("\"\\u0041\""), ("invalid escape sequence: \\u".to_string(), 3));
    assert_eq!(failure("\"abc\\"), ("unterminated escape sequence".to_string(), 5));
    assert_eq!(failure("[1,2,]"), ("unexpected trailing comma in array".to_string(), 5));
    assert_eq!(failure("[1 2]"), ("expected ',' or ']' in array, found '2'".to_string(), 3));
    assert_eq!(failure("[1"), ("unterminated array".to_string(), 2));
    assert_eq!(failure("{\"a\":1,}"), ("unexpected trailing comma in object".to_string(), 7));
    assert_eq!(failure("{\"a\" 1}"), ("expected ':' after object key, found '1'".to_string(), 6));
    assert_eq!(failure("{\"a\""), ("expected ':' after object key, found end of input".to_string(), 4));
    assert_eq!(failure("{\"a\":1"), ("unterminated object".to_string(), 6));
    assert_eq!(failure("{\"a\":1 x"), ("expected ',' or '}' in object, found 'x'".to_string(), 7));
    assert_eq!(failure("{a:1}"), ("object keys must be strings".to_string(), 1));
    assert_eq!(failure("  @"), ("unexpected character: @".to_string(), 2));
    assert_eq!(failure("   "), ("unexpected end of input".to_string(), 3));
    assert_eq!(failure("nope"), ("Expected 'u', found 'o'".to_string(), 2));
    assert_eq!(failure("tru"), ("Expected 'e', found end of input".to_string(), 3));
    assert_eq!(failure("-"), ("expected digit after minus sign or invalid number".to_string(), 1));
    assert_eq!(failure("1."), ("expected digit after decimal point".to_string(), 2));
    assert_eq!(failure("1e"), ("expected digit in exponent".to_string(), 2));
}

#[test]
fn parse_leaves_cursor_at_end() {
    let mut p = Parser::new(" true ");
    assert_eq!(p.parse().unwrap(), JsonValue::Boolean(true));
    assert_eq!(p.parse().unwrap_err().message, "unexpected end of input");
}

#[test]
fn clone_copies_deeply() {
    let v = parse("{\"a\":[1,{\"b\":\"c\"}],\"d\":null}");
    let c = v.clone();
    assert_eq!(c, v);
    assert_eq!(c.render(), v.render());
}
