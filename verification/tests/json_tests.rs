use json_parser::json::{parse, parse_array, parse_bool, parse_null, parse_object, parse_string};
use json_parser::json::{JsonValue, Rule};

fn num(v: &JsonValue) -> f64 {
    match v {
        JsonValue::Number(bits) => f64::from_bits(*bits),
        _ => panic!("not a number"),
    }
}

#[test]
fn test_stirng() {
    assert_eq!(
        parse_string(r#""1234 asdf" jjjj"#),
        Ok((" jjjj", "1234 asdf"))
    );
}

#[test]
fn test_bool() {
    assert_eq!(parse_bool("true"), Ok(("", true)));
    assert_eq!(parse_bool("falseff"), Ok(("ff", false)));
}

#[test]
fn test_array() {
    let (rem, es) = parse_array("[123.4]").unwrap();
    assert_eq!(rem, "");
    assert_eq!(es.len(), 1);
    assert_eq!(num(&es[0]), 123.4);

    let (rem, es) = parse_array(r#"[ 333,  "wow"   ,null  ]"#).unwrap();
    assert_eq!(rem, "");
    assert_eq!(es.len(), 3);
    assert_eq!(num(&es[0]), 333.);
    assert_eq!(es[1], JsonValue::Str("wow".to_string()));
    assert_eq!(es[2], JsonValue::Null);
}

#[test]
fn test_nested() {
    let (rem, es) = parse_array(r#"[1, [2, [3], true, "[not an array]"], false]"#).unwrap();
    assert_eq!(rem, "");
    assert_eq!(es.len(), 3);
    assert_eq!(num(&es[0]), 1.);
    match &es[1] {
        JsonValue::Array(inner) => {
            assert_eq!(inner.len(), 4);
            assert_eq!(num(&inner[0]), 2.);
            match &inner[1] {
                JsonValue::Array(deep) => {
                    assert_eq!(deep.len(), 1);
                    assert_eq!(num(&deep[0]), 3.);
                }
                _ => panic!("expected an array"),
            }
            assert_eq!(inner[2], JsonValue::Bool(true));
            assert_eq!(inner[3], JsonValue::Str("[not an array]".to_string()));
        }
        _ => panic!("expected an array"),
    }
    assert_eq!(es[2], JsonValue::Bool(false));
}

#[test]
fn literals_consume_exactly() {
    assert_eq!(parse("null"), Ok(("", JsonValue::Null)));
    assert_eq!(parse("true"), Ok(("", JsonValue::Bool(true))));
    assert_eq!(parse("false"), Ok(("", JsonValue::Bool(false))));
    let (rem, v) = parse_null("nullx").unwrap();
    assert_eq!(rem, "x");
    assert_eq!(v, JsonValue::Null);
}

#[test]
fn string_consumes_through_closing_quote() {
    assert_eq!(parse_string(r#""""#), Ok(("", "")));
    assert_eq!(parse_string(r#""a b"rest"#), Ok(("rest", "a b")));
    // An escaped quote still terminates the string: no escape processing.
    assert_eq!(parse_string(r#""a\"b""#), Ok((r#"b""#, r#"a\"#)));
}

#[test]
fn number_nearest_double() {
    let (rem, v) = parse("11e-1").unwrap();
    assert_eq!(rem, "");
    assert_eq!(num(&v), 1.1);
    let (rem, v) = parse("123E-02").unwrap();
    assert_eq!(rem, "");
    assert_eq!(num(&v), 1.23);
    let (_, v) = parse("-0.5").unwrap();
    assert_eq!(num(&v), -0.5);
    let (_, v) = parse("+3").unwrap();
    assert_eq!(num(&v), 3.0);
    let (_, v) = parse(".5").unwrap();
    assert_eq!(num(&v), 0.5);
    let (_, v) = parse("3.").unwrap();
    assert_eq!(num(&v), 3.0);
    let (_, v) = parse("0.1").unwrap();
    assert_eq!(num(&v), 0.1);
    // The longest matching prefix is consumed, the rest is the remainder.
    let (rem, v) = parse("123K-01").unwrap();
    assert_eq!(rem, "K-01");
    assert_eq!(num(&v), 123.0);
}

#[test]
fn blank_padding_same_value() {
    let plain = parse("[1 , 2]").unwrap().1;
    let padded = parse(" \t\r\n[1 , 2]\n\t ").unwrap().1;
    assert_eq!(plain, padded);
    assert_eq!(parse(" null ").unwrap(), ("", JsonValue::Null));
}

#[test]
fn empty_containers() {
    assert_eq!(parse("[]"), Ok(("", JsonValue::Array(vec![]))));
    assert_eq!(parse("{}"), Ok(("", JsonValue::Object(vec![]))));
}

#[test]
fn duplicate_keys_last_wins() {
    let (rem, v) = parse(r#"{"a":1,"a":2}"#).unwrap();
    assert_eq!(rem, "");
    match v {
        JsonValue::Object(ps) => {
            assert_eq!(ps.len(), 1);
            assert_eq!(ps[0].0, "a");
            assert_eq!(num(&ps[0].1), 2.0);
        }
        _ => panic!("expected an object"),
    }
}

#[test]
fn duplicate_key_overwrites_in_place() {
    let (_, ps) = parse_object(r#"{"a":1, "b":2, "a":3}"#).unwrap();
    assert_eq!(ps.len(), 2);
    assert_eq!(ps[0].0, "a");
    assert_eq!(num(&ps[0].1), 3.0);
    assert_eq!(ps[1].0, "b");
    assert_eq!(num(&ps[1].1), 2.0);
}

#[test]
fn object_pairs_with_blanks() {
    let (rem, ps) = parse_object(r#"{ "k" : [true] , "m" : "x" }"#).unwrap();
    assert_eq!(rem, "");
    assert_eq!(ps.len(), 2);
    assert_eq!(ps[0].0, "k");
    assert_eq!(ps[0].1, JsonValue::Array(vec![JsonValue::Bool(true)]));
    assert_eq!(ps[1].0, "m");
    assert_eq!(ps[1].1, JsonValue::Str("x".to_string()));
}

#[test]
fn nested_mixed_through_parse() {
    let (rem, v) = parse(r#"[1, [2, [3], true, "[not an array]"], false]"#).unwrap();
    assert_eq!(rem, "");
    match v {
        JsonValue::Array(es) => {
            assert_eq!(es.len(), 3);
            assert_eq!(num(&es[0]), 1.0);
            assert!(matches!(es[1], JsonValue::Array(_)));
            assert_eq!(es[2], JsonValue::Bool(false));
        }
        _ => panic!("expected an array"),
    }
}

#[test]
fn trailing_comma_rooted_at_array() {
    let e = parse("[1,2,]").unwrap_err();
    assert_eq!(e.contexts, vec![Rule::Array, Rule::Parse]);
    assert_eq!(e.position, 4);
}

#[test]
fn unterminated_string_rooted_at_string() {
    let e = parse("\"abc").unwrap_err();
    assert_eq!(e.contexts, vec![Rule::Str, Rule::Parse]);
    assert_eq!(e.position, 4);
}

#[test]
fn error_contexts_of_each_rule() {
    assert_eq!(parse_string("abc").unwrap_err().contexts, vec![Rule::Str]);
    assert_eq!(parse_array("x").unwrap_err().contexts, vec![Rule::Array]);
    assert_eq!(parse_object("x").unwrap_err().contexts, vec![Rule::Object]);
    let e = parse("-x").unwrap_err();
    assert_eq!(e.contexts, vec![Rule::Parse]);
    let e = parse("{\"a\":[}").unwrap_err();
    assert_eq!(*e.contexts.last().unwrap(), Rule::Parse);
}

#[test]
fn incomplete_exponent_fails() {
    assert!(parse("12e").is_err());
    assert!(parse("12e+").is_err());
    assert!(parse("[1, 2e+]").is_err());
}

#[test]
fn blanks_inside_empty_containers_fail() {
    // The separated-list rules backtrack to just after the opening
    // bracket, so an empty container may hold no blanks.
    assert!(parse("[ ]").is_err());
    assert!(parse("{ }").is_err());
}

#[test]
fn malformed_inputs_fail() {
    assert!(parse("").is_err());
    assert!(parse("   ").is_err());
    assert!(parse("nul").is_err());
    assert!(parse("tru").is_err());
    assert!(parse("[1 2]").is_err());
    assert!(parse("{\"a\" 1}").is_err());
    assert!(parse("{\"a\":}").is_err());
    assert!(parse("{1:2}").is_err());
}
