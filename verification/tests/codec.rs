use pretty_json::decode;
use pretty_json::decode_with_limit;
use pretty_json::encode;
use pretty_json::encode_with_limit;
use pretty_json::ErrorKind;
use pretty_json::Value;

fn chars(s: &str) -> Vec<char> {
    s.chars().collect()
}

fn text(v: &[char]) -> String {
    v.iter().collect()
}

fn key(s: &str) -> Vec<char> {
    s.chars().collect()
}

fn dec(s: &str) -> Result<Value, pretty_json::JsonError> {
    decode(&chars(s))
}

fn enc(v: &Value) -> String {
    text(&encode(v).unwrap())
}

fn err_of(s: &str) -> (ErrorKind, usize) {
    let e = dec(s).unwrap_err();
    (e.kind, e.offset)
}

#[test]
fn scenario_object_with_array_and_null() {
    let v = dec("{\"x\":[1,2,3],\"y\":null}").unwrap();
    match &v {
        Value::Object(pairs) => {
            assert_eq!(pairs.len(), 2);
            assert_eq!(pairs[0].0, key("x"));
            match &pairs[0].1 {
                Value::Array(elems) => {
                    assert_eq!(elems.len(), 3);
                    assert_eq!(elems[0], Value::Number(chars("1")));
                    assert_eq!(elems[1], Value::Number(chars("2")));
                    assert_eq!(elems[2], Value::Number(chars("3")));
                }
                other => panic!("expected an array, got {:?}", other),
            }
            assert_eq!(pairs[1].0, key("y"));
            assert_eq!(pairs[1].1, Value::Null);
        }
        other => panic!("expected an object, got {:?}", other),
    }
    assert_eq!(enc(&v), "{\n  \"x\": [\n    1,\n    2,\n    3\n  ],\n  \"y\": null\n}\n");
}

#[test]
fn scenario_tab_escape() {
    let v = dec("{\"a\": \"tab\\there\"}").unwrap();
    match &v {
        Value::Object(pairs) => {
            assert_eq!(pairs[0].1, Value::String(chars("tab\there")));
        }
        other => panic!("expected an object, got {:?}", other),
    }
    assert_eq!(enc(&v), "{\n  \"a\": \"tab\\there\"\n}\n");
}

#[test]
fn scenario_expected_value_at_closing_brace() {
    assert_eq!(err_of("{\"a\":}"), (ErrorKind::ExpectedValue, 5));
}

#[test]
fn scenario_trailing_content() {
    assert_eq!(err_of("{\"a\":1} garbage"), (ErrorKind::TrailingContent, 8));
}

#[test]
fn scenario_empty_containers_round_trip() {
    let o = dec("{}").unwrap();
    assert_eq!(o, Value::Object(Vec::new()));
    assert_eq!(enc(&o), "{}\n");
    let a = dec("[]").unwrap();
    assert_eq!(a, Value::Array(Vec::new()));
    assert_eq!(enc(&a), "[]\n");
}

#[test]
fn scenario_depth_guard() {
    let mut s = String::new();
    for _ in 0..513 {
        s.push('[');
    }
    for _ in 0..513 {
        s.push(']');
    }
    let e = dec(&s).unwrap_err();
    assert_eq!(e.kind, ErrorKind::MaxDepthExceeded);
    // one level fewer is within the default limit
    let mut s2 = String::new();
    for _ in 0..512 {
        s2.push('[');
    }
    for _ in 0..512 {
        s2.push(']');
    }
    assert!(dec(&s2).is_ok());
}

#[test]
fn depth_limit_is_configurable() {
    assert_eq!(
        decode_with_limit(&chars("[[]]"), 1).unwrap_err().kind,
        ErrorKind::MaxDepthExceeded
    );
    assert!(decode_with_limit(&chars("[]"), 1).is_ok());
    // scalars need no nesting budget at all
    assert!(decode_with_limit(&chars("5"), 0).is_ok());
    assert_eq!(
        decode_with_limit(&chars("[]"), 0).unwrap_err().kind,
        ErrorKind::MaxDepthExceeded
    );
}

#[test]
fn round_trip_of_directly_built_value() {
    let v = Value::Object(vec![
        (key("a"), Value::Number(chars("1"))),
        (
            key("b"),
            Value::Array(vec![
                Value::String(chars("x")),
                Value::Null,
                Value::Bool(true),
                Value::Bool(false),
            ]),
        ),
        (key("c"), Value::Number(chars("-1.5e3"))),
        (key("d"), Value::Object(Vec::new())),
    ]);
    let out = encode(&v).unwrap();
    let back = decode(&out).unwrap();
    assert_eq!(back, v);
}

#[test]
fn encoding_a_decoded_encoding_is_a_fixed_point() {
    let v = dec("{ \"a\" : [ 1 , { \"b\" : null } ] , \"c\" : \"x\" }").unwrap();
    let e1 = encode(&v).unwrap();
    let v2 = decode(&e1).unwrap();
    let e2 = encode(&v2).unwrap();
    assert_eq!(e1, e2);
}

#[test]
fn whitespace_between_tokens_is_insignificant() {
    let a = dec("{\"a\":1,\"b\":[2,3]}").unwrap();
    let b = dec("  {\n\t\"a\" : 1 , \"b\" :\r [ 2 ,\t3 ]\n}  ").unwrap();
    assert_eq!(a, b);
}

#[test]
fn key_order_is_preserved() {
    let v = dec("{\"b\":1,\"a\":2}").unwrap();
    assert_eq!(enc(&v), "{\n  \"b\": 1,\n  \"a\": 2\n}\n");
}

#[test]
fn duplicate_keys_last_write_wins() {
    let v = dec("{\"a\":1,\"b\":2,\"a\":3}").unwrap();
    match &v {
        Value::Object(pairs) => {
            assert_eq!(pairs.len(), 2);
            assert_eq!(pairs[0].0, key("a"));
            assert_eq!(pairs[0].1, Value::Number(chars("3")));
            assert_eq!(pairs[1].0, key("b"));
            assert_eq!(pairs[1].1, Value::Number(chars("2")));
        }
        other => panic!("expected an object, got {:?}", other),
    }
}

#[test]
fn number_lexemes_survive_the_round_trip() {
    let v = dec("[-0, 1.50, 2e10, 2E+3, 0.1e-2, -12345678901234567890]").unwrap();
    assert_eq!(
        enc(&v),
        "[\n  -0,\n  1.50,\n  2e10,\n  2E+3,\n  0.1e-2,\n  -12345678901234567890\n]\n"
    );
}

#[test]
fn string_escapes_decode_and_reencode() {
    let v = dec("\"q\\\" b\\\\ s\\/ f\\f n\\n r\\r t\\t bs\\b\"").unwrap();
    assert_eq!(
        v,
        Value::String(chars("q\" b\\ s/ f\u{000c} n\n r\r t\t bs\u{0008}"))
    );
    // the solidus needs no escape on output; the others keep their short form
    assert_eq!(enc(&v), "\"q\\\" b\\\\ s/ f\\f n\\n r\\r t\\t bs\\b\"\n");
}

#[test]
fn control_characters_reencode_as_unicode_escapes() {
    let v = dec("\"\\u0001\\u001f\"").unwrap();
    assert_eq!(v, Value::String(vec!['\u{0001}', '\u{001f}']));
    assert_eq!(enc(&v), "\"\\u0001\\u001f\"\n");
}

#[test]
fn surrogate_pair_decodes_to_one_scalar() {
    let v = dec("\"\\ud83d\\ude00\"").unwrap();
    assert_eq!(v, Value::String(chars("\u{1f600}")));
    // non-ASCII output stays literal
    assert_eq!(enc(&v), "\"\u{1f600}\"\n");
}

#[test]
fn lone_surrogate_is_rejected() {
    assert_eq!(err_of("\"\\ud800\""), (ErrorKind::InvalidUnicodeEscape, 1));
    assert_eq!(err_of("\"\\udc00x\""), (ErrorKind::InvalidUnicodeEscape, 1));
}

#[test]
fn non_ascii_text_passes_through() {
    let v = dec("\"héllo жизнь\"").unwrap();
    assert_eq!(v, Value::String(chars("héllo жизнь")));
    let back = decode(&encode(&v).unwrap()).unwrap();
    assert_eq!(back, v);
}

#[test]
fn empty_string_round_trips() {
    let v = dec("\"\"").unwrap();
    assert_eq!(v, Value::String(Vec::new()));
    assert_eq!(enc(&v), "\"\"\n");
}

#[test]
fn unterminated_string() {
    assert_eq!(err_of("\"abc"), (ErrorKind::UnterminatedString, 4));
    assert_eq!(err_of("\"abc\\"), (ErrorKind::UnterminatedString, 5));
}

#[test]
fn invalid_escape() {
    assert_eq!(err_of("\"a\\x\""), (ErrorKind::InvalidEscape, 3));
}

#[test]
fn invalid_unicode_escape_short_of_digits() {
    assert_eq!(err_of("\"\\u12\""), (ErrorKind::InvalidUnicodeEscape, 5));
    assert_eq!(err_of("\"\\uzzzz\""), (ErrorKind::InvalidUnicodeEscape, 3));
}

#[test]
fn invalid_numbers() {
    assert_eq!(err_of("01"), (ErrorKind::InvalidNumber, 1));
    assert_eq!(err_of("1."), (ErrorKind::InvalidNumber, 2));
    assert_eq!(err_of("-"), (ErrorKind::InvalidNumber, 1));
    assert_eq!(err_of("1e+"), (ErrorKind::InvalidNumber, 3));
    assert_eq!(err_of("[.5]"), (ErrorKind::UnexpectedToken, 1));
}

#[test]
fn unexpected_token_for_bare_identifiers() {
    assert_eq!(err_of("tru"), (ErrorKind::UnexpectedToken, 0));
    assert_eq!(err_of("truex"), (ErrorKind::UnexpectedToken, 0));
    assert_eq!(err_of("{\"a\": nul}"), (ErrorKind::UnexpectedToken, 6));
    assert_eq!(err_of("%"), (ErrorKind::UnexpectedToken, 0));
}

#[test]
fn expected_colon() {
    assert_eq!(err_of("{\"a\" 1}"), (ErrorKind::ExpectedColon, 5));
}

#[test]
fn expected_comma_or_close() {
    assert_eq!(err_of("[1 2]"), (ErrorKind::ExpectedCommaOrClose, 3));
    assert_eq!(err_of("{\"a\":1 \"b\":2}"), (ErrorKind::ExpectedCommaOrClose, 7));
}

#[test]
fn unexpected_end_of_input() {
    assert_eq!(err_of(""), (ErrorKind::UnexpectedEndOfInput, 0));
    assert_eq!(err_of("   "), (ErrorKind::UnexpectedEndOfInput, 3));
    assert_eq!(err_of("["), (ErrorKind::UnexpectedEndOfInput, 1));
    assert_eq!(err_of("[1,"), (ErrorKind::UnexpectedEndOfInput, 3));
    assert_eq!(err_of("{\"a\":"), (ErrorKind::UnexpectedEndOfInput, 5));
}

#[test]
fn trailing_content_even_when_it_does_not_lex() {
    assert_eq!(err_of("[] \"unterminated"), (ErrorKind::TrailingContent, 3));
    assert_eq!(err_of("1 2"), (ErrorKind::TrailingContent, 2));
}

#[test]
fn trailing_comma_is_rejected() {
    assert_eq!(err_of("[1,]"), (ErrorKind::ExpectedValue, 3));
    assert_eq!(err_of("{\"a\":1,}"), (ErrorKind::ExpectedValue, 7));
}

#[test]
fn keywords_decode() {
    assert_eq!(dec("true").unwrap(), Value::Bool(true));
    assert_eq!(dec("false").unwrap(), Value::Bool(false));
    assert_eq!(dec("null").unwrap(), Value::Null);
}

#[test]
fn scalars_encode_with_trailing_newline() {
    assert_eq!(enc(&Value::Null), "null\n");
    assert_eq!(enc(&Value::Bool(true)), "true\n");
    assert_eq!(enc(&Value::Number(chars("42"))), "42\n");
    assert_eq!(enc(&Value::String(chars("hi"))), "\"hi\"\n");
}

#[test]
fn encoder_depth_guard() {
    let mut v = Value::Null;
    for _ in 0..600 {
        v = Value::Array(vec![v]);
    }
    let e = encode(&v).unwrap_err();
    assert_eq!(e.kind, ErrorKind::MaxDepthExceeded);
    assert!(encode_with_limit(&v, 600).is_ok());
    assert!(encode_with_limit(&Value::Null, 0).is_ok());
}

#[test]
fn error_messages_name_the_problem() {
    let e = dec("{").unwrap_err();
    assert_eq!(e.message(), "unexpected end of input");
    let e2 = dec("{\"a\":}").unwrap_err();
    assert_eq!(e2.message(), "expected a value");
}

#[test]
fn nested_structures_round_trip() {
    let input = "{\"rows\":[{\"id\":1,\"tags\":[\"a\",\"b\"]},{\"id\":2,\"tags\":[]}],\"n\":-3.25e-1}";
    let v = dec(input).unwrap();
    let e1 = encode(&v).unwrap();
    let v2 = decode(&e1).unwrap();
    assert_eq!(v, v2);
    let e2 = encode(&v2).unwrap();
    assert_eq!(e1, e2);
}
