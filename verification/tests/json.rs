//! JSON values of headers and index files.

use engram_parser::ordered::StringMap;
use engram_parser::safetensors::access::{
    find, parse_json_rejecting_duplicate_keys, stringify_json_value,
};
use engram_parser::safetensors::json::{
    encode_compact, encode_pretty, number_tokens, with_numbers, write_string, JsonNumber, JsonValue,
};
use engram_parser::safetensors::json_parse::{parse_json, parse_string};

#[test]
fn parses_simple_object() {
    let json = r#"{"key": "value", "num": 42}"#;
    let value = parse_json(json, "test").unwrap();
    let obj = value.as_object().unwrap();
    assert_eq!(find(obj, "key").unwrap().as_str().unwrap(), "value");
    assert_eq!(find(obj, "num").unwrap().as_u64().unwrap(), 42);
}

#[test]
fn parses_arrays() {
    let json = r#"{"shape": [64, 2048], "offsets": [0, 524288]}"#;
    let value = parse_json(json, "test").unwrap();
    let obj = value.as_object().unwrap();
    let shape = find(obj, "shape").unwrap().as_array().unwrap();
    assert_eq!(shape[0].as_u64(), Some(64));
    assert_eq!(shape[1].as_u64(), Some(2048));
}

#[test]
fn rejects_duplicate_keys() {
    let json = r#"{"dup": 1, "dup": 2}"#;
    let err = parse_json(json, "test").unwrap_err();
    assert!(err.to_string().contains("duplicate JSON key"));
}

#[test]
fn parses_escaped_strings() {
    let json = r#"{"key": "value with \"quotes\" and \\backslash"}"#;
    let value = parse_json(json, "test").unwrap();
    let obj = value.as_object().unwrap();
    assert_eq!(
        find(obj, "key").unwrap().as_str().unwrap(),
        "value with \"quotes\" and \\backslash"
    );
}

#[test]
fn compact_string_array_matches_corinth_encoding() {
    let value = JsonValue::Array(vec![JsonValue::String("unused.safetensors".into())]);
    assert_eq!(encode_compact(&value), r#"["unused.safetensors"]"#);
}

#[test]
fn numbers_keep_their_kind() {
    let value = parse_json("[0, 18446744073709551615, -9223372036854775808, 1.50, 2e3]", "n").unwrap();
    let items = value.as_array().unwrap();
    assert_eq!(items[0].as_u64(), Some(0));
    assert_eq!(items[1], JsonValue::Number(JsonNumber::U64(u64::MAX)));
    assert_eq!(items[2], JsonValue::Number(JsonNumber::I64(i64::MIN)));
    assert_eq!(items[2].as_u64(), None);
    assert_eq!(items[3], JsonValue::Number(JsonNumber::Float("1.50".into())));
    assert_eq!(items[4], JsonValue::Number(JsonNumber::Float("2e3".into())));
}

#[test]
fn faults_are_named_with_their_byte_offset() {
    let cases = [
        ("", "offset 0"),
        ("[1,]", "trailing comma in array"),
        ("{\"a\":1,}", "trailing comma in object"),
        ("{a:1}", "expected string key in object"),
        ("[1 2]", "expected ',' or ']' in array, got '2'"),
        ("tru", "invalid boolean"),
        ("nul", "invalid null"),
        ("1 x", "trailing content after JSON value"),
        ("[\"é\", ?]", "at offset 7"),
        ("\"\\ud800\"", "offset"),
    ];
    for (input, expected) in cases {
        let message = parse_json(input, "bad").unwrap_err().to_string();
        assert!(message.contains(expected), "{input}: {message}");
    }
}

#[test]
fn both_encodings_are_read_back() {
    let text = "{\"a\":[],\"b\":{},\"c\":[null,true,false,-5,7,\"x\\n\\u0001\\\"y\"],\"d\":{\"e\":[1]}}";
    let value = parse_json(text, "back").unwrap();
    assert_eq!(encode_compact(&value), text);
    let pretty = encode_pretty(&value);
    assert_eq!(parse_json(&pretty, "back").unwrap(), value);
    assert!(pretty.starts_with("{\n  \"a\": [],\n  \"b\": {},\n  \"c\": [\n    null,\n"));
    assert!(pretty.ends_with("\n}\n"));
}

#[test]
fn keys_are_kept_in_order() {
    let value = parse_json("{\"b\":1,\"a\":2,\"c\":3}", "order").unwrap();
    let keys: Vec<&str> = value.as_object().unwrap().iter().map(|e| e.0.as_str()).collect();
    assert_eq!(keys, vec!["a", "b", "c"]);
}

#[test]
fn documents_name_their_context() {
    let bad_utf8 = parse_json_rejecting_duplicate_keys(&[0xff], "p", "Safetensors header")
        .unwrap_err()
        .to_string();
    assert!(
        bad_utf8.contains(
            "parse Safetensors header JSON: invalid UTF-8 (invalid utf-8 sequence of 1 bytes from index 0)"
        ),
        "{bad_utf8}"
    );
    let bad_json = parse_json_rejecting_duplicate_keys("[".as_bytes(), "p", "Safetensors index")
        .unwrap_err()
        .to_string();
    assert!(bad_json.contains("parse Safetensors index JSON: JSON parse error"), "{bad_json}");
}

#[test]
fn strings_are_read_back_to_their_closing_quote() {
    for text in ["", "plain", "q\"uote", "back\\slash", "\u{0}\u{1f}\n\r\t\u{8}\u{c}", "\u{1F600}/\u{7f}"] {
        let mut out = String::from("x");
        write_string(&mut out, text);
        let end = out.chars().count();
        out.push_str(" \"");
        let chars: Vec<char> = out.chars().collect();
        assert_eq!(parse_string(&chars, 1).unwrap(), (text.to_string(), end));
    }
    let chars: Vec<char> = "x\"".chars().collect();
    let fault = parse_string(&chars, 0).unwrap_err();
    assert_eq!((fault.at, fault.reason.as_str()), (1, "expected '\"', got 'x'"));
    assert_eq!(parse_string(&chars, 1).unwrap_err().reason, "unexpected EOF");
    assert_eq!(parse_string(&chars, 2).unwrap_err().at, 2);
}

#[test]
fn number_texts_take_the_place_of_tokens() {
    let value = parse_json("{\"b\":[1.0,{\"c\":2e3}],\"a\":0.5,\"d\":3}", "n").unwrap();
    assert_eq!(number_tokens(&value), vec!["0.5", "1.0", "2e3"]);
    let mut numbers = StringMap::new();
    numbers.insert("1.0".to_string(), "1".to_string());
    numbers.insert("2e3".to_string(), "2000".to_string());
    let shown = "{\"a\":0.5,\"b\":[1,{\"c\":2000}],\"d\":3}";
    assert_eq!(encode_compact(&with_numbers(&value, &numbers)), shown);
    assert_eq!(stringify_json_value(&value, &numbers), shown);
    assert_eq!(stringify_json_value(&JsonValue::String("1.0".into()), &numbers), "1.0");
}
