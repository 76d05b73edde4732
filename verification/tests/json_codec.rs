use invoker::json::{decode, JsonError, JsonMap, JsonValue};

fn text(s: &str) -> JsonValue {
    JsonValue::Text(String::from(s))
}

#[test]
fn encode_empty_object() {
    let m = JsonMap::new();
    assert_eq!(m.len(), 0);
    assert_eq!(m.encode(), "{}");
}

#[test]
fn decode_empty_object() {
    let m = decode("{}").unwrap();
    assert_eq!(m.len(), 0);
    assert_eq!(m, JsonMap::new());
}

#[test]
fn encode_two_string_entries_exactly() {
    let mut m = JsonMap::new();
    m.insert(String::from("lang"), text("rust"));
    m.insert(String::from("body"), text("json"));
    assert_eq!(m.encode(), "{\"lang\":\"rust\",\"body\":\"json\"}");
}

#[test]
fn encode_boolean_entries_exactly() {
    let mut m = JsonMap::new();
    m.insert(String::from("rust"), JsonValue::Flag(true));
    m.insert(String::from("go"), JsonValue::Flag(false));
    assert_eq!(m.encode(), "{\"rust\":true,\"go\":false}");
}

#[test]
fn encode_escapes_quote_and_backslash() {
    let mut m = JsonMap::new();
    m.insert(String::from("q"), text("say \"hi\" \\ done"));
    assert_eq!(m.encode(), "{\"q\":\"say \\\"hi\\\" \\\\ done\"}");
}

#[test]
fn round_trip_name_and_flag() {
    let mut m = JsonMap::new();
    m.insert(String::from("name"), text("martin"));
    m.insert(String::from("rust"), JsonValue::Flag(true));
    let encoded = m.encode();
    let back = decode(encoded.as_str()).unwrap();
    assert_eq!(back, m);
    assert_eq!(back.get("name"), Some(&text("martin")));
    assert_eq!(back.get("rust"), Some(&JsonValue::Flag(true)));
}

#[test]
fn round_trip_with_escapes() {
    let mut m = JsonMap::new();
    m.insert(String::from("path"), text("a\\b"));
    m.insert(String::from("word"), text("\"quoted\""));
    let back = decode(m.encode().as_str()).unwrap();
    assert_eq!(back, m);
}

#[test]
fn decode_mapping_of_two_strings() {
    let m = decode("{\"lang\":\"x\",\"body\":\"y\"}").unwrap();
    assert_eq!(m.len(), 2);
    assert_eq!(m.get("lang"), Some(&text("x")));
    assert_eq!(m.get("body"), Some(&text("y")));
}

#[test]
fn decode_booleans() {
    let m = decode("{\"rust\":true,\"go\":false}").unwrap();
    assert_eq!(m.get("rust"), Some(&JsonValue::Flag(true)));
    assert_eq!(m.get("go"), Some(&JsonValue::Flag(false)));
}

#[test]
fn decode_rejects_plain_text() {
    assert_eq!(decode("Hello world"), Err(JsonError::Malformed));
}

#[test]
fn decode_rejects_empty_text() {
    assert_eq!(decode(""), Err(JsonError::Malformed));
}

#[test]
fn decode_rejects_unclosed_object() {
    assert_eq!(decode("{\"a\":\"b\""), Err(JsonError::Malformed));
}

#[test]
fn decode_rejects_misspelled_literal() {
    assert_eq!(decode("{\"a\":tru}"), Err(JsonError::Malformed));
}

#[test]
fn decode_rejects_trailing_characters() {
    assert_eq!(decode("{}x"), Err(JsonError::Malformed));
    assert_eq!(decode("{\"a\":true}x"), Err(JsonError::Malformed));
}

#[test]
fn decode_rejects_unknown_escape() {
    assert_eq!(decode("{\"a\":\"b\\n\"}"), Err(JsonError::Malformed));
}

#[test]
fn decode_rejects_duplicate_keys() {
    assert_eq!(decode("{\"a\":\"x\",\"a\":\"y\"}"), Err(JsonError::DuplicateKey));
}

#[test]
fn insert_replaces_existing_key() {
    let mut m = JsonMap::new();
    m.insert(String::from("a"), text("x"));
    m.insert(String::from("a"), text("y"));
    assert_eq!(m.len(), 1);
    assert_eq!(m.get("a"), Some(&text("y")));
}

#[test]
fn insert_keeps_order_of_first_insertion() {
    let mut m = JsonMap::new();
    m.insert(String::from("a"), text("1"));
    m.insert(String::from("b"), text("2"));
    m.insert(String::from("a"), text("3"));
    assert_eq!(m.encode(), "{\"a\":\"3\",\"b\":\"2\"}");
}

#[test]
fn get_missing_key() {
    let mut m = JsonMap::new();
    m.insert(String::from("a"), text("1"));
    assert_eq!(m.get("b"), None);
}
