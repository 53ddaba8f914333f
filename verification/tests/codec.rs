use memory_cache::codec::decode;
use memory_cache::codec::encode;
use memory_cache::codec::CacheEntry;

fn entry(key: &str, value: &str) -> CacheEntry {
    CacheEntry { key: key.to_string(), value: value.to_string() }
}

#[test]
fn encode_produces_exact_bytes() {
    let bytes = encode(&entry("a", "1"));
    assert_eq!(bytes, br#"{"key":"a","value":"1"}"#.to_vec());
}

#[test]
fn encode_escapes_quotes_and_backslashes() {
    let bytes = encode(&entry("a\"b", "c\\d"));
    assert_eq!(bytes, br#"{"key":"a\"b","value":"c\\d"}"#.to_vec());
}

#[test]
fn round_trip_plain_entry() {
    let e = entry("x", "y");
    let back = decode(&encode(&e)).unwrap();
    assert_eq!(back.key, "x");
    assert_eq!(back.value, "y");
}

#[test]
fn round_trip_empty_key_and_value() {
    let e = entry("", "");
    let back = decode(&encode(&e)).unwrap();
    assert_eq!(back.key, "");
    assert_eq!(back.value, "");
}

#[test]
fn round_trip_entry_needing_escapes() {
    let e = entry("a\"b\\c", "\\\"\\");
    let back = decode(&encode(&e)).unwrap();
    assert_eq!(back.key, "a\"b\\c");
    assert_eq!(back.value, "\\\"\\");
}

#[test]
fn round_trip_non_ascii_text() {
    let e = entry("clé", "värde 値");
    let back = decode(&encode(&e)).unwrap();
    assert_eq!(back.key, "clé");
    assert_eq!(back.value, "värde 値");
}

#[test]
fn decode_rejects_invalid_utf8() {
    assert!(decode(&[0xff, 0xfe, b'{']).is_err());
}

#[test]
fn decode_rejects_truncated_message() {
    assert!(decode(br#"{"key":"a"#).is_err());
    assert!(decode(br#"{"key":"a","value":"1"#).is_err());
    assert!(decode(b"").is_err());
}

#[test]
fn decode_rejects_wrong_structure() {
    assert!(decode(br#"["key","value"]"#).is_err());
    assert!(decode(br#"{"value":"1","key":"a"}"#.as_slice()).is_err());
    assert!(decode(br#"{"key":"a","value":"1"} "#.as_slice()).is_err());
}

#[test]
fn decode_rejects_stray_backslash() {
    assert!(decode(br#"{"key":"a\q","value":"1"}"#).is_err());
    assert!(decode(br#"{"key":"a","value":"1\"}"#).is_err());
}

#[test]
fn encoded_entry_is_valid_json_for_serde() {
    let bytes = encode(&entry("a\"b\\c", "v"));
    let text = String::from_utf8(bytes).unwrap();
    let parsed: serde_json::Value = serde_json::from_str(&text).unwrap();
    assert_eq!(parsed["key"], serde_json::Value::String("a\"b\\c".to_string()));
    assert_eq!(parsed["value"], serde_json::Value::String("v".to_string()));
}

#[test]
fn decode_accepts_serde_encoded_entry() {
    let mut object = serde_json::Map::new();
    object.insert("key".to_string(), serde_json::Value::String("k1".to_string()));
    object.insert("value".to_string(), serde_json::Value::String("v1".to_string()));
    let text = serde_json::to_string(&serde_json::Value::Object(object)).unwrap();
    let back = decode(text.as_bytes()).unwrap();
    assert_eq!(back.key, "k1");
    assert_eq!(back.value, "v1");
}
