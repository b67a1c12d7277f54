//! Tests of the JSON stream split.

use rcn::json_split::{looks_like_json, merge, split};

fn round_trip(data: &[u8]) {
    let streams = split(data);
    let merged = merge(&streams, data.len()).expect("merge failed");
    assert_eq!(merged.as_slice(), data, "round-trip mismatch");
}

#[test]
fn split_simple_json() {
    round_trip(b"{\"name\":\"test\",\"age\":42}");
}

#[test]
fn split_nested_json() {
    round_trip(b"{\"a\":{\"b\":1},\"c\":[2,3]}");
}

#[test]
fn split_with_escaped_quotes() {
    round_trip(b"{\"key\":\"val\\\"ue\"}");
}

#[test]
fn split_with_whitespace() {
    round_trip(b"{\n  \"name\": \"test\",\n  \"age\": 42,\n  \"active\": true\n}");
}

#[test]
fn split_empty_object() {
    round_trip(b"{}");
}

#[test]
fn split_empty_array() {
    round_trip(b"[]");
}

#[test]
fn split_deeply_nested() {
    round_trip(b"{\"a\":{\"b\":{\"c\":{\"d\":\"hello\"}}}}");
}

#[test]
fn looks_like_json_detects_json() {
    let json = b"{\"name\": \"John\", \"age\": 30, \"city\": \"New York\"}";
    assert!(looks_like_json(json));
}

#[test]
fn looks_like_json_rejects_text() {
    let text = b"The quick brown fox jumps over the lazy dog. ".repeat(10);
    assert!(!looks_like_json(&text));
}

#[test]
fn round_trip_larger_json() {
    let input = br#"{"employees":[{"firstName":"John","lastName":"Doe","age":30,"active":true},{"firstName":"Anna","lastName":"Smith","age":28,"active":false},{"firstName":"Peter","lastName":"Jones","age":45,"active":true}]}"#;
    round_trip(input);
}

#[test]
fn split_streams_separate_keys_and_values() {
    let input = b"{\"name\":\"John\",\"age\":42}";
    let streams = split(input);
    assert_eq!(streams.keys, b"nameage");
    assert_eq!(streams.string_values, b"John");
    assert_eq!(streams.numbers, b"42");
}

#[test]
fn split_multiple_keys() {
    let input = b"{\"k1\":\"v1\",\"k2\":\"v2\",\"k3\":\"v3\"}";
    let streams = split(input);
    assert_eq!(streams.keys, b"k1k2k3");
    assert_eq!(streams.string_values, b"v1v2v3");
    round_trip(input);
}
