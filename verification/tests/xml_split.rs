//! Tests of the XML stream split.

use rcn::xml_split::{join, looks_like_xml, split};

fn round_trip(data: &[u8]) {
    let streams = split(data);
    let merged = join(&streams, data.len()).expect("join failed");
    assert_eq!(merged.as_slice(), data, "round-trip mismatch");
}

#[test]
fn split_simple_xml() {
    round_trip(b"<root><item id=\"1\">hello</item></root>");
}

#[test]
fn split_xml_declaration() {
    round_trip(b"<?xml version=\"1.0\"?><a>x</a>");
}

#[test]
fn split_self_closing() {
    round_trip(b"<root><br/><img src=\"x.png\"/></root>");
}

#[test]
fn split_with_text_and_attrs() {
    round_trip(b"<person name=\"Ada\" age=\"36\">Lovelace</person>");
}

#[test]
fn looks_like_xml_detects() {
    let xml = b"<?xml version=\"1.0\"?><catalog><book id=\"1\"/><book id=\"2\"/></catalog>";
    assert!(looks_like_xml(xml));
}

#[test]
fn looks_like_xml_detects_plain_tags() {
    let xml = b"<html><body><p>Hello world</p><p>More text</p></body></html>";
    assert!(looks_like_xml(xml));
}

#[test]
fn looks_like_xml_rejects_text() {
    let text = b"The quick brown fox jumps over the lazy dog. ".repeat(10);
    assert!(!looks_like_xml(&text));
}

#[test]
fn streams_separate_attrs_and_text() {
    let streams = split(b"<a href=\"x\">hi</a>");
    assert!(!streams.attrs.is_empty());
    assert_eq!(streams.text, b"hi");
}
