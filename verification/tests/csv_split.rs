//! Tests of the CSV column split.

use rcn::csv_split::{join, looks_like_csv, split};

fn round_trip(data: &[u8]) {
    let streams = split(data);
    let merged = join(&streams).expect("join failed");
    assert_eq!(merged.as_slice(), data, "round-trip mismatch");
}

#[test]
fn split_simple_csv() {
    round_trip(b"name,age,city\nJohn,30,NYC\nAnna,28,LA\n");
}

#[test]
fn split_tsv() {
    round_trip(b"a\tb\tc\n1\t2\t3\n4\t5\t6\n");
}

#[test]
fn split_ragged_rows() {
    round_trip(b"a,b,c\n1,2\n3,4,5\n");
}

#[test]
fn split_quoted_commas() {
    round_trip(b"name,note\n\"Smith, John\",\"hello\"\n");
}

#[test]
fn looks_like_csv_detects() {
    let csv = b"name,age,city,country\nJohn,30,NYC,US\nAnna,28,LA,US\nBob,45,CHI,US\n";
    assert!(looks_like_csv(csv));
}

#[test]
fn looks_like_csv_rejects_text() {
    let text = b"The quick brown fox jumps over the lazy dog. ".repeat(10);
    assert!(!looks_like_csv(&text));
}

#[test]
fn looks_like_csv_rejects_json() {
    let json = b"{\"name\": \"John\", \"age\": 30, \"city\": \"NYC\", \"x\": 1}";
    assert!(!looks_like_csv(json));
}

#[test]
fn columns_padded() {
    let streams = split(b"a,b,c\n1,2\n");
    assert_eq!(streams.ncols(), 3);
    assert_eq!(streams.fields_per_row, vec![3, 2]);
    // Each column has 2 length-prefixed cells.
    for col in &streams.columns {
        let mut n = 0;
        let mut pos = 0;
        while pos + 4 <= col.len() {
            let len = u32::from_le_bytes(col[pos..pos + 4].try_into().unwrap()) as usize;
            pos += 4 + len;
            n += 1;
        }
        assert_eq!(n, 2);
    }
}
