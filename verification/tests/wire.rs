//! Tests of the wire codec.

use rcn::error::RcnError;
use rcn::wire::{compress, decompress};

fn rt(data: &[u8]) {
    let c = compress(data);
    let back = decompress(&c, data.len()).expect("decompress");
    assert_eq!(back, data);
}

#[test]
fn empty_and_tiny() {
    rt(b"");
    rt(b"a");
    rt(b"abcd");
    rt(b"abcde");
}

#[test]
fn redundant_round_trip() {
    let data = b"rcnrcnrcn".repeat(8_000);
    rt(&data);
    let c = compress(&data);
    assert!(c.len() < data.len() / 4, "got {} vs {}", c.len(), data.len());
}

#[test]
fn mixed_round_trip() {
    let mut v = Vec::new();
    for i in 0..4000u32 {
        v.extend_from_slice(format!("the quick brown fox {i}\n").as_bytes());
    }
    rt(&v);
}

#[test]
fn overlapping_match() {
    let data = b"aaaa".repeat(200);
    rt(&data);
}

#[test]
fn incompressible_round_trip() {
    let mut buf = vec![0u8; 4096];
    let mut x = 0x1234_5678u32;
    for b in &mut buf {
        x ^= x << 13;
        x ^= x >> 17;
        x ^= x << 5;
        *b = x as u8;
    }
    rt(&buf);
}

#[test]
fn corrupt_flag_errors() {
    let err = decompress(&[99], 8).unwrap_err();
    assert!(matches!(err, RcnError::CorruptBlock(_)));
}
