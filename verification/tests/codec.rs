//! Tests of the codec as a whole.

use rcn::classify::{BlockKind, Measures};
use rcn::codec::{
    crc32, find_match_distance, match_min_len, method_for_kind, method_label, scan_matches, CodecMode,
    Step, METHOD_BINARY, METHOD_BYTE_EXEC_E8E9, METHOD_BYTE_TEXT, METHOD_COPY, METHOD_TEXT, METHOD_WIRE,
};
use rcn::container::{BlockEntry, Header, VERSION};
use rcn::error::RcnError;
use rcn::model::order::OrderN;
use rcn::model::BitModel;

/// The Shannon entropy of a byte in bits, and the share of printable bytes.
fn measure(buf: &[u8]) -> Measures {
    let mut hist = [0u32; 256];
    for &b in buf {
        hist[b as usize] += 1;
    }
    let n = buf.len() as f32;
    let mut h = 0.0f32;
    for &c in &hist {
        if c > 0 {
            let p = c as f32 / n;
            h -= p * p.log2();
        }
    }
    let printable = buf.iter().filter(|&&b| (0x20..0x7f).contains(&b)).count() as f32 / n;
    Measures { random: h > 7.9, near_random: h > 7.2, printable: printable > 0.85 }
}

/// A predictor of one order-2 model.
fn step(model: Option<OrderN>, step: Step) -> (Option<OrderN>, u16) {
    let mut model = model;
    let mut p = 0;
    match step {
        Step::Rebuild(_) => model = Some(OrderN::new(2)),
        Step::Predict => p = model.as_ref().map_or(2048, |m| m.predict()),
        Step::Learn(bit) => {
            if let Some(m) = model.as_mut() {
                m.update(bit);
            }
        }
        Step::Skip(byte) => {
            if let Some(m) = model.as_mut() {
                for k in (0..8).rev() {
                    m.update((byte >> k) & 1 == 1);
                }
            }
        }
        Step::Decay => {}
    }
    (model, p)
}

fn compress(buf: &[u8]) -> Result<Vec<u8>, RcnError> {
    rcn::codec::compress(buf, &measure, None, &step)
}

fn compress_fast(buf: &[u8]) -> Result<Vec<u8>, RcnError> {
    rcn::codec::compress_fast(buf, &measure, None, &step)
}

fn compress_hybrid(buf: &[u8]) -> Result<Vec<u8>, RcnError> {
    rcn::codec::compress_hybrid(buf, &measure, None, &step)
}

fn compress_wire(buf: &[u8]) -> Result<Vec<u8>, RcnError> {
    rcn::codec::compress_wire(buf, &measure, None, &step)
}

fn compress_general(buf: &[u8]) -> Result<Vec<u8>, RcnError> {
    rcn::codec::compress_general(buf, &measure, None, &step)
}

fn compress_mode(buf: &[u8], mode: CodecMode) -> Result<Vec<u8>, RcnError> {
    rcn::codec::compress_mode(buf, mode, &measure, None, &step)
}

fn compress_level(buf: &[u8], level: rcn::level::Level) -> Result<Vec<u8>, RcnError> {
    rcn::codec::compress_level(buf, level, &measure, None, &step)
}

fn decompress(data: &[u8]) -> Result<Vec<u8>, RcnError> {
    rcn::codec::decompress(data, None, &step)
}

fn classify(buf: &[u8]) -> BlockKind {
    rcn::classify::classify(buf, measure(buf))
}

/// A ~200 KB mixed fixture: text + JSON + a binary blob + an ELF-like byte pattern.
fn mixed_fixture() -> Vec<u8> {
    let mut v = Vec::new();
    let text = b"the quick brown fox jumps over the lazy dog. \\\
        compression mixes many context models so that each bit is predicted well. ";
    for _ in 0..2000 {
        v.extend_from_slice(text);
    }
    let json = b"{\"name\":\"rcn\",\"level\":3,\"models\":[\"order0\",\"order1\",\"order2\",\"sparse\",\"exec\",\"lzp\"],\"ratio\":0.42}\n";
    for _ in 0..500 {
        v.extend_from_slice(json);
    }
    let mut x = 0x9E37_79B9u32;
    for _ in 0..40_000 {
        x ^= x << 13;
        x ^= x >> 17;
        x ^= x << 5;
        v.push(x as u8);
        v.push((x >> 11) as u8);
    }
    for _ in 0..3000 {
        v.extend_from_slice(&[0x7f, b'E', b'L', b'F', 0x55, 0x89, 0xE5, 0xFF, 0xD0]);
    }
    v
}

#[test]
fn compress_then_decompress_returns_original() {
    let original = mixed_fixture();
    assert!(original.len() > 200_000, "fixture should exceed 200 KB");
    let comp = compress(&original).expect("compress");
    let back = decompress(&comp).expect("decompress");
    assert_eq!(back, original, "round-trip mismatch");
}

#[test]
fn compressed_is_smaller_on_redundant_input() {
    let mut input = Vec::new();
    for _ in 0..50_000 {
        input.extend_from_slice(b"rcnrcnrcn");
    }
    let comp = compress(&input).expect("compress");
    assert!(
        comp.len() < input.len(),
        "redundant input should compress (got {} vs {})",
        comp.len(),
        input.len()
    );
}

#[test]
fn empty_input_round_trips() {
    let comp = compress(&[]).expect("compress");
    let back = decompress(&comp).expect("decompress");
    assert!(back.is_empty());
}

#[test]
fn random_block_is_stored_verbatim() {
    let mut buf = [0u8; 4096];
    let mut x = 0x1234_5678u32;
    for b in &mut buf {
        x ^= x << 13;
        x ^= x >> 17;
        x ^= x << 5;
        *b = x as u8;
    }
    let kind = classify(&buf);
    assert_eq!(kind, rcn::classify::BlockKind::Random);
    assert_eq!(method_for_kind(kind), METHOD_COPY);
}

#[test]
fn text_block_uses_text_stack() {
    let text = b"the quick brown fox jumps over the lazy dog. the quick brown fox. ";
    let kind = classify(text);
    assert_eq!(kind, rcn::classify::BlockKind::Text);
    assert_eq!(method_for_kind(kind), METHOD_TEXT);
}

#[test]
fn binary_block_uses_binary_stack() {
    let mut buf = [0u8; 256];
    let mut x = 0x9E37_79B9u32;
    for b in &mut buf {
        x ^= x << 13;
        x ^= x >> 17;
        x ^= x << 5;
        *b = x as u8;
    }
    let kind = classify(&buf);
    assert_eq!(kind, rcn::classify::BlockKind::Binary);
    assert_eq!(method_for_kind(kind), METHOD_BINARY);
}

#[test]
fn json_round_trips() {
    let json = b"{\"name\":\"rcn\",\"level\":3,\"models\":[\"order0\",\"order1\",\"order2\",\"sparse\",\"exec\",\"lzp\"],\"ratio\":0.42}\n";
    let original: Vec<u8> = std::iter::repeat(json.as_ref())
        .take(4000)
        .flatten()
        .copied()
        .collect();
    let comp = compress(&original).expect("compress");
    let back = decompress(&comp).expect("decompress");
    assert_eq!(back, original, "JSON round-trip mismatch");
}

#[test]
fn scan_matches_finds_repeats() {
    let data = b"abcabcabcabcabcabcabcabcabcabcabcabcabcabcabcabcabcabcabcabc";
    let runs = scan_matches(data, rcn::classify::BlockKind::Text, &[]);
    assert!(
        !runs.is_empty(),
        "expected at least one match in repeated data"
    );
    assert!(runs[0].len >= match_min_len(rcn::classify::BlockKind::Text));
}

#[test]
fn scan_matches_empty_on_unique() {
    let mut data = vec![0u8; 256];
    let mut x = 0x1234_5678u32;
    for b in &mut data {
        x ^= x << 13;
        x ^= x >> 17;
        x ^= x << 5;
        *b = x as u8;
    }
    let runs = scan_matches(&data, rcn::classify::BlockKind::Binary, &[]);
    assert!(runs.is_empty(), "expected no matches in random data");
}

#[test]
fn find_match_distance_correct() {
    let data = b"abcabcabcabc";
    let d = find_match_distance(data, 6, 3);
    assert_eq!(d, 3, "expected distance 3, got {}", d);
}

#[test]
fn compress_fast_then_decompress_returns_original() {
    let original = mixed_fixture();
    let comp = compress_fast(&original).expect("compress_fast");
    let back = decompress(&comp).expect("decompress");
    assert_eq!(back, original, "fast round-trip mismatch");
}

#[test]
fn compress_hybrid_then_decompress_returns_original() {
    let original = mixed_fixture();
    let comp = compress_hybrid(&original).expect("compress_hybrid");
    let back = decompress(&comp).expect("decompress");
    assert_eq!(back, original, "hybrid round-trip mismatch");
}

#[test]
fn compress_mode_fast_empty_input_round_trips() {
    let comp = compress_mode(&[], CodecMode::Fast).expect("compress");
    let back = decompress(&comp).expect("decompress");
    assert!(back.is_empty());
}

#[test]
fn compress_mode_fast_json_round_trips() {
    let json = b"{\"name\":\"rcn\",\"level\":3,\"models\":[\"order0\",\"order1\"],\"ratio\":0.42}\n";
    let original: Vec<u8> = std::iter::repeat(json.as_ref())
        .take(4000)
        .flatten()
        .copied()
        .collect();
    let comp = compress_fast(&original).expect("compress_fast");
    let back = decompress(&comp).expect("decompress");
    assert_eq!(back, original);
}

#[test]
fn compress_csv_round_trips() {
    let csv = b"name,age,city\nJohn,30,NYC\nAnna,28,LA\nBob,45,CHI\n";
    let original = csv.repeat(6000);
    assert!(original.len() >= 256 * 1024);
    let comp = compress(&original).expect("compress");
    let back = decompress(&comp).expect("decompress");
    assert_eq!(back, original);
}

#[test]
fn compress_mode_fast_csv_round_trips() {
    let csv = b"name,age,city\nJohn,30,NYC\nAnna,28,LA\nBob,45,CHI\n";
    let original = csv.repeat(6000);
    let comp = compress_fast(&original).expect("compress_fast");
    let back = decompress(&comp).expect("decompress");
    assert_eq!(back, original);
}

#[test]
fn compress_xml_round_trips() {
    let xml = b"<catalog><book id=\"1\">Alpha</book><book id=\"2\">Beta</book></catalog>\n";
    let original = xml.repeat(5000);
    assert!(original.len() >= 256 * 1024);
    let comp = compress(&original).expect("compress");
    let back = decompress(&comp).expect("decompress");
    assert_eq!(back, original);
}

#[test]
fn compress_mode_fast_xml_round_trips() {
    let xml = b"<catalog><book id=\"1\">Alpha</book><book id=\"2\">Beta</book></catalog>\n";
    let original = xml.repeat(5000);
    let comp = compress_fast(&original).expect("compress_fast");
    let back = decompress(&comp).expect("decompress");
    assert_eq!(back, original);
}

#[test]
fn method_label_covers_method_byte_exec_e8e9() {
    assert_ne!(method_label(METHOD_BYTE_EXEC_E8E9), "?");
    assert_eq!(method_label(METHOD_WIRE), "wire-LZ");
}

#[test]
fn compress_wire_then_decompress_returns_original() {
    let original = mixed_fixture();
    let comp = compress_wire(&original).expect("compress_wire");
    let back = decompress(&comp).expect("decompress");
    assert_eq!(back, original, "wire round-trip mismatch");
}

#[test]
fn compress_general_then_decompress_returns_original() {
    let original = mixed_fixture();
    let comp = compress_general(&original).expect("compress_general");
    let back = decompress(&comp).expect("decompress");
    assert_eq!(back, original, "general round-trip mismatch");
}

#[test]
fn decompress_byte_text_two_blocks_does_not_reuse_hist() {
    // METHOD_BYTE_TEXT must not inherit Binary match history across blocks.
    let a = b"alpha alpha alpha alpha alpha alpha".repeat(40);
    let b = b"bravo bravo bravo bravo bravo bravo".repeat(40);
    let ca = rcn::codec::byte_block::compress_byte_with_matches(&a, BlockKind::Text, &[]);
    let cb = rcn::codec::byte_block::compress_byte_with_matches(&b, BlockKind::Text, &[]);
    let mut buf = Vec::new();
    Header {
        version: VERSION,
        flags: 0,
        block_size_log: 16,
        num_blocks: 2,
    }
    .write(&mut buf);
    BlockEntry {
        comp_len: ca.len() as u32,
        orig_len: a.len() as u32,
        method: METHOD_BYTE_TEXT,
        crc32: crc32(&a),
    }
    .write(&mut buf);
    BlockEntry {
        comp_len: cb.len() as u32,
        orig_len: b.len() as u32,
        method: METHOD_BYTE_TEXT,
        crc32: crc32(&b),
    }
    .write(&mut buf);
    buf.extend_from_slice(&ca);
    buf.extend_from_slice(&cb);
    let back = decompress(&buf).expect("decompress");
    let mut expect = a;
    expect.extend_from_slice(&b);
    assert_eq!(back, expect);
}

#[test]
fn compress_level_archive_matches_hybrid() {
    let original = b"level archive should match hybrid default".repeat(200);
    let a = compress_level(&original, rcn::level::Level::Archive).expect("archive");
    let b = compress_hybrid(&original).expect("hybrid");
    assert_eq!(a, b);
}

#[test]
fn decompress_unknown_method_errors() {
    let mut buf = Vec::new();
    Header {
        version: VERSION,
        flags: 0,
        block_size_log: 16,
        num_blocks: 1,
    }
    .write(&mut buf);
    BlockEntry {
        comp_len: 3,
        orig_len: 3,
        method: 99,
        crc32: 0,
    }
    .write(&mut buf);
    buf.extend_from_slice(b"abc");
    let err = decompress(&buf).unwrap_err();
    assert!(matches!(err, RcnError::InvalidContainer(_)));
}

#[test]
fn decompress_crc_mismatch_errors() {
    let original = b"hello world hello world hello world".repeat(100);
    let mut comp = compress_fast(&original).expect("compress_fast");
    // Locate first BlockEntry CRC (after magic+header+optional global dict).
    let (header, at) = Header::read(&comp, 0).expect("header");
    let (_, dict_end) = rcn::container::read_global_dict(&comp, at, header.flags)
    .expect("dict");
    // BlockEntry: comp_len(4)+orig_len(4)+method(1)+crc32(4); CRC starts at +9.
    let crc_off = dict_end + 9;
    comp[crc_off] ^= 0xFF;
    let err = decompress(&comp).unwrap_err();
    assert!(matches!(err, RcnError::CrcMismatch(_, _, _)));
}

#[test]
fn decompress_rejects_comp_len_past_end_without_panic() {
    let mut buf = Vec::new();
    Header {
        version: VERSION,
        flags: 0,
        block_size_log: 16,
        num_blocks: 1,
    }
    .write(&mut buf);
    BlockEntry {
        comp_len: 1_000_000,
        orig_len: 4,
        method: METHOD_COPY,
        crc32: 0,
    }
    .write(&mut buf);
    buf.extend_from_slice(b"tiny");
    let err = decompress(&buf).unwrap_err();
    assert!(matches!(
        err,
        RcnError::TruncatedStream(_) | RcnError::InvalidContainer(_)
    ));
}
