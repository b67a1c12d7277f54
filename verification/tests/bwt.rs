//! Tests of the block transforms and the pipelines.

use rcn::bwt::{
    bwt_forward, bwt_inverse, bwt_mtf_rle_decode, bwt_mtf_rle_encode, compress_text_with_trial,
    lzp_decode, lzp_encode, mtf_inverse, mtf_transform, rle0, rle0_inverse, BwtPipeline,
};

#[test]
fn rle0_round_trip_empty() {
    let encoded = rle0(b"");
    assert!(encoded.is_empty());
    let decoded = rle0_inverse(&encoded);
    assert!(decoded.is_empty());
}

#[test]
fn rle0_round_trip_zeros() {
    let input = vec![0u8; 100];
    let encoded = rle0(&input);
    let decoded = rle0_inverse(&encoded);
    assert_eq!(decoded, input);
}

#[test]
fn rle0_round_trip_mixed() {
    let input: Vec<u8> = (0u8..=255).collect();
    let encoded = rle0(&input);
    let decoded = rle0_inverse(&encoded);
    assert_eq!(decoded, input);
}

#[test]
fn rle0_round_trip_with_0xff() {
    let input = vec![0xFF, 0x00, 0xFF, 0xFF, 0x01, 0x00, 0x00, 0x00];
    let encoded = rle0(&input);
    let decoded = rle0_inverse(&encoded);
    assert_eq!(decoded, input);
}

#[test]
fn rle0_round_trip_long_zeros() {
    let input = vec![0u8; 600];
    let encoded = rle0(&input);
    let decoded = rle0_inverse(&encoded);
    assert_eq!(decoded, input);
}

#[test]
fn rle0_round_trip_lone_0xff() {
    // 0xFF not adjacent to any zeros — must survive.
    let input = vec![0x42, 0xFF, 0x43];
    let encoded = rle0(&input);
    let decoded = rle0_inverse(&encoded);
    assert_eq!(decoded, input);
}

#[test]
fn mtf_round_trip() {
    let input: Vec<u8> = (0u8..=255).cycle().take(1000).collect();
    let encoded = mtf_transform(&input);
    let decoded = mtf_inverse(&encoded);
    assert_eq!(decoded, input);
}

#[test]
fn mtf_round_trip_repetitive() {
    let input = b"abracadabra".repeat(100);
    let encoded = mtf_transform(&input);
    let decoded = mtf_inverse(&encoded);
    assert_eq!(decoded.as_slice(), input);
}

#[test]
fn bwt_round_trip_small() {
    let input = b"banana";
    let bwt = bwt_forward(input);
    let decoded = bwt_inverse(&bwt);
    assert_eq!(decoded, input);
}

#[test]
fn bwt_round_trip_empty() {
    let bwt = bwt_forward(b"");
    let decoded = bwt_inverse(&bwt);
    assert!(decoded.is_empty());
}

#[test]
fn bwt_round_trip_single() {
    let bwt = bwt_forward(&[42u8]);
    let decoded = bwt_inverse(&bwt);
    assert_eq!(decoded, vec![42u8]);
}

#[test]
fn bwt_round_trip_large() {
    let text = b"the quick brown fox jumps over the lazy dog. \n".repeat(200);
    let bwt = bwt_forward(&text);
    let decoded = bwt_inverse(&bwt);
    assert_eq!(decoded, text);
}

#[test]
fn bwt_round_trip_repetitive() {
    // "banana" has repeated substrings — tests rotation-based BWT correctness.
    let text = b"banana".repeat(1000);
    let bwt = bwt_forward(&text);
    let decoded = bwt_inverse(&bwt);
    assert_eq!(decoded, text);
}

#[test]
fn bwt_round_trip_random() {
    let mut buf = vec![0u8; 10_000];
    let mut x = 0x1234_5678u32;
    for b in &mut buf {
        x ^= x << 13;
        x ^= x >> 17;
        x ^= x << 5;
        *b = x as u8;
    }
    let bwt = bwt_forward(&buf);
    let decoded = bwt_inverse(&bwt);
    assert_eq!(decoded, buf);
}

#[test]
fn bwt_pipeline_round_trip() {
    let text = b"the quick brown fox. \n".repeat(500);
    let encoded = bwt_mtf_rle_encode(&text);
    let decoded = bwt_mtf_rle_decode(&encoded);
    assert_eq!(decoded, text);
}

#[test]
fn bwt_pipeline_round_trip_random() {
    let mut buf = vec![0u8; 10_000];
    let mut x = 0x1234_5678u32;
    for b in &mut buf {
        x ^= x << 13;
        x ^= x >> 17;
        x ^= x << 5;
        *b = x as u8;
    }
    let encoded = bwt_mtf_rle_encode(&buf);
    let decoded = bwt_mtf_rle_decode(&encoded);
    assert_eq!(decoded, buf);
}

#[test]
fn bwt_pipeline_round_trip_with_nulls() {
    // Data with embedded null bytes.
    let mut buf = vec![0u8; 5_000];
    let mut x = 0x9876_5432u32;
    for b in &mut buf {
        x ^= x << 13;
        x ^= x >> 17;
        x ^= x << 5;
        *b = (x % 200) as u8; // 0-199, includes 0
    }
    let encoded = bwt_mtf_rle_encode(&buf);
    let decoded = bwt_mtf_rle_decode(&encoded);
    assert_eq!(decoded, buf);
}

#[test]
fn bwt_pipeline_round_trip_with_0xff() {
    // Data with many 0xFF bytes.
    let mut buf = vec![0u8; 5_000];
    for (i, b) in buf.iter_mut().enumerate() {
        *b = if i % 3 == 0 { 0xFF } else { (i % 200) as u8 };
    }
    let encoded = bwt_mtf_rle_encode(&buf);
    let decoded = bwt_mtf_rle_decode(&encoded);
    assert_eq!(decoded, buf);
}

#[test]
fn lzp_round_trip() {
    let mut buf = vec![0u8; 10_000];
    let mut x = 0x1234_5678u32;
    for b in &mut buf {
        x ^= x << 13;
        x ^= x >> 17;
        x ^= x << 5;
        *b = x as u8;
    }
    let encoded = lzp_encode(&buf);
    let decoded = lzp_decode(&encoded, buf.len());
    assert_eq!(decoded, buf);
}

#[test]
fn bwt_pipeline_lzp_bwt_round_trip() {
    let text = b"the quick brown fox. \n".repeat(500);
    let encoded = BwtPipeline::LzpBwtMtf.encode(&text, None);
    let decoded = BwtPipeline::LzpBwtMtf
        .decode(&encoded, text.len(), None)
        .expect("decode");
    assert_eq!(decoded, text);
}

#[test]
fn compress_text_with_trial_selects_smallest() {
    // Repetitive text should favor BWT path.
    let text = b"banana ".repeat(5000);
    let result = compress_text_with_trial(&text, None, false);
    println!(
        "Trial result: {:?}, size={}",
        result.pipeline, result.encoded_size
    );
    assert!(result.pipeline != BwtPipeline::RawCm || result.encoded_size <= text.len());
}

#[test]
fn bwt_pipeline_json_split_round_trip() {
    let text = b"{\"name\":\"John\",\"age\":42,\"city\":\"New York\"}\n".repeat(500);
    let encoded = BwtPipeline::JsonSplit.encode(&text, None);
    let decoded = BwtPipeline::JsonSplit
        .decode(&encoded, text.len(), None)
        .expect("decode");
    assert_eq!(decoded, text);
}

#[test]
fn bwt_pipeline_csv_split_round_trip() {
    let text = b"name,age,city\nJohn,30,NYC\nAnna,28,LA\nBob,45,CHI\n".repeat(200);
    let encoded = BwtPipeline::CsvSplit.encode(&text, None);
    let decoded = BwtPipeline::CsvSplit
        .decode(&encoded, text.len(), None)
        .expect("decode");
    assert_eq!(decoded, text);
}

#[test]
fn bwt_pipeline_xml_split_round_trip() {
    let text = b"<catalog><book id=\"1\">Alpha</book><book id=\"2\">Beta</book></catalog>\n"
        .repeat(200);
    let encoded = BwtPipeline::XmlSplit.encode(&text, None);
    let decoded = BwtPipeline::XmlSplit
        .decode(&encoded, text.len(), None)
        .expect("decode");
    assert_eq!(decoded, text);
}

#[test]
fn bwt_pipeline_xwrt_round_trip() {
    let text = b"hello world hello world hello world".to_vec();
    let encoded = BwtPipeline::XwrtBwtMtfRle.encode(&text, None);
    let decoded = BwtPipeline::XwrtBwtMtfRle
        .decode(&encoded, text.len(), None)
        .expect("decode");
    assert_eq!(decoded, text);
}

#[test]
fn bwt_pipeline_json_split_decode_truncated_payload_returns_err() {
    let err = BwtPipeline::JsonSplit
        .decode(&[0u8; 8], 0, None)
        .unwrap_err();
    assert!(matches!(
        err,
        rcn::error::RcnError::CorruptBlock(_)
    ));
}

#[test]
fn bwt_pipeline_csv_split_decode_bad_col_len_returns_err() {
    // Header claims 1 column with length 100 but no body bytes follow.
    let mut payload = Vec::new();
    payload.extend_from_slice(&10u32.to_le_bytes()); // orig_len
    payload.push(b','); // delim
    payload.push(1); // trailing_nl
    payload.extend_from_slice(&1u16.to_le_bytes()); // ncols
    payload.extend_from_slice(&1u32.to_le_bytes()); // nrows
    payload.extend_from_slice(&1u16.to_le_bytes()); // fields_per_row[0]
    payload.push(0); // selectors (ceil(1/4)=1)
    payload.extend_from_slice(&100u32.to_le_bytes()); // col_len claims 100
    // no column body
    let err = BwtPipeline::CsvSplit
        .decode(&payload, 10, None)
        .unwrap_err();
    assert!(matches!(
        err,
        rcn::error::RcnError::CorruptBlock(_) | rcn::error::RcnError::CsvSplitError(_)
    ));
}

#[test]
fn bwt_pipeline_xml_split_decode_truncated_payload_returns_err() {
    let err = BwtPipeline::XmlSplit
        .decode(&[0u8; 5], 0, None)
        .unwrap_err();
    assert!(matches!(err, rcn::error::RcnError::CorruptBlock(_)));
}

#[test]
fn bwt_pipeline_json_split_decode_merge_failure_not_empty_vec() {
    // Valid-looking header with absurd stream lengths that fail merge.
    let mut payload = Vec::new();
    payload.extend_from_slice(&100u32.to_le_bytes()); // orig_len
    payload.push(0); // selector
    payload.extend_from_slice(&0u32.to_le_bytes());
    payload.extend_from_slice(&0u32.to_le_bytes());
    payload.extend_from_slice(&0u32.to_le_bytes());
    // empty streams → merge length mismatch
    let err = BwtPipeline::JsonSplit
        .decode(&payload, 100, None)
        .unwrap_err();
    assert!(matches!(err, rcn::error::RcnError::JsonSplitError(_)));
}
