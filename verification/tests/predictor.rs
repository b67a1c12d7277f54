//! Tests of what the predictor of bits is asked and told.

use rcn::bwt::BwtPipeline;
use rcn::classify::{BlockKind, Measures};
use rcn::codec::bit_block::{decode_block_plain, encode_block_plain};
use rcn::codec::block::Coder;
use rcn::codec::block_code::{decode_block, encode_block};
use rcn::codec::{compress_mode, compress_mode_diag, decompress, CodecMode, Step};

/// Notes every step; the probability depends on all steps so far.
fn noted(steps: Vec<Step>, step: Step) -> (Vec<Step>, u16) {
    let mut steps = steps;
    let mut h: u32 = 17;
    for s in steps.iter().rev().take(40) {
        let k = match s {
            Step::Rebuild(_) => 1,
            Step::Predict => 2,
            Step::Learn(bit) => 3 + u32::from(*bit),
            Step::Skip(b) => 10 + u32::from(*b),
            Step::Decay => 9,
        };
        h = h.wrapping_mul(31).wrapping_add(k);
    }
    steps.push(step);
    (steps, (1 + h % 4095) as u16)
}

fn flat(_: &[u8]) -> Measures {
    Measures { random: false, near_random: false, printable: false }
}

fn text(_: &[u8]) -> Measures {
    Measures { random: false, near_random: false, printable: true }
}

#[test]
fn a_literal_is_predicted_and_told_bit_by_bit() {
    let (out, steps) = encode_block_plain(&[0xA0], Vec::new(), &noted);
    let bits = [true, false, true, false, false, false, false, false];
    let want: Vec<Step> = bits.iter().flat_map(|&b| [Step::Predict, Step::Learn(b)]).collect();
    assert_eq!(steps, want);
    let (back, told) = decode_block_plain(&out, 1, Vec::new(), &noted).expect("decodes");
    assert_eq!((back, told), (vec![0xA0], want));
}

#[test]
fn a_block_is_framed_and_its_matches_are_told() {
    let block: Vec<u8> = (0..40u8).chain(0..40u8).collect();
    let mut enc = Coder::new();
    let (c, steps) = encode_block(
        CodecMode::Slow,
        &block,
        BlockKind::Binary,
        false,
        None,
        &mut enc,
        Vec::new(),
        &noted,
    );
    assert_eq!(steps[0], Step::Rebuild(BlockKind::Binary));
    assert_eq!(steps[steps.len() - 1], Step::Decay);
    let skipped: Vec<u8> = steps
        .iter()
        .filter_map(|s| if let Step::Skip(b) = s { Some(*b) } else { None })
        .collect();
    assert!(!skipped.is_empty() && block.ends_with(&skipped));
    let asked = steps.iter().filter(|s| matches!(s, Step::Predict)).count();
    assert_eq!(asked, 8 * (block.len() - skipped.len()));
    let mut dec = Coder::new();
    let (back, told) =
        decode_block(c.method, &c.payload, c.len, None, &mut dec, Vec::new(), &noted)
            .expect("decodes");
    assert_eq!((back, told), (block.clone(), steps.clone()));
    // A second block of the kind keeps the models.
    let (_, more) = encode_block(
        CodecMode::Slow,
        &block,
        BlockKind::Binary,
        false,
        None,
        &mut enc,
        Vec::new(),
        &noted,
    );
    assert!(!more.contains(&Step::Rebuild(BlockKind::Binary)));
}

#[test]
fn every_mode_gives_the_input_back() {
    let mut buf: Vec<u8> = b"The quick brown fox. ".repeat(60);
    buf.extend((0..2000u32).map(|i| (i.wrapping_mul(2654435761) >> 24) as u8));
    for mode in
        [CodecMode::Slow, CodecMode::Fast, CodecMode::Hybrid, CodecMode::Wire, CodecMode::General]
    {
        for data in [&buf[..], &buf[..33], &buf[..5], &[]] {
            for seen in [&flat as &dyn Fn(&[u8]) -> Measures, &text] {
                let c = compress_mode(data, mode, &|d: &[u8]| seen(d), Vec::new(), &noted)
                    .expect("compresses");
                assert_eq!(decompress(&c, Vec::new(), &noted).expect("back"), data);
            }
        }
    }
}

#[test]
fn another_predictor_does_not_decode() {
    let buf: Vec<u8> = (0..3000u32).map(|i| (i * i % 251) as u8).collect();
    let c = compress_mode(&buf, CodecMode::Slow, &flat, Vec::new(), &noted).expect("compresses");
    assert!(decompress(&c, (), &|_: (), _: Step| ((), 1000)).is_err());
}

#[test]
fn no_prefix_is_accepted() {
    let buf: Vec<u8> = b"a table, a chair, a table, a chair; ".repeat(20);
    for mode in [CodecMode::Hybrid, CodecMode::Wire, CodecMode::General] {
        let c = compress_mode(&buf, mode, &flat, Vec::new(), &noted).expect("compresses");
        for k in 0..c.len() {
            assert!(decompress(&c[..k], Vec::new(), &noted).is_err(), "{mode:?} {k}");
        }
    }
}

#[test]
fn the_layout_agrees_with_the_reports() {
    let buf: Vec<u8> = b"words and words and more words, ".repeat(3000);
    for mode in [CodecMode::Hybrid, CodecMode::General, CodecMode::Wire, CodecMode::Fast] {
        let (out, diags) =
            compress_mode_diag(&buf, mode, &text, Vec::new(), &noted).expect("compresses");
        assert_eq!(diags.iter().map(|d| d.size_in).sum::<usize>(), buf.len());
        assert_eq!((&out[..4], out[4]), (&b"RCN1"[..], 1));
        assert_eq!(out[7..11], (diags.len() as u32).to_le_bytes());
        let dict = if out[5] == 0 {
            0
        } else {
            4 + u32::from_le_bytes([out[11], out[12], out[13], out[14]]) as usize
        };
        assert_eq!(out[5] == 0, mode == CodecMode::General || mode == CodecMode::Wire);
        let sum: usize = diags.iter().map(|d| d.size_out).sum();
        assert_eq!(out.len(), 11 + dict + 13 * diags.len() + sum);
        for (i, d) in diags.iter().enumerate() {
            assert_eq!(out[11 + dict + 13 * i + 8], d.method);
        }
        assert_eq!(compress_mode(&buf, mode, &text, Vec::new(), &noted).expect("again"), out);
    }
}

#[test]
fn markup_with_the_marker_byte_comes_back() {
    let mut buf = b"<?xml version=\"1.0\"?>".to_vec();
    while buf.len() < 270_000 {
        buf.extend_from_slice(b"<na\xFEme attr=\"value\">text text</name>\n");
    }
    let c = compress_mode(&buf, CodecMode::Fast, &text, (), &|_: (), _: Step| ((), 0))
        .expect("compresses");
    assert!(decompress(&c, (), &|_: (), _: Step| ((), 0)).expect("back") == buf);
}

#[test]
fn a_table_with_very_wide_rows_comes_back() {
    let row: Vec<u8> = b"a,".repeat(70_000);
    let mut buf = Vec::new();
    for _ in 0..3 {
        buf.extend_from_slice(&row);
        buf.push(b'\n');
    }
    let c = compress_mode(&buf, CodecMode::Fast, &text, (), &|_: (), _: Step| ((), 0))
        .expect("compresses");
    assert!(decompress(&c, (), &|_: (), _: Step| ((), 0)).expect("back") == buf);
}

#[test]
fn splits_that_lose_bytes_are_known() {
    assert!(rcn::xml_split::keeps(b"<a b=\"c\">\xFE</a>"));
    assert!(!rcn::xml_split::keeps(b"<a\xFE>x</a>"));
    assert!(rcn::csv_split::keeps(b"a,b\nc\n"));
    assert!(!rcn::csv_split::keeps(&b"a,".repeat(70_000)));
}

#[test]
fn methods_fit_the_kinds() {
    let buf: Vec<u8> = (0..5000u32).map(|i| (i * 7 % 256) as u8).collect();
    let methods = |mode: CodecMode, seen: &dyn Fn(&[u8]) -> Measures| {
        compress_mode_diag(&buf, mode, &|d: &[u8]| seen(d), Vec::new(), &noted)
            .expect("compresses")
            .1
            .iter()
            .map(|d| (d.kind.clone(), d.method, d.size_in == d.size_out))
            .collect::<Vec<_>>()
    };
    assert_eq!(methods(CodecMode::General, &text)[0].1, 20);
    assert_eq!(methods(CodecMode::General, &flat)[0].1, 8);
    assert_eq!(methods(CodecMode::Hybrid, &flat)[0].1, 3);
    assert_eq!(methods(CodecMode::Hybrid, &text)[0].1, 8);
    let random = |_: &[u8]| Measures { random: true, near_random: true, printable: false };
    assert_eq!(methods(CodecMode::Hybrid, &random)[0], ("Random".to_string(), 0, true));
}

#[test]
fn a_marker_cut_short_is_none() {
    let s = [0xFE, 3, 0, 0, 0, 1, b'x'];
    assert_eq!(rcn::split_common::parse_marked_fragment(&s, 0), Some((3, 1, 6)));
    assert_eq!(rcn::split_common::parse_marked_fragment(&s, 2), None);
    assert_eq!(rcn::split_common::parse_marked_fragment(&s, 7), None);
    assert_eq!(rcn::split_common::parse_marked_fragment(&s, usize::MAX), None);
}

#[test]
fn a_look_of_markup_is_enough_for_a_trial() {
    let mut buf = b"<?xml version=\"1.0\"?>".to_vec();
    while buf.len() < 270_000 {
        buf.extend_from_slice(b"<na\xFEme attr=\"value\">text text</name>\n");
    }
    assert!(rcn::xml_split::looks_like_xml(&buf) && !rcn::xml_split::keeps(&buf));
    let r = rcn::bwt::compress_text_with_trial(&buf, None, false);
    assert!(r.is_bwt && r.encoded_size < buf.len());
    assert!(matches!(r.pipeline, BwtPipeline::BwtMtfRle | BwtPipeline::LzpBwtMtf));
    // A text of the same length without the look is left as it is.
    let plain = b"plain words and more plain words here. ".repeat(7000);
    let r = rcn::bwt::compress_text_with_trial(&plain, None, false);
    assert_eq!((r.is_bwt, r.encoded_size), (false, plain.len()));
}
