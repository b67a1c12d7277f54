//! Exact values of formats and formulas.

use rcn::bwt::rotation::build_sa;
use rcn::bwt::stages::{pack_selectors, unpack_selector};
use rcn::bwt::trial::trial_sizes;
use rcn::bwt::{
    bwt_forward, bwt_mtf_decode, bwt_mtf_encode, compress_text_with_trial, lzp_decode, lzp_encode,
    mtf_transform, rle0, BwtPipeline,
};
use rcn::bytecodec::{compress_block, decompress_block, hash2};
use rcn::classify::{has_exec_markers, BlockKind};
use rcn::codec::search::{append_match_hist, match_byte_from_hist};
use rcn::codec::varint::{read_varint, write_varint};
use rcn::codec::{find_match_distance, method_for_kind, scan_matches};
use rcn::container::{crc32, write_global_dict, BlockEntry, Header, VERSION};
use rcn::entropy::range::{BitDecoder, BitEncoder};
use rcn::entropy::side_fse::{normalize_freqs, pack_side_stream};
use rcn::level::{engine_of_switches, resolve_engine, Level};
use rcn::codec::CodecMode;
use rcn::model::ctable::{prob, CtxTable};
use rcn::model::delta::{delta_inverse, delta_transform};
use rcn::model::e8e9::{e8e9_inverse, e8e9_transform};
use rcn::model::lzp::Lzp;
use rcn::model::pairs::BytePairDict;
use rcn::model::word::word_hash;
use rcn::model::xwrt::XwrtDictionary;
use rcn::wire;

#[test]
fn crc_of_known_text() {
    assert_eq!(crc32(b"123456789"), 0xCBF4_3926);
    assert_eq!(crc32(b""), 0);
}

#[test]
fn header_and_entry_bytes() {
    let mut buf = Vec::new();
    Header { version: VERSION, flags: 1, block_size_log: 16, num_blocks: 0x0102_0304 }.write(&mut buf);
    assert_eq!(buf, b"RCN1\x01\x01\x10\x04\x03\x02\x01");
    let mut buf = Vec::new();
    BlockEntry { comp_len: 1, orig_len: 0x0A0B_0C0D, method: 7, crc32: 0xFFEE_DDCC }.write(&mut buf);
    assert_eq!(buf, [1, 0, 0, 0, 0x0D, 0x0C, 0x0B, 0x0A, 7, 0xCC, 0xDD, 0xEE, 0xFF]);
    let mut buf = Vec::new();
    assert_eq!(write_global_dict(&mut buf, b"ab"), 6);
    assert_eq!(buf, [2, 0, 0, 0, b'a', b'b']);
}

#[test]
fn bit_streams() {
    // Nothing coded: the lower bound of the state, 2^23.
    assert_eq!(BitEncoder::new().finish(), [0, 0, 0x80, 0]);
    // One bit at even odds: the state doubles, and the interval of a one starts
    // at 2048.
    let mut e = BitEncoder::new();
    e.encode_bit(true, 2048);
    assert_eq!(e.finish(), [0x00, 0x08, 0x00, 0x01]);
    let mut e = BitEncoder::new();
    e.encode_bit(false, 2048);
    assert_eq!(e.finish(), [0x00, 0x00, 0x00, 0x01]);
}

#[test]
fn bit_coder_keeps_extreme_odds_apart() {
    let mut e = BitEncoder::new();
    for k in 0..2000u32 {
        e.encode_bit(k % 7 == 0, if k % 3 == 0 { 0 } else { 9999 });
    }
    let s = e.finish();
    let mut d = BitDecoder::new(&s).expect("start");
    for k in 0..2000u32 {
        assert_eq!(d.decode_bit(if k % 3 == 0 { 0 } else { 9999 }).expect("bit"), k % 7 == 0);
    }
}

#[test]
fn suffixes_of_banana() {
    assert_eq!(build_sa(b"banana"), [5, 3, 1, 0, 4, 2]);
    assert_eq!(build_sa(b""), Vec::<usize>::new());
}

#[test]
fn bwt_of_banana() {
    assert_eq!(bwt_forward(b"banana"), b"nnbaaa\x03\x00\x00\x00");
    let d = b"banana bandana".to_vec();
    assert_eq!(bwt_mtf_decode(&bwt_mtf_encode(&d)), d);
}

#[test]
fn move_to_front_and_zero_runs() {
    assert_eq!(mtf_transform(&[2, 2, 0, 2]), [2, 0, 1, 1]);
    assert_eq!(rle0(&[5, 0, 0, 0, 0xFF, 1]), [5, 0xFF, 3, 0xFF, 0, 1]);
    assert_eq!(rle0(&[0u8; 300]), [0xFF, 255, 0xFF, 45]);
}

#[test]
fn selectors_two_bits_each() {
    let packed = pack_selectors(&[1, 2, 3, 0, 2]);
    assert_eq!(packed.len(), 2);
    for (i, want) in [1u8, 2, 3, 0, 2].into_iter().enumerate() {
        assert_eq!(unpack_selector(&packed, i), want);
    }
}

#[test]
fn trial_measures_every_pipeline() {
    let text = b"the quick brown fox jumps over the lazy dog. ".repeat(40);
    let jobs = [BwtPipeline::RawCm, BwtPipeline::BwtMtfRle, BwtPipeline::LzpBwtMtf];
    let sizes = trial_sizes(&jobs, &text, None);
    for (p, n) in jobs.into_iter().zip(sizes) {
        assert_eq!(p.encode(&text, None).len(), n);
    }
    let best = compress_text_with_trial(&text, None, false);
    assert_eq!(best.pipeline.encode(&text, None).len(), best.encoded_size);
    assert!(best.encoded_size <= text.len());
}

#[test]
fn lzp_prefilter_round_trips_repeats() {
    let d = b"abcdefgh".repeat(600);
    let e = lzp_encode(&d);
    assert!(e.len() < d.len());
    assert_eq!(lzp_decode(&e, d.len()), d);
}

#[test]
fn varints() {
    let mut out = Vec::new();
    write_varint(&mut out, 300);
    assert_eq!(out, [0xAC, 0x02]);
    assert_eq!(read_varint(&out, 0), Some((300, 2)));
    assert_eq!(read_varint(&[0x80], 0), None);
    let mut out = Vec::new();
    write_varint(&mut out, 127);
    assert_eq!(out, [0x7F]);
}

#[test]
fn match_history() {
    assert_eq!(match_byte_from_hist(b"abc", b"xy", 1), b'y');
    assert_eq!(match_byte_from_hist(b"abc", b"xy", 3), b'c');
    let mut hist = b"old".to_vec();
    append_match_hist(&mut hist, b"new");
    assert_eq!(hist, b"oldnew");
    assert_eq!(find_match_distance(b"abcdabcd", 4, 4), 4);
}

#[test]
fn scanned_matches_reach_into_the_history() {
    let past = b"0123456789abcdefghijklmnopqrstuvwxyz".repeat(2);
    let runs = scan_matches(&past, BlockKind::Binary, &past);
    assert!(!runs.is_empty());
    for r in &runs {
        for k in 0..r.len {
            let at = past.len() + r.pos + k;
            let all: Vec<u8> = past.iter().chain(past.iter()).copied().collect();
            assert_eq!(all[at], all[at - r.dist]);
        }
    }
}

#[test]
fn byte_codec_edges() {
    assert_eq!(compress_block(b""), [0, 0, 0x80, 0]);
    assert_eq!(decompress_block(&compress_block(b"abc"), 3).expect("back"), b"abc");
    assert_eq!(hash2(0, 0), 0);
    // (0x0201 * 0x9E3779B1) mod 2^32, its twelve highest bits.
    assert_eq!(hash2(1, 2), ((0x0201u64 * 0x9E37_79B1) % (1 << 32) / (1 << 20)) as usize);
}

#[test]
fn frequencies_add_up() {
    let mut counts = [0u32; 256];
    counts[7] = 1;
    counts[9] = 1_000_000;
    let f = normalize_freqs(&counts);
    assert_eq!(f.iter().map(|&x| u32::from(x)).sum::<u32>(), 4096);
    assert_eq!((f[7], f[9], f[0]), (1, 4095, 0));
}

#[test]
fn packed_side_stream_never_grows() {
    for n in [0usize, 1, 5, 64, 700] {
        let d: Vec<u8> = (0..n).map(|i| (i * 31 % 251) as u8).collect();
        assert!(pack_side_stream(&d).1.len() <= d.len());
    }
}

#[test]
fn engines() {
    assert_eq!(resolve_engine(None, None), Ok(CodecMode::Hybrid));
    assert_eq!(resolve_engine(Some(Level::Max), None), Ok(CodecMode::Slow));
    assert_eq!(resolve_engine(None, Some(CodecMode::Fast)), Ok(CodecMode::Fast));
    assert_eq!(resolve_engine(Some(Level::Wire), Some(CodecMode::Wire)), Ok(CodecMode::Wire));
    assert_eq!(resolve_engine(Some(Level::Wire), Some(CodecMode::Slow)), Err(CodecMode::Wire));
    assert_eq!(engine_of_switches(false, false, false, false, false), Ok(None));
    assert_eq!(engine_of_switches(false, false, true, false, false), Ok(Some(CodecMode::Wire)));
    assert_eq!(engine_of_switches(true, false, false, false, true), Err(()));
}

#[test]
fn level_numbers_lead_back() {
    for l in [Level::Wire, Level::General, Level::Archive, Level::Max] {
        assert_eq!(Level::from_i32(l.number()), Some(l));
        assert_eq!(Level::from_i32(-l.number()), Some(l));
    }
}

#[test]
fn shares_of_ones() {
    assert_eq!(prob(32, 32), 2047);
    assert_eq!(prob(0, 0), 2048);
    assert_eq!(prob(7, 0), 1);
    assert_eq!(prob(0, 7), 4095);
    assert_eq!(prob(1, 2), 2730);
    assert_eq!(prob(u32::MAX, u32::MAX), 2047);
}

#[test]
fn context_counts() {
    let mut t = CtxTable::new(4);
    assert_eq!(t.get(5), [32, 32]);
    t.update(5, true);
    t.update(5, true);
    t.update(5, false);
    assert_eq!(t.get(5), [33, 34]);
    // Sixteen buckets: the multiplier is odd, so 5 and 21 share one.
    assert_eq!(t.get(21), [33, 34]);
    t.reset();
    assert_eq!(t.get(5), [32, 32]);
}

#[test]
fn transforms_for_binary_data() {
    assert_eq!(delta_transform(&[10, 12, 9]), [10, 2, 253]);
    assert_eq!(delta_inverse(&[10, 2, 253]), [10, 12, 9]);
    let code = [0x90, 0xE9, 0x01, 0, 0, 0];
    assert_eq!(e8e9_transform(&code), [0x90, 0xE9, 0x07, 0, 0, 0]);
    assert_eq!(e8e9_inverse(&[0x90, 0xE9, 0x07, 0, 0, 0]), code);
}

#[test]
fn matches_come_with_their_distance() {
    let data = b"wxyzABCDEwxyzABCDE";
    let mut m = Lzp::new();
    for i in 4..=12 {
        m.train_at(data, i);
    }
    assert_eq!(m.best_match(data, 13), Some((5, 9)));
    assert_eq!(m.longest_match(data, 13), Some(5));
}

#[test]
fn fourth_pair_gets_a_symbol() {
    let mut d = BytePairDict::new();
    for k in 0..4 {
        assert_eq!(d.lookup([b'a', b'b']), None, "after {k}");
        d.record_pair([b'a', b'b']);
    }
    assert_eq!(d.lookup([b'a', b'b']), Some(0));
    assert_eq!(d.reverse_lookup(0), Some([b'a', b'b']));
    for _ in 0..4 {
        d.record_pair([b'c', b'd']);
    }
    assert_eq!(d.reverse_lookup(1), Some([b'c', b'd']));
    assert_eq!(d.reverse_lookup(2), None);
    d.reset();
    assert_eq!((d.len(), d.lookup([b'a', b'b'])), (0, None));
}

#[test]
fn fnv_of_words() {
    assert_eq!(word_hash(b""), 0x811C_9DC5);
    assert_eq!(word_hash(b"a"), 0xE40C_292C);
    assert_eq!(word_hash(b"foobar"), 0xBF9C_F968);
}

#[test]
fn words_become_text() {
    let data = b"ab\xFFcd ab\xFFcd ab\xFFcd ".to_vec();
    let dict = XwrtDictionary::build_from_data(&data);
    assert_eq!(dict.id_to_word(), &vec!["ab\u{FFFD}cd".as_bytes().to_vec()]);
}

#[test]
fn executable_marks() {
    assert!(has_exec_markers(b"..\x7fELF.."));
    assert!(has_exec_markers(&[0x55, 0x89, 0xE5, 0x48, 0x89, 0xE5]));
    assert!(!has_exec_markers(&[0x55, 0x89, 0xE5, 0, 0, 0]));
    assert_ne!(method_for_kind(BlockKind::Exec), method_for_kind(BlockKind::Binary));
}

#[test]
fn wire_tokens() {
    // Three literals: flag, token with three literals, the literals.
    let c = wire::compress(b"abc");
    assert_eq!(c, [0, 0x30, b'a', b'b', b'c']);
    assert_eq!(wire::decompress(&c, 3).expect("back"), b"abc");
}
