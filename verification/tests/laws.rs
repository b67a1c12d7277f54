//! The laws on concrete values.

use rcn::classify::BlockKind;
use rcn::codec::method::kind_for_method;
use rcn::codec::search::MatchRun;
use rcn::codec::side::{collect_literals, count_literals, read_side, rebuild, write_side};
use rcn::codec::{build_full_stack, build_stack_for_kind, method_for_kind};
use rcn::model::ctable::prob;
use rcn::model::icm::{IcmModel, StateTable};
use rcn::model::indirect_dmc::{DmcModel, IndirectModel};
use rcn::model::lazy_lzp::LazyLzp;
use rcn::model::lzp::Lzp;
use rcn::model::order::OrderN;
use rcn::model::pairs::{BytePairDict, MAX_DICT_SIZE};
use rcn::model::ppm::PpmModel;
use rcn::model::ppmd_ssm::{PpmdSsm, SeeTable};
use rcn::model::sse_apm::quant;
use rcn::model::stack_enum::{Forecast, StackModel};
use rcn::model::word::WordModel;
use rcn::model::xwrt::{inverse_with_dict, XwrtDictionary};
use rcn::model::{BitModel, ByteAssembler};
use rcn::split_common::{read_len_prefixed, write_len_prefixed};
use rcn::stacks::{BaselineBuilder, HybridPpm3Builder, PpmBuilder};

fn feed<M: BitModel>(m: &mut M, bytes: &[u8]) {
    for &b in bytes {
        for k in (0..8).rev() {
            m.update((b >> k) & 1 == 1);
        }
    }
}

#[test]
fn method_of_a_kind_leads_back() {
    for k in [BlockKind::Random, BlockKind::Text, BlockKind::Binary, BlockKind::Exec] {
        assert_eq!(kind_for_method(method_for_kind(k)).expect("known"), k);
    }
    assert!(kind_for_method(200).is_err());
}

#[test]
fn side_stream_and_literals_rebuild_the_block() {
    let hist = b"hello ";
    let block = b"abchello abcabc";
    let runs = vec![
        MatchRun { pos: 3, len: 6, dist: 9 },
        MatchRun { pos: 12, len: 3, dist: 3 },
    ];
    let mut out = Vec::new();
    write_side(&mut out, &runs);
    let (read, end) = read_side(&out).expect("read");
    assert_eq!(end, out.len());
    let lits = collect_literals(block, &runs);
    assert_eq!(lits, b"abcabc");
    assert_eq!(count_literals(block.len(), &read), lits.len());
    assert_eq!(rebuild(hist, block.len(), &read, &lits), block);
}

#[test]
fn blobs_come_back() {
    let mut out = b"..".to_vec();
    write_len_prefixed(&mut out, b"cell");
    assert_eq!(out, b"..\x04\x00\x00\x00cell");
    assert_eq!(read_len_prefixed(&out, 2).expect("blob"), (b"cell".to_vec(), 10));
    assert!(read_len_prefixed(&out, 3).is_err());
}

#[test]
fn probabilities_follow_the_bits() {
    for zeros in 0..60u32 {
        for ones in 1..60u32 {
            let p = prob(zeros, ones);
            assert!(prob(zeros, ones + 1) >= p);
            assert!(prob(zeros + 1, ones) <= p);
            assert!((1..=4095).contains(&p));
        }
    }
}

#[test]
fn states_count_up_to_five_bits() {
    let t = StateTable::new();
    // The first state stands for one 1: three ones and one zero, in two orders.
    let walk = |bits: &[usize]| bits.iter().fold(0usize, |s, &b| usize::from(t.next_state[s][b]));
    assert_eq!(walk(&[1, 1, 0]), walk(&[0, 1, 1]));
    assert_eq!(t.probs[walk(&[1, 1, 0])], 3071);
    let mut m = IcmModel::default();
    feed(&mut m, &[0xFF; 4]);
    m.reset();
    assert_eq!(m.predict(), 4095);
}

#[test]
fn lazy_finder_follows_the_longest_match() {
    let mut m = LazyLzp::new();
    feed(&mut m, b"abcabcabcabcabcabcabc");
    // 'a', 0x61, follows: its first bit is 0, its second one 1.
    assert_eq!(m.predict(), 512);
    m.update(false);
    assert_eq!(m.predict(), 3584);
    let mut m = LazyLzp::new();
    // Behind "Xabcd" stood 0xFF, behind "Yabcd", later, 0x00.
    feed(&mut m, b"Xabcd\xFF Yabcd\x00 Xabcd");
    assert_eq!(m.predict(), 3584);
    let mut m = LazyLzp::new();
    feed(&mut m, b"none of these");
    assert_eq!(m.predict(), 2048);
    m.train(b"abcdXabcdX", 4);
    assert_eq!(m.find_candidates(b"abcdXabcdX", 9), [(4, 1), (0, 0), (0, 0), (0, 0)]);
}

#[test]
fn match_finder_follows_the_longest_match() {
    let mut m = Lzp::new();
    feed(&mut m, b"Xabcd\xFF Yabcd\x00 Xabcd");
    assert_eq!(m.predict(), 3584);
    let mut m = Lzp::new();
    feed(&mut m, b"Xabcd\xFF Yabcd\x00 Yabcd");
    assert_eq!(m.predict(), 512);
}

#[test]
fn unvisited_orders_escape() {
    let mut m = PpmModel::new(3);
    assert!(m.consult().is_empty());
    for _ in 0..8 {
        m.update(true);
    }
    // The first bit behind 0xFF: order 0 alone has seen a first bit.
    let w = m.consult();
    assert_eq!((w.len(), w[0].order, w[0].zeros, w[0].ones), (1, 0, 32, 33));
    m.update(false);
    m.reset();
    assert!(m.consult().is_empty());
}

#[test]
fn an_order_that_has_seen_both_answers() {
    let mut m = PpmModel::new(1);
    assert!(m.consult().is_empty());
    for byte in [0x41u8, 0xFF, 0x41, 0x00, 0x41] {
        for k in (0..8).rev() {
            m.update((byte >> k) & 1 == 1);
        }
    }
    // Behind 0x41 the first bit was 1 and 0.
    let w = m.consult();
    assert_eq!((w.len(), w[0].order, w[0].zeros, w[0].ones), (1, 1, 33, 33));
}

#[test]
fn two_orders_count_a_bit() {
    let seen = |m: &mut PpmModel| -> Vec<(usize, u32, u32)> {
        m.consult().iter().map(|c| (c.order, c.zeros, c.ones)).collect()
    };
    let byte = |m: &mut PpmModel, b: u8| {
        for k in (0..8).rev() {
            m.update((b >> k) & 1 == 1);
        }
    };
    let mut m = PpmModel::new(2);
    // Nothing was visited: the highest order is next to order 0.
    assert!(seen(&mut m).is_empty());
    byte(&mut m, 0);
    byte(&mut m, 0);
    // The order between has counted nothing, and order 0 is the last one consulted.
    assert_eq!(seen(&mut m), vec![(2, 34, 32), (0, 34, 32)]);
    byte(&mut m, 0x80);
    // It is named twice, and counts twice.
    assert_eq!(seen(&mut m), vec![(0, 34, 34)]);
    // Without a walk order 0 is the only one.
    let mut m = PpmModel::new(2);
    byte(&mut m, 0);
    assert_eq!(seen(&mut m), vec![(0, 34, 32)]);
}

#[test]
fn escape_states_stay_in_range() {
    let mut t = SeeTable::new();
    for _ in 0..20 {
        t.update(2, 77, true);
    }
    assert_eq!(t.get(2, 77), 15);
    assert_eq!(t.get(3, 77), 0);
    for _ in 0..20 {
        t.update(2, 77, false);
    }
    assert_eq!(t.get(2, 77), 0);
    assert!(!t.any_escape());
}

#[test]
fn orders_are_passed_over_until_one_has_seen_both() {
    let mut m = PpmdSsm::new();
    // No context was visited: all orders are passed over.
    assert!(m.consult().steps.is_empty());
    m.update(true);
    assert!(m.see().any_escape());
    m.reset();
    assert!(!m.see().any_escape());
    assert!(m.consult().steps.is_empty());
    for _ in 0..16 {
        m.update(false);
    }
    let w = m.consult();
    // The highest order and order 0 have counted, none between them.
    let steps: Vec<(usize, u32, u32)> =
        w.steps.iter().map(|s| (s.order, s.zeros, s.ones)).collect();
    assert_eq!(steps, vec![(8, 34, 32), (0, 34, 32)]);
    assert_eq!(w.sparse.len(), 3);
}

#[test]
fn bins_are_in_range() {
    for bins in [1usize, 7, 16, 33] {
        for p in 0..=4095u16 {
            assert!(quant(p, bins) < bins);
        }
    }
}

#[test]
fn stacks_hold_their_match_model() {
    for (kind, n, at) in [(BlockKind::Binary, 7, 5), (BlockKind::Exec, 6, 4)] {
        let (models, place) = build_stack_for_kind(kind);
        assert_eq!((models.len(), place), (n, Some(at)));
        assert!(matches!(models[at], StackModel::Lzp(_)));
    }
    assert_eq!(build_stack_for_kind(BlockKind::Random).0.len(), 0);
    assert_eq!(build_full_stack().1, Some(5));
}

#[test]
fn builders_give_a_weight_per_model() {
    let (models, mixer) = HybridPpm3Builder::build();
    assert_eq!((models.len(), mixer.n_models()), (7, 7));
    let (models, mixer) = PpmBuilder::new(4).build();
    assert_eq!((models.len(), mixer.n_models()), (1, 1));
    assert_eq!(BaselineBuilder::build().1.weights(), &vec![65536; 7]);
}

#[test]
fn a_reset_stack_predicts_as_a_new_one() {
    let (mut models, _) = build_stack_for_kind(BlockKind::Exec);
    for m in &mut models {
        m.prepare_block(b"abc");
        for k in 0..100u32 {
            let _ = m.predict();
            m.update(k % 5 == 0);
        }
        m.reset();
    }
    let (mut fresh, _) = build_stack_for_kind(BlockKind::Exec);
    for (a, b) in models.iter_mut().zip(fresh.iter_mut()) {
        match (a.predict(), b.predict()) {
            (Forecast::Ready(p), Forecast::Ready(q)) => assert_eq!(p, q),
            (Forecast::Orders(p), Forecast::Orders(q)) => assert!(p.is_empty() && q.is_empty()),
            _ => panic!("different models"),
        }
    }
}

#[test]
fn models_count_exactly() {
    let mut m = OrderN::new(1);
    feed(&mut m, b"aaa");
    // The first bit after 'a' was 0 twice: 32 ones of 66.
    assert_eq!(m.predict(), prob(34, 32));
    let mut m = DmcModel::default();
    for _ in 0..3 {
        m.update(true);
    }
    assert_eq!((m.wrong_streak(), m.threshold()), (3, 5));
    for _ in 0..100 {
        m.update(true);
        m.reset();
    }
    assert_eq!(m.wrong_streak(), 0);
}

#[test]
fn assembled_bytes() {
    let mut a = ByteAssembler::new(2);
    for &b in b"abc" {
        for k in (0..8).rev() {
            let done = a.push_bit((b >> k) & 1 == 1);
            assert_eq!(done, if k == 0 { Some(b) } else { None });
        }
    }
    assert_eq!(a.last(5), b"bc");
    assert_eq!((a.last_byte(), a.prev_byte(), a.nbits(), a.bytes_len()), (b'c', b'b', 0, 2));
    a.push_bit(true);
    a.push_byte(b'z');
    assert_eq!((a.nbits(), a.last(2)), (1, &b"cz"[..]));
    a.reset();
    assert!(!a.has_byte());
}

#[test]
fn substitutes_need_a_frequent_pair() {
    let mut m = WordModel::new();
    feed(&mut m, b"ababababa");
    // "ab" was seen four times and is the first with a symbol.
    assert_eq!(m.try_substitute(b'b'), Some(0x80));
    assert_eq!(m.try_substitute(b'X'), None);
    assert_eq!(m.words().len(), 0);
    feed(&mut m, b" ");
    assert_eq!(m.words().last(), Some(&b"ababababa"[..]));
}

#[test]
fn dictionary_survives_its_bytes() {
    let text = b"alpha beta gamma alpha beta gamma alpha beta gamma ".repeat(4);
    let dict = XwrtDictionary::build_from_data(&text);
    let back = XwrtDictionary::from_bytes(&dict.to_bytes()).expect("parses");
    assert_eq!(back.id_to_word(), dict.id_to_word());
    let coded = dict.transform(&text);
    assert!(coded.len() <= text.len());
    assert_eq!(inverse_with_dict(&coded, text.len(), &back), text);
}

#[test]
fn a_history_leads_to_its_follower() {
    let mut m = IndirectModel::new(2);
    // "xy" is followed by 0xFF, again and again.
    for _ in 0..20 {
        feed(&mut m, b"xy\xFFab\x00");
    }
    feed(&mut m, b"xy");
    assert!(m.predict() > 2300);
    feed(&mut m, b"\xFFab");
    assert!(m.predict() < 1800);
}

#[test]
fn a_word_is_counted_under_the_context_in_front() {
    let mut m = WordModel::new();
    feed(&mut m, &[0x01]);
    // The one was counted in front of the byte, not behind it.
    assert_eq!(m.predict(), prob(32, 32));
    feed(&mut m, &[0xFF, 0x00, 0x01, 0x00]);
    // Behind 0x00 and 0x01 nothing was seen yet.
    assert_eq!(m.predict(), prob(32, 32));
}

#[test]
fn a_full_dictionary_records_nothing_more() {
    let mut d = BytePairDict::new();
    for n in 0..MAX_DICT_SIZE + 5 {
        for _ in 0..4 {
            d.record_pair([(n / 256) as u8, (n % 256) as u8]);
        }
    }
    assert_eq!(d.len(), MAX_DICT_SIZE);
    assert_eq!(d.lookup([1, 7]), Some(263));
    assert_eq!(d.reverse_lookup(263), Some([1, 7]));
    assert_eq!(d.lookup([8, 1]), None);
}

#[test]
fn wrong_guesses_widen_the_context() {
    let mut m = DmcModel::new(1);
    // An even share counts as a guess of zero, so two ones in a row are wrong.
    m.update(true);
    assert_eq!((m.wrong_streak(), m.predict()), (1, prob(32, 32)));
    m.update(true);
    assert_eq!(m.wrong_streak(), 2);
    // The third one is counted under a wider context.
    m.update(true);
    for bit in [false, false, false, false, false] {
        m.update(bit);
    }
    assert_eq!(m.wrong_streak(), 0);
    // Two zero bytes later the narrow context of two zeros comes back, and its
    // third bit has not counted the one.
    feed(&mut m, &[0, 0]);
    m.update(false);
    m.update(false);
    assert_eq!((m.wrong_streak(), m.predict()), (0, prob(32, 32)));
}

#[test]
fn an_empty_word_with_a_long_token_is_passed_over() {
    let mut bytes = vec![128u8, 0];
    for i in 0..127u8 {
        bytes.extend_from_slice(&[4, b'w', b'o', b'a' + i / 16, b'a' + i % 16]);
    }
    bytes.push(0);
    let dict = XwrtDictionary::from_bytes(&bytes).expect("a dictionary");
    assert_eq!(dict.id_to_word().len(), 128);
    let text = b"woaa q woba";
    let out = dict.transform(text);
    assert_eq!(out, [0x80, b' ', b'q', b' ', 0x90]);
    assert_eq!(inverse_with_dict(&out, text.len(), &dict), text);
}
