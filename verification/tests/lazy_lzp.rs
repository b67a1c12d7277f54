//! Tests of the match finder with short chains.

use rcn::model::lazy_lzp::{LazyLzp, MIN_MATCH};
use rcn::model::BitModel;

#[test]
fn matches_repeated_literal_run() {
    let data = b"abcabcabcabcabcabc";
    let mut lzp = LazyLzp::new();
    for i in 1..=8 {
        lzp.train(data, i);
    }
    let candidates = lzp.find_candidates(data, 9);
    let has_match = candidates.iter().any(|(_, len)| *len >= MIN_MATCH);
    assert!(has_match, "expected at least one match candidate at pos 9");
}

#[test]
fn selects_longest_match() {
    let data = b"abcabcabcabcabcabc";
    let mut lzp = LazyLzp::new();
    for i in 1..=12 {
        lzp.train(data, i);
    }
    let candidates = lzp.find_candidates(data, 12);
    let best = candidates
        .iter()
        .filter(|(_, len)| *len >= MIN_MATCH)
        .max_by_key(|(_, len)| *len);
    assert!(best.is_some(), "expected a match candidate");
}

#[test]
fn reset_clears_chain() {
    let data = b"abcabcabcabcabcabc";
    let mut lzp = LazyLzp::new();
    lzp.train(data, 6);
    lzp.reset();
    let candidates = lzp.find_candidates(data, 9);
    assert!(
        candidates.iter().all(|(_, len)| *len == 0),
        "after reset, chain should be empty"
    );
}
