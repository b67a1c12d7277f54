//! Tests of the match finder.

use rcn::model::lzp::{Lzp, MIN_MATCH};

#[test]
fn chain_finds_longest_repeat() {
    let data = b"abcabcabcabcabcabc";
    let mut lzp = Lzp::new();
    for i in 1..=8 {
        lzp.train_at(data, i);
    }
    let m = lzp.longest_match(data, 9);
    assert!(m.is_some_and(|l| l >= MIN_MATCH));
}

#[test]
fn chain_no_match_on_unique_prefix() {
    let data = b"abcdefgh";
    let lzp = Lzp::new();
    assert!(lzp.longest_match(data, 4).is_none());
}
