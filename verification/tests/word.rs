//! Tests of the word model and of the word dictionary.

use rcn::model::word::WordModel;
use rcn::model::xwrt::{inverse_with_dict, XwrtDictionary, MAX_XWRT_WORDS, XWRT_ESC};
use rcn::model::BitModel;

#[test]
fn detects_words() {
    let mut m = WordModel::new();
    // Feed "the " — word break after 'e'
    for b in b"the " {
        for bit_idx in (0..8).rev() {
            let bit = (b >> bit_idx) & 1 == 1;
            m.update(bit);
        }
    }
    // Word buffer should have "the"
    let last = m.words().last().unwrap_or(b"");
    assert_eq!(last, b"the");
}

#[test]
fn word_starts_neutral() {
    let m = WordModel::new();
    assert!(
        (i32::from(m.predict()) - 2048).abs() <= 2,
        "new WordModel should start near neutral, got {}",
        m.predict()
    );
}

#[test]
fn adapts_after_repeated_word() {
    let mut m = WordModel::new();
    let text = b"hello hello hello hello hello hello hello hello hello hello ";
    for b in text {
        for bit_idx in (0..8).rev() {
            let bit = ((*b) >> bit_idx) & 1 == 1;
            m.update(bit);
        }
    }
    // After many repetitions of "hello ", the model should have learned
    // something about the pattern.
    assert!(m.words().len() > 0, "should have words in buffer");
}

#[test]
fn word_reset_clears_state() {
    let mut m = WordModel::new();
    for b in b"test test test " {
        for bit_idx in (0..8).rev() {
            m.update(((b) >> bit_idx) & 1 == 1);
        }
    }
    m.reset();
    assert!(
        m.words().len() == 0,
        "word buffer should be empty after reset"
    );
}

#[test]
fn repar_dictionary_builds_from_frequent_pairs() {
    let mut m = WordModel::new();
    // Every pair of "hello world" appears more than four times.
    let text = b"hello world hello world hello world hello world hello world hello world";
    for &b in text {
        for bit_idx in (0..8).rev() {
            let bit = (b >> bit_idx) & 1 == 1;
            m.update(bit);
        }
    }
    // After enough repeats, the dictionary should have at least one entry.
    assert!(
        m.dict().len() > 0,
        "dictionary should have at least one entry after frequent pairs"
    );
}

#[test]
fn xwrt_dictionary_serialization_caps_at_max() {
    // A corpus with many distinct words must serialize only MAX_XWRT_WORDS
    // (ESC + u16 extends past the single-byte slots).
    let mut text = Vec::new();
    for i in 0..1500 {
        text.extend_from_slice(format!("word{i} ").as_bytes());
    }
    let dict = XwrtDictionary::build_from_data(&text);
    let bytes = dict.to_bytes();
    let n = u16::from_le_bytes([bytes[0], bytes[1]]);
    assert_eq!(
        n as usize, MAX_XWRT_WORDS,
        "dict must serialize exactly MAX_XWRT_WORDS"
    );
    let back = XwrtDictionary::from_bytes(&bytes).expect("parses");
    assert_eq!(back.id_to_word().len(), MAX_XWRT_WORDS);
}

#[test]
fn xwrt_global_dict_transform_round_trip() {
    let text = b"the quick brown fox jumps over the lazy dog\n\
the quick brown fox jumps over the lazy dog\n\
the quick brown fox jumps over the lazy dog\n"
        .to_vec();
    let dict = XwrtDictionary::build_from_data(&text);
    let xwrt = dict.transform(&text);
    assert!(xwrt.len() < text.len(), "frequent words should shrink");
    let back = inverse_with_dict(&xwrt, text.len(), &dict);
    assert_eq!(back, text);
}

#[test]
fn xwrt_esc_tokens_round_trip_large_vocab() {
    // Force ids ≥ 127 so ESC + u16 encoding is exercised.
    let mut text = Vec::new();
    for i in 0..200 {
        let w = format!("w{i:03}");
        for _ in 0..3 {
            text.extend_from_slice(w.as_bytes());
            text.push(b' ');
        }
    }
    let dict = XwrtDictionary::build_from_data(&text);
    assert!(dict.id_to_word().len() >= 128);
    let xwrt = dict.transform(&text);
    assert!(
        xwrt.iter().any(|&b| b == XWRT_ESC),
        "expected ESC tokens for ids ≥ 127"
    );
    let back = inverse_with_dict(&xwrt, text.len(), &dict);
    assert_eq!(back, text);
}

#[test]
fn xwrt_skips_breakless_runs() {
    // No word breaks in the stream: the whole run is one >maxlen "word",
    // which the scanner drops. Transform must be an identity passthrough.
    let text = b"rcnrcnrcn".repeat(5000);
    let dict = XwrtDictionary::build_from_data(&text);
    let bytes = dict.to_bytes();
    assert_eq!(&bytes[..2], &[0, 0], "no real words -> empty dict");
    let xwrt = dict.transform(&text);
    assert_eq!(xwrt, text, "empty dict is identity");
}
