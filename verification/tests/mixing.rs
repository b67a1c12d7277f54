//! Tests of what selects, weighs and refines the predictions of a stack.

use rcn::model::mixer::LogisticMixer;
use rcn::model::mixer_bank::{mixer_id, BankContext, ByteClass, NUM_MIXERS};
use rcn::model::sse_apm::{quant, CascadeContext, PROB_MAX, SSE_BINS};

#[test]
fn mixer_id_in_range() {
    let id = mixer_id(ByteClass::Vowel, 3, b'a', b'b', 42);
    assert!(id < NUM_MIXERS, "mixer_id {} out of range", id);
}

#[test]
fn mixer_id_deterministic() {
    let a = mixer_id(ByteClass::Space, 5, b'x', b'y', 99);
    let b = mixer_id(ByteClass::Space, 5, b'x', b'y', 99);
    assert_eq!(a, b);
}

#[test]
fn mixer_id_combines_its_parts() {
    // 1 << 9 | 3 << 6 | 1 << 4 | 2 << 2 | 2
    assert_eq!(mixer_id(ByteClass::Vowel, 3, b'a', b'b', 42), 512 + 192 + 16 + 8 + 2);
    assert_eq!(mixer_id(ByteClass::Space, 0, 4, 0, 0), 0);
    assert_eq!(mixer_id(ByteClass::Space, 1, 4, 0, 0), 64);
}

#[test]
fn every_bit_position_has_its_own_mixer() {
    for byte in 0..=255u8 {
        let ids: Vec<usize> = (0..8).map(|p| mixer_id(ByteClass::Other, p, byte, 7, 3)).collect();
        for i in 0..8 {
            assert!(ids[i] < NUM_MIXERS);
            for j in 0..i {
                assert_ne!(ids[i], ids[j]);
            }
        }
    }
}

#[test]
fn two_recent_bytes_select_the_mixer() {
    let id = |bytes: &[u8]| {
        let mut bank = BankContext::new();
        for &b in bytes {
            bank.push_byte(b);
        }
        bank.current_bank_id(2)
    };
    // Spaces end words, so the word hash stays that of no bytes.
    assert_ne!(id(&[b' ', b' ']), id(&[b'\n', b' ']));
    assert_ne!(id(&[b' ', b'\n']), id(&[b' ', b'\t']));
}

#[test]
fn push_byte_advances_context() {
    let mut bank = BankContext::new();
    bank.push_byte(b'a');
    bank.push_byte(b'b');
    assert_eq!(bank.last_byte(), b'b');
    assert_eq!(bank.prev_byte(), b'a');
}

#[test]
fn context_changes_bank_selection() {
    let bank = BankContext::new();
    let id1 = bank.current_bank_id(0);
    let mut bank2 = BankContext::new();
    bank2.push_byte(b'x');
    let id2 = bank2.current_bank_id(0);
    assert_ne!(id1, id2, "different byte context should select different bank");
}

#[test]
fn byte_classes() {
    assert_eq!(ByteClass::classify(b'\n'), ByteClass::Space);
    assert_eq!(ByteClass::classify(b'E'), ByteClass::Vowel);
    assert_eq!(ByteClass::classify(b'y'), ByteClass::Consonant);
    assert_eq!(ByteClass::classify(b'7'), ByteClass::Digit);
    assert_eq!(ByteClass::classify(b'}'), ByteClass::Punct);
    assert_eq!(ByteClass::classify(b'*'), ByteClass::Other);
    assert_eq!(ByteClass::classify(0xC3), ByteClass::Other);
}

#[test]
fn quant_in_range() {
    assert_eq!(quant(0, SSE_BINS), 0);
    assert_eq!(quant(PROB_MAX, SSE_BINS), SSE_BINS - 1);
    assert_eq!(quant(2048, SSE_BINS), SSE_BINS / 2);
}

#[test]
fn cascade_contexts_follow_the_bytes() {
    let mut c = CascadeContext::new();
    for b in [0x12u8, 0x34, 0x56] {
        c.set_context(b);
    }
    assert_eq!(c.sse_ctx(3), 0x56 * 8 + 3);
    assert_eq!(c.sse_ctx(9), 0x56 * 8 + 7);
    assert_eq!(c.apm_ctx(4095), 0x34 * 16 + 15);
    assert_eq!(c.apm2_ctx(), 2);
    c.reset();
    assert_eq!((c.sse_ctx(0), c.apm_ctx(0), c.apm2_ctx()), (0, 0, 0));
}

#[test]
fn weights_are_q16() {
    let mixer = LogisticMixer::new(2);
    assert_eq!(mixer.weights(), &vec![65536, 65536]);
    let ones: Vec<f32> = mixer.weights().iter().map(|&w| w as f32 / 65536.0).collect();
    assert_eq!(ones, vec![1.0, 1.0]);
}

#[test]
fn mixer_sums_and_moves() {
    let mut mixer = LogisticMixer::new(2);
    assert_eq!(mixer.mix_acc(&[100, -40], 3), 65536 * 60);
    mixer.apply(&[10, -20], 3);
    // The base weight and the one of the position both moved.
    assert_eq!(mixer.mix_acc(&[100, -40], 3), 65536 * 60 + 20 * 100 + 40 * 40);
    assert_eq!(mixer.mix_acc(&[100, -40], 4), 65536 * 60 + 10 * 100 + 20 * 40);
    mixer.apply(&[i32::MAX], 0);
    assert_eq!(mixer.weights()[0], i32::MAX);
    mixer.reset();
    assert_eq!(mixer.mix_acc(&[100, -40], 3), 65536 * 60);
    assert_eq!(mixer.n_models(), 2);
}

#[test]
fn replaced_weights_keep_the_position_deltas() {
    let mut mixer = LogisticMixer::new(2);
    mixer.apply(&[10, -5], 2);
    mixer.set_weights(vec![7, 8]);
    assert_eq!(mixer.weights(), &vec![7, 8]);
    assert_eq!(mixer.pos_weights()[0], [0, 0, 10, 0, 0, 0, 0, 0]);
    assert_eq!(mixer.mix_acc(&[1, 1], 2), 17 + 3);
    mixer.set_pos_weights(vec![[1; 8], [0; 8]]);
    assert_eq!(mixer.weights(), &vec![7, 8]);
    assert_eq!(mixer.mix_acc(&[1, 1], 2), 8 + 8);
}
