//! Tests of the model with learned escapes, with its counts blended.

use std::cell::RefCell;

/// The model with its blend of orders, escape states and sparse contexts.
struct PpmdSsm {
    inner: RefCell<rcn::model::ppmd_ssm::PpmdSsm>,
}

impl PpmdSsm {
    fn new() -> Self {
        Self { inner: RefCell::new(rcn::model::ppmd_ssm::PpmdSsm::new()) }
    }

    fn predict(&self) -> u16 {
        let walk = self.inner.borrow_mut().consult();
        let mut p_lower = 2048.0f64;
        for step in walk.steps.iter().rev() {
            let total = f64::from(step.zeros) + f64::from(step.ones);
            let factor = f64::from(step.state) / 15.0;
            let escape = (1.0 / total) * (1.0 - 0.5 * factor) + 0.5 * factor;
            let p_bit = f64::from(rcn::model::ctable::prob(step.zeros, step.ones));
            p_lower = ((1.0 - escape) * p_bit + escape * p_lower).clamp(1.0, 4095.0);
        }
        let mut sparse = 2048.0f64;
        for (i, c) in walk.sparse.iter().enumerate() {
            let p = f64::from(rcn::model::ctable::prob(c.zeros, c.ones));
            let weight = 0.3 / (i as f64 + 1.0);
            sparse = (1.0 - weight) * sparse + weight * p;
        }
        (0.7 * p_lower + 0.3 * sparse).clamp(1.0, 4095.0) as u16
    }

    fn update(&mut self, bit: bool) {
        self.inner.borrow_mut().update(bit);
    }

    fn reset(&mut self) {
        self.inner.borrow_mut().reset();
    }

    fn any_escape(&self) -> bool {
        self.inner.borrow().see().any_escape()
    }
}

/// Feed a whole byte (MSB→LSB).
fn feed_byte(m: &mut PpmdSsm, byte: u8) {
    for bit_idx in (0..8).rev() {
        let bit = (byte >> bit_idx) & 1 == 1;
        m.update(bit);
    }
}

#[test]
fn ppmd_ssm_predicts_uniform_when_fresh() {
    let m = PpmdSsm::new();
    assert!(
        (i32::from(m.predict()) - 2048).abs() <= 1,
        "fresh model ~50/50"
    );
}

#[test]
fn ppmd_ssm_adapts_toward_one_after_ones() {
    let mut m = PpmdSsm::new();
    for _ in 0..64 {
        feed_byte(&mut m, 0xFF);
    }
    // After many 0xFF bytes, order context should strongly predict 1-bits.
    assert!(m.predict() > 2048, "after many 0xFF bytes, expect >50%");
}

#[test]
fn ppmd_ssm_reset_clears_context() {
    let mut m = PpmdSsm::new();
    feed_byte(&mut m, 0xFF);
    m.reset();
    assert!((i32::from(m.predict()) - 2048).abs() <= 1);
}

#[test]
fn round_trip_repetitive_text() {
    // The model is causal: predict/update are deterministic, so the decoder
    // produces the same probabilities as the encoder.
    let text: Vec<u8> = b"The quick brown fox. \n".repeat(100);
    let mut m = PpmdSsm::new();
    for &byte in &text {
        feed_byte(&mut m, byte);
    }
    // After seeing repetitive text, the model should be confident (not 50/50).
    let p = m.predict();
    assert!(
        (i32::from(p) - 2048).abs() > 100,
        "model should have learned from repetitive text (p={p})"
    );
}

#[test]
fn see_updates_escape_state() {
    let mut m = PpmdSsm::new();
    // Feed data that creates sparse high-order contexts (where only one symbol
    // is seen), triggering escapes that update SEE states.
    let text: Vec<u8> = b"ab".repeat(50);
    for &byte in &text {
        for bit_idx in (0..8).rev() {
            let bit = (byte >> bit_idx) & 1 == 1;
            m.predict(); // Must call predict before update to set escape state.
            m.update(bit);
        }
    }
    let has_nonzero = m.any_escape();
    assert!(has_nonzero, "SEE states should be updated after training");
}

#[test]
fn sparse_contexts_trained() {
    let mut m = PpmdSsm::new();
    let text: Vec<u8> = b"the quick brown fox jumps over the lazy dog\n".repeat(50);
    for &byte in &text {
        feed_byte(&mut m, byte);
    }
    // At least some sparse contexts should have been visited.
    // We can't directly inspect the CtxTable internals, but predict() should
    // return a valid probability.
    let p = m.predict();
    assert!((1..=4095).contains(&p), "valid probability range");
}
