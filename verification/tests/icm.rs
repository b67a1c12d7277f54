//! Tests of the indirect context model.

use rcn::model::icm::{IcmModel, StateTable};
use rcn::model::BitModel;

#[test]
fn icm_predicts_uniform_when_fresh() {
    let m = IcmModel::new(21);
    // Fresh state 0 = (0,1), predicts P(1) > 50%.
    assert!(m.predict() > 2048, "fresh state 0 should predict >50%");
}

#[test]
fn adapts_after_ones() {
    let mut m = IcmModel::new(21);
    for _ in 0..12 {
        m.update(true);
    }
    // After 12 ones, should be in a high state (saturated sink 21 → 2048).
    // The key invariant: after many 1s, predict stays high (>=2048).
    assert!(m.predict() >= 2048, "after 12 ones, predict should be high");
}

#[test]
fn adapts_after_zeros() {
    let mut m = IcmModel::new(21);
    for _ in 0..12 {
        m.update(false);
    }
    assert!(m.predict() <= 2048, "after 12 zeros, predict should be low");
}

#[test]
fn icm_reset_clears_context() {
    let mut m = IcmModel::new(21);
    m.update(true);
    m.update(true);
    m.reset();
    assert_eq!(m.predict(), table().probs[0], "after reset, state should be back to 0");
}

#[test]
fn state_transitions_climb_on_ones() {
    let table = table();
    let mut state = 0usize;
    // First 4 ones climb through high-prob states before saturating.
    for _ in 0..4 {
        state = usize::from(table.next_state[state][1]);
    }
    assert!(
        table.probs[state] >= 2048,
        "after 4 ones, state {} should have high probability, got {}",
        state,
        table.probs[state]
    );
}

fn table() -> StateTable {
    StateTable::new()
}
