//! Tests of the indirect model and of the model that counts wrong guesses.

use rcn::model::indirect_dmc::{DmcModel, IndirectModel};
use rcn::model::BitModel;

fn feed_byte<M: BitModel>(m: &mut M, byte: u8) {
    for bit_idx in (0..8).rev() {
        let bit = (byte >> bit_idx) & 1 == 1;
        let _ = m.predict();
        m.update(bit);
    }
}

#[test]
fn indirect_predicts_uniform_when_fresh() {
    let m = IndirectModel::new(2);
    assert!((i32::from(m.predict()) - 2048).abs() <= 1);
}

#[test]
fn indirect_adapts_after_repeat() {
    let mut m = IndirectModel::new(2);
    for _ in 0..20 {
        feed_byte(&mut m, 0xFF);
    }
    assert!(m.predict() != 2048, "should have learned");
}

#[test]
fn indirect_reset_clears() {
    let mut m = IndirectModel::new(2);
    feed_byte(&mut m, 0xAA);
    m.reset();
    assert!((i32::from(m.predict()) - 2048).abs() <= 1);
}

#[test]
fn dmc_predicts_uniform_when_fresh() {
    let m = DmcModel::new(5);
    assert!((i32::from(m.predict()) - 2048).abs() <= 1);
}

#[test]
fn dmc_reset_clears() {
    let mut m = DmcModel::new(5);
    for _ in 0..10 {
        feed_byte(&mut m, 0xFF);
    }
    m.reset();
    assert!((i32::from(m.predict()) - 2048).abs() <= 1);
}
