//! Tests of the order-N model.

use rcn::model::order::OrderN;
use rcn::model::BitModel;

/// Feed a whole byte (MSB→LSB) through a `BitModel`, matching the codec's loop.
fn feed_byte<M: BitModel>(m: &mut M, byte: u8) {
    for bit_idx in (0..8).rev() {
        let bit = (byte >> bit_idx) & 1 == 1;
        m.update(bit);
    }
}

#[test]
fn order_predicts_uniform_when_fresh() {
    let m = OrderN::new(2);
    assert!(
        (i32::from(m.predict()) - 2048).abs() <= 1,
        "fresh model ~50/50"
    );
}

#[test]
fn order_adapts_toward_one_after_ones() {
    let mut m = OrderN::new(1);
    // Feed many 0xFF bytes; an order-1 byte model should learn the repetition
    // and predict >50% for the next 1-bit.
    for _ in 0..12 {
        feed_byte(&mut m, 0xFF);
    }
    assert!(m.predict() > 2048, "after many 0xFF bytes, expect >50%");
}

#[test]
fn order_reset_clears_context() {
    let mut m = OrderN::new(1);
    feed_byte(&mut m, 0xFF);
    m.reset();
    assert!((i32::from(m.predict()) - 2048).abs() <= 1);
}
