//! Tests of the model of all orders, with its counts blended.

use std::cell::RefCell;

/// The model with its blend: each order's share of ones, mixed with the
/// prediction of the orders below it by the chance of an escape.
struct PpmModel {
    inner: RefCell<rcn::model::ppm::PpmModel>,
}

impl PpmModel {
    fn new(max_order: usize) -> Self {
        Self { inner: RefCell::new(rcn::model::ppm::PpmModel::new(max_order)) }
    }

    fn predict(&self) -> u16 {
        let mut p_lower = 2048.0f64;
        for step in self.inner.borrow_mut().consult().iter().rev() {
            let escape = 1.0 / (f64::from(step.zeros) + f64::from(step.ones));
            let p_bit = f64::from(rcn::model::ctable::prob(step.zeros, step.ones));
            p_lower = ((1.0 - escape) * p_bit + escape * p_lower).clamp(1.0, 4095.0);
        }
        p_lower as u16
    }

    fn update(&mut self, bit: bool) {
        self.inner.borrow_mut().update(bit);
    }

    fn reset(&mut self) {
        self.inner.borrow_mut().reset();
    }
}

#[test]
fn ppm_escapes_to_lower_order_on_sparse_data() {
    // Feed many different random bytes so high-order contexts are almost never hit.
    // With escape blending, predict() should return near 2048 (prior) because
    // non-empty contexts escape aggressively.
    let mut ppm = PpmModel::new(5);
    let mut rng = 0x9E37_79B9u32;
    for _ in 0..1000 {
        rng ^= rng << 13;
        rng ^= rng >> 17;
        rng ^= rng << 5;
        let byte = rng as u8;
        for bit_idx in (0..8).rev() {
            ppm.update((byte >> bit_idx) & 1 == 1);
        }
    }
    let mut sum = 0u64;
    let mut n = 0u32;
    for _ in 0..256 {
        rng ^= rng << 13;
        rng ^= rng >> 17;
        rng ^= rng << 5;
        let byte = rng as u8;
        for bit_idx in (0..8).rev() {
            sum += u64::from(ppm.predict());
            ppm.update((byte >> bit_idx) & 1 == 1);
            n += 1;
        }
    }
    let mean = sum / u64::from(n);
    assert!(
        ((mean as i64) - 2048).abs() <= 256,
        "ppm should escape on sparse data (mean prob = {mean}, expected ~2048)"
    );
}

#[test]
fn ppm_uses_higher_order_on_repetitive_data() {
    // Feed many repeats of the same byte; order-2 context of 0xFF should learn
    // the repetition. With escape blending, the prediction may not exceed 2048 by
    // a large margin on a single byte, so we assert it's at least not *below* prior
    // by more than escape noise — i.e., PPM is learning.
    let mut ppm = PpmModel::new(5);
    for _ in 0..64 {
        for bit_idx in (0..8).rev() {
            ppm.update((0xFF >> bit_idx) & 1 == 1);
        }
    }
    // Over many repetitions, the blended probability should be pulled above 2048
    // by the learned context, even with escape. Use a modest threshold.
    let mut sum = 0u64;
    let mut n = 0u32;
    for _ in 0..64 {
        for bit_idx in (0..8).rev() {
            sum += u64::from(ppm.predict());
            ppm.update((0xFF >> bit_idx) & 1 == 1);
            n += 1;
        }
    }
    let mean = sum / u64::from(n);
    assert!(
        mean > 2048,
        "ppm should learn the repetition (mean prob = {mean}, expected >2048)"
    );
}

#[test]
fn ppm_reset_clears_context() {
    let mut ppm = PpmModel::new(2);
    for bit_idx in (0..8).rev() {
        ppm.update((0xFF >> bit_idx) & 1 == 1);
    }
    ppm.reset();
    assert!(
        (i32::from(ppm.predict()) - 2048).abs() <= 1,
        "after reset, ppm should return prior"
    );
}
