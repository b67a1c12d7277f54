//! Tests of the sparse model.

use rcn::model::sparse::Sparse;
use rcn::model::BitModel;

#[test]
fn sparse_adapts_toward_one_after_ones() {
    let mut m = Sparse::new();
    for _ in 0..12 {
        m.update(true);
    }
    assert!(m.predict() > 2048);
}

#[test]
fn sparse_reset_clears_context() {
    let mut m = Sparse::new();
    m.update(true);
    m.reset();
    assert!((i32::from(m.predict()) - 2048).abs() <= 1);
}
