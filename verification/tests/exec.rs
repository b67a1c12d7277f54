//! Tests of the executable model.

use rcn::model::exec::Exec;
use rcn::model::BitModel;

#[test]
fn predicts_uniform_before_context() {
    let m = Exec::new();
    assert_eq!(m.predict(), 2048);
}

#[test]
fn adapts_after_run() {
    let mut m = Exec::new();
    for _ in 0..12 {
        m.update(true);
    }
    assert!(m.predict() > 2048);
}

#[test]
fn reset_clears() {
    let mut m = Exec::new();
    m.update(true);
    m.reset();
    assert_eq!(m.predict(), 2048);
}
