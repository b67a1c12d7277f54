//! Tests of the delta transform.

use rcn::model::delta::{delta_inverse, delta_transform, detect_stride};

#[test]
fn delta_round_trip_simple() {
    let data = vec![10u8, 12, 15, 13, 20, 25, 22];
    let transformed = delta_transform(&data);
    let recovered = delta_inverse(&transformed);
    assert_eq!(recovered, data);
}

#[test]
fn delta_preserves_length() {
    let data = vec![0u8; 100];
    let transformed = delta_transform(&data);
    assert_eq!(transformed.len(), data.len());
}

#[test]
fn all_zeros() {
    let data = vec![42u8; 50];
    let transformed = delta_transform(&data);
    // First byte stays, rest should be 0
    assert_eq!(transformed[0], 42);
    for &b in &transformed[1..] {
        assert_eq!(b, 0);
    }
    let recovered = delta_inverse(&transformed);
    assert_eq!(recovered, data);
}

#[test]
fn detects_stride() {
    // Repeating pattern: ABABABAB...
    let data: Vec<u8> = (0..100).map(|i| if i % 2 == 0 { 1u8 } else { 2 }).collect();
    let (stride, count) = detect_stride(&data);
    assert_eq!(stride, 2);
    assert!(count > 40); // Most bytes match at stride 2
}
