//! Tests of the call and jump transform.

use rcn::model::e8e9::{e8e9_inverse, e8e9_transform, E8};

#[test]
fn e8e9_round_trip_simple() {
    let code = vec![
        0x55,             // push rbp
        0x48, 0x89, 0xE5, // mov rbp, rsp
        0xE8, 0x10, 0x00, 0x00, 0x00, // call $+20 (relative offset 0x10)
        0xE9, 0x00, 0x00, 0x00, 0x00, // jmp $+5 (relative offset 0)
        0xC3, // ret
    ];
    let transformed = e8e9_transform(&code);
    let inverse = e8e9_inverse(&transformed);
    assert_eq!(inverse, code);
}

#[test]
fn e8e9_preserves_length() {
    let code = vec![0x55; 100];
    let transformed = e8e9_transform(&code);
    assert_eq!(transformed.len(), code.len());
}

#[test]
fn transforms_call_instructions() {
    // E8 with displacement 0 at position 0
    let code = vec![0xE8, 0x00, 0x00, 0x00, 0x00];
    let transformed = e8e9_transform(&code);
    // After transform: E8 + (0 + 0 + 5) = E8 + 5 = [E8, 0x05, 0x00, 0x00, 0x00]
    assert_eq!(transformed[0], E8);
    let abs = u32::from_le_bytes([transformed[1], transformed[2], transformed[3], transformed[4]]);
    assert_eq!(abs, 5);
}

#[test]
fn round_trip_large_displacement() {
    // E8 at position 1000 with displacement that would overflow if not using wrapping
    let mut code = vec![0x90; 1000]; // NOP padding
    code.push(0xE8);
    code.extend_from_slice(&0x7FFFFFFFu32.to_le_bytes()); // Max positive displacement
    let transformed = e8e9_transform(&code);
    let inverse = e8e9_inverse(&transformed);
    assert_eq!(inverse, code);
}
