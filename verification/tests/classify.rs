//! Tests of the block classifier.

use rcn::classify::{BlockKind, Measures};

/// The Shannon entropy of a byte in bits, and the share of printable bytes.
fn measure(buf: &[u8]) -> Measures {
    let mut hist = [0u32; 256];
    for &b in buf {
        hist[b as usize] += 1;
    }
    let n = buf.len() as f32;
    let mut h = 0.0f32;
    for &c in &hist {
        if c > 0 {
            let p = c as f32 / n;
            h -= p * p.log2();
        }
    }
    let printable = buf.iter().filter(|&&b| (0x20..0x7f).contains(&b)).count() as f32 / n;
    Measures { random: h > 7.9, near_random: h > 7.2, printable: printable > 0.85 }
}

fn classify(buf: &[u8]) -> BlockKind {
    rcn::classify::classify(buf, measure(buf))
}

#[test]
fn classifies_text() {
    let text = b"hello world, this is plain text that should be recognized as text..............";
    assert_eq!(classify(text), BlockKind::Text);
}

#[test]
fn classifies_random() {
    // High-entropy, pseudo-random-looking data.
    let mut buf = [0u8; 4096];
    let mut x = 0x1234_5678u32;
    for b in &mut buf {
        x ^= x << 13;
        x ^= x >> 17;
        x ^= x << 5;
        *b = x as u8;
    }
    assert_eq!(classify(&buf), BlockKind::Random);
}

#[test]
fn classifies_empty_as_random() {
    assert_eq!(classify(&[]), BlockKind::Random);
}

#[test]
fn classifies_exec() {
    // x86 prologue repeated: push rbp; mov rbp,rsp
    let mut buf = Vec::new();
    for _ in 0..4 {
        buf.extend_from_slice(&[0x55, 0x89, 0xE5, 0x48, 0x89, 0xC7, 0xFF, 0xD0]);
    }
    assert_eq!(classify(&buf), BlockKind::Exec);
}

#[test]
fn random_not_compressible() {
    assert!(!BlockKind::Random.is_compressible());
    assert!(BlockKind::Text.is_compressible());
    assert!(BlockKind::Binary.is_compressible());
    assert!(BlockKind::Exec.is_compressible());
}
