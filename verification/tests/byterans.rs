//! Tests of the byte-level rANS coder.

use rcn::entropy::byterans::{RansByteDecoder, RansByteEncoder, BYTE_SCALE};

fn roundtrip(symbols: &[u8], probs: impl Fn(usize) -> [u16; 256]) {
    let mut enc = RansByteEncoder::new();
    for (i, &s) in symbols.iter().enumerate() {
        enc.encode_symbol(s, probs(i));
    }
    let buf = enc.finish();
    let mut dec = RansByteDecoder::new(&buf).expect("4-byte tail");
    for (i, &s) in symbols.iter().enumerate() {
        let got = dec.decode_symbol(&probs(i));
        assert_eq!(got, s, "mismatch at index {i}");
    }
}

fn uniform() -> [u16; 256] {
    // 4096/256 = 16 each.
    [16u16; 256]
}

fn biased(byte: u8) -> [u16; 256] {
    let mut p = [1u16; 256];
    p[usize::from(byte)] = 4096 - 255;
    p
}

#[test]
fn roundtrip_uniform() {
    let data: Vec<u8> = (0u8..=255).cycle().take(1024).collect();
    roundtrip(&data, |_| uniform());
}

#[test]
fn roundtrip_biased() {
    let data: Vec<u8> = vec![0x41; 64];
    roundtrip(&data, |_| biased(0x41));
}

#[test]
fn roundtrip_mixed() {
    let data: Vec<u8> = (0u8..=255).collect();
    let variants: Vec<[u16; 256]> = (0..8).map(|k| biased(k * 7)).collect();
    roundtrip(&data, |i| variants[i % variants.len()]);
}

#[test]
fn decoder_rejects_short_stream() {
    assert!(RansByteDecoder::new(&[1, 2, 3]).is_err());
    assert!(RansByteDecoder::new(&[1, 2, 3, 4]).is_ok());
}

#[test]
fn scale_is_power_of_two() {
    assert_eq!(BYTE_SCALE, 4096);
    assert!(BYTE_SCALE.is_power_of_two());
}

// Minimal deterministic PRNG so the fuzz test needs no dependencies.
struct XorShift(u64);
impl XorShift {
    fn next(&mut self) -> u64 {
        let mut x = self.0;
        x ^= x << 13;
        x ^= x >> 7;
        x ^= x << 17;
        self.0 = x;
        x
    }
}

fn random_dist(rng: &mut XorShift) -> [u16; 256] {
    // Every symbol ≥ 1; then scatter the remaining SCALE-256 mass randomly.
    let mut p = [1u16; 256];
    for _ in 256..BYTE_SCALE {
        let s = (rng.next() % 256) as usize;
        p[s] += 1;
    }
    let sum: u64 = p.iter().map(|&w| u64::from(w)).sum();
    assert_eq!(sum, BYTE_SCALE as u64, "distribution must sum to SCALE");
    p
}

#[test]
fn roundtrip_fuzz() {
    let mut rng = XorShift(0x9E3779B97F4A7C15);
    for trial in 0..8 {
        let n = 16 + (rng.next() % 400) as usize;
        let data: Vec<u8> = (0..n).map(|_| (rng.next() % 256) as u8).collect();
        let dists: Vec<[u16; 256]> = (0..n).map(|_| random_dist(&mut rng)).collect();
        let mut enc = RansByteEncoder::new();
        for (i, &s) in data.iter().enumerate() {
            enc.encode_symbol(s, dists[i]);
        }
        let buf = enc.finish();
        let mut dec = RansByteDecoder::new(&buf).expect("4-byte state");
        for (i, &s) in data.iter().enumerate() {
            let got = dec.decode_symbol(&dists[i]);
            assert_eq!(got, s, "trial {trial} mismatch at {i}");
        }
    }
}
