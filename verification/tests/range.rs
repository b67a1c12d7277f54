//! Tests of the bit coder.

use rcn::entropy::range::{BitDecoder, BitEncoder};

#[test]
fn roundtrip_bits() {
    // Sequence of (bit, p) pairs. p is the predicted prob of bit==1.
    let pairs: Vec<(bool, u16)> = (0..256)
        .map(|i| (i % 3 == 0, if i % 3 == 0 { 3000 } else { 1095 }))
        .collect();
    let mut e = BitEncoder::new();
    for &(b, p) in &pairs {
        e.encode_bit(b, p);
    }
    let buf = e.finish();
    let mut d = BitDecoder::new(&buf).expect("decode init");
    for &(b, p) in &pairs {
        assert_eq!(d.decode_bit(p).expect("decode bit"), b, "bit mismatch");
    }
}
