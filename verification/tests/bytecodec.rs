//! Tests of the byte-level context-mixing codec.

use rcn::bytecodec::{
    compress_block, decompress_block, hash2, pick_order, ByteCountModel, Order, ORDER2_CTX,
    ORDER2_CTX_SMALL,
};
use rcn::entropy::byterans::{RansByteDecoder, RansByteEncoder};

fn roundtrip(data: &[u8]) {
    let comp = compress_block(data);
    let back = decompress_block(&comp, data.len()).expect("decompress");
    assert_eq!(back, data, "byte-codec round-trip mismatch");
}

#[test]
fn walk_roundtrip_exact() {
    let mut v = vec![0u8; 8192];
    let mut x = 0x9E37_79B9u32;
    for b in &mut v {
        x ^= x << 13;
        x ^= x >> 17;
        x ^= x << 5;
        *b = x as u8;
    }
    let n = 256;
    let big = n >= 256 * 1024;
    let order2_ctx = if big { ORDER2_CTX } else { ORDER2_CTX_SMALL };
    let order2_mask = order2_ctx - 1;
    let mut o0 = ByteCountModel::new(1);
    let mut o1 = ByteCountModel::new(256);
    let mut o2 = ByteCountModel::new(order2_ctx);
    let mut enc = RansByteEncoder::new();
    let mut p_2 = 0u8;
    let mut p_1 = 0u8;
    let mut e_triples = Vec::new();
    for &b in &v[..n] {
        let c1 = usize::from(p_1);
        let c2 = hash2(p_1, p_2) & order2_mask;
        let ord = pick_order(o1.total(c1), o1.distinct(c1), o2.total(c2), o2.distinct(c2));
        let wr = match ord {
            Order::Order0 => o0.walk_dist(0, Some(b), None),
            Order::Order1 => o1.walk_dist(c1, Some(b), None),
            Order::Order2 => o2.walk_dist(c2, Some(b), None),
        };
        enc.encode_fc(wr.freq, wr.cum);
        e_triples.push((b, wr.freq, wr.cum));
        o0.update(0, b);
        o1.update(c1, b);
        o2.update(c2, b);
        p_2 = p_1;
        p_1 = b;
    }
    let comp = enc.finish();

    let mut d0 = ByteCountModel::new(1);
    let mut d1 = ByteCountModel::new(256);
    let mut d2 = ByteCountModel::new(order2_ctx);
    let mut dec = RansByteDecoder::new(&comp).unwrap();
    let mut q_2 = 0u8;
    let mut q_1 = 0u8;
    for i in 0..n {
        let c1 = usize::from(q_1);
        let c2 = hash2(q_1, q_2) & order2_mask;
        let ord = pick_order(d1.total(c1), d1.distinct(c1), d2.total(c2), d2.distinct(c2));
        let cdf = dec.cdf();
        let wr = match ord {
            Order::Order0 => d0.walk_dist(0, None, Some(cdf)),
            Order::Order1 => d1.walk_dist(c1, None, Some(cdf)),
            Order::Order2 => d2.walk_dist(c2, None, Some(cdf)),
        };
        let (eb, ef, ec) = e_triples[i];
        assert_eq!(
            (wr.sym, wr.freq, wr.cum),
            (eb, ef, ec),
            "walk divergence at i={i} (ord={ord:?}, cdf={cdf})"
        );
        dec.advance(wr.freq, wr.cum);
        d0.update(0, wr.sym);
        d1.update(c1, wr.sym);
        d2.update(c2, wr.sym);
        q_2 = q_1;
        q_1 = wr.sym;
    }
}

#[test]
fn roundtrip_deterministic_streams() {
    roundtrip(b"");
    roundtrip(b"a");
    roundtrip(&vec![0x41; 64]);
    roundtrip(&(0u8..=255).collect::<Vec<_>>());
    roundtrip(&(0u8..=255).cycle().take(4096).collect::<Vec<_>>());
}

#[test]
fn roundtrip_text_like() {
    let text = b"the quick brown fox jumps over the lazy dog. ";
    let mut v = Vec::new();
    for _ in 0..50 {
        v.extend_from_slice(text);
    }
    roundtrip(&v);
}

#[test]
fn roundtrip_random() {
    let mut v = vec![0u8; 8192];
    let mut x = 0x9E37_79B9u32;
    for b in &mut v {
        x ^= x << 13;
        x ^= x >> 17;
        x ^= x << 5;
        *b = x as u8;
    }
    roundtrip(&v);
}

#[test]
fn compress_is_smaller_on_redundant() {
    let data: Vec<u8> = std::iter::repeat(b'x').take(4096).collect();
    let comp = compress_block(&data);
    assert!(comp.len() < data.len(), "redundant data should shrink");
}

#[test]
fn order_selection_uses_concentration() {
    assert_eq!(pick_order(0, 0, 0, 0), Order::Order0);
    assert_eq!(pick_order(1, 1, 0, 0), Order::Order0, "t1 below MIN_T1");
    assert_eq!(pick_order(3, 2, 4, 4), Order::Order1, "order-2 too scattered");
    assert_eq!(
        pick_order(3, 2, 4, 1),
        Order::Order2,
        "concentrated order-2 wins at equal scale"
    );
}
