//! Tests of the side-stream coder.

use rcn::entropy::side_fse::{
    compress_order0, decompress_order0, pack_side_stream, unpack_side_stream, FLAG_FSE, FLAG_RAW,
};

#[test]
fn round_trip_raw_preferred_on_random() {
    let mut data = vec![0u8; 64];
    for (i, b) in data.iter_mut().enumerate() {
        *b = (i.wrapping_mul(37) ^ 0xA5) as u8;
    }
    let (flag, payload) = pack_side_stream(&data);
    let back = unpack_side_stream(flag, &payload).expect("unpack");
    assert_eq!(back, data);
}

#[test]
fn round_trip_fse_on_repetitive() {
    let data = vec![1u8, 2, 3, 1, 2, 3, 1, 2, 3]
        .into_iter()
        .cycle()
        .take(512)
        .collect::<Vec<_>>();
    let (flag, payload) = pack_side_stream(&data);
    assert_eq!(flag, FLAG_FSE, "repetitive data should prefer FSE");
    let back = unpack_side_stream(flag, &payload).expect("unpack");
    assert_eq!(back, data);
}

#[test]
fn empty_is_raw() {
    let (flag, payload) = pack_side_stream(&[]);
    assert_eq!(flag, FLAG_RAW);
    assert!(payload.is_empty());
    assert_eq!(unpack_side_stream(flag, &payload).unwrap(), Vec::<u8>::new());
}

#[test]
fn order0_direct_round_trip() {
    let data: Vec<u8> = (0..200).map(|i| (i % 7) as u8).collect();
    let packed = compress_order0(&data);
    let back = decompress_order0(&packed).expect("decompress");
    assert_eq!(back, data);
}
