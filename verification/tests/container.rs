//! Tests of the container format.

use rcn::container::{
    crc32, read_global_dict, write_global_dict, BlockEntry, Header, FLAG_GLOBAL_DICT, VERSION,
};

#[test]
fn container_roundtrip() {
    let header = Header {
        version: VERSION,
        flags: 0,
        block_size_log: 16,
        num_blocks: 2,
    };
    let entries = [
        BlockEntry {
            comp_len: 10,
            orig_len: 100,
            method: 1,
            crc32: 0x1234_5678,
        },
        BlockEntry {
            comp_len: 20,
            orig_len: 200,
            method: 0,
            crc32: 0x9abc_def0,
        },
    ];
    let mut buf = Vec::new();
    header.write(&mut buf);
    for e in &entries {
        e.write(&mut buf);
    }
    let (got_h, at) = Header::read(&buf, 0).expect("header read");
    assert_eq!(got_h, header);
    let (got_e0, at) = BlockEntry::read(&buf, at).expect("entry 0");
    let (got_e1, _) = BlockEntry::read(&buf, at).expect("entry 1");
    assert_eq!(got_e0, entries[0]);
    assert_eq!(got_e1, entries[1]);
}

#[test]
fn crc32_is_deterministic() {
    assert_eq!(crc32(b"rcn"), crc32(b"rcn"));
    assert_ne!(crc32(b"rcn"), crc32(b"xxx"));
}

#[test]
fn bad_magic_errors() {
    let buf = b"XXXX\x01\x00\x10\x00\x00\x00\x00";
    assert!(Header::read(buf, 0).is_err());
}

#[test]
fn read_global_dict_truncated_length_prefix_errors() {
    let err = read_global_dict(&[0, 1, 2], 0, FLAG_GLOBAL_DICT).unwrap_err();
    assert!(matches!(err, rcn::error::RcnError::InvalidContainer(_)));
}

#[test]
fn read_global_dict_overlong_dict_len_errors() {
    let mut data = vec![10, 0, 0, 0]; // claims 10 bytes
    data.extend_from_slice(b"short"); // only 5
    let err = read_global_dict(&data, 0, FLAG_GLOBAL_DICT).unwrap_err();
    assert!(matches!(err, rcn::error::RcnError::InvalidContainer(_)));
}

#[test]
fn read_global_dict_absent_flag_is_empty() {
    let (bytes, off) = read_global_dict(b"xxxx", 2, 0).expect("ok");
    assert!(bytes.is_empty());
    assert_eq!(off, 2);
}

#[test]
fn global_dict_flag_roundtrip_preserves_bytes() {
    let dict = b"hello-dict";
    let mut buf = Vec::new();
    write_global_dict(&mut buf, dict);
    let (got, end) = read_global_dict(&buf, 0, FLAG_GLOBAL_DICT).expect("read");
    assert_eq!(got, dict);
    assert_eq!(end, buf.len());
}
