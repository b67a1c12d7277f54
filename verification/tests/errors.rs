//! Inputs that are refused, and what is said of them.

use rcn::bwt::{mtf_transform, rle0, BwtPipeline};
use rcn::bytecodec::decompress_block;
use rcn::codec::side::read_side;
use rcn::codec::Step;
use rcn::container::{crc32, BlockEntry, Header, VERSION};
use rcn::csv_split::{join_csv, CsvStreams};
use rcn::entropy::range::{BitDecoder, BitEncoder};
use rcn::entropy::side_fse::{decompress_order0, unpack_side_stream};
use rcn::error::RcnError;
use rcn::json_split::{merge, merge_naive, JsonStreams};
use rcn::wire;
use rcn::xml_split::{join, join_xml, XmlStreams};

fn container(method: u8, payload: &[u8], orig: &[u8], crc: u32) -> Vec<u8> {
    let mut buf = Vec::new();
    Header { version: VERSION, flags: 0, block_size_log: 16, num_blocks: 1 }.write(&mut buf);
    BlockEntry {
        comp_len: payload.len() as u32,
        orig_len: orig.len() as u32,
        method,
        crc32: crc,
    }
    .write(&mut buf);
    buf.extend_from_slice(payload);
    buf
}

fn decompress(data: &[u8]) -> Result<Vec<u8>, RcnError> {
    rcn::codec::decompress(data, (), &|_: (), _: Step| ((), 2048))
}

fn said(r: Result<Vec<u8>, RcnError>) -> String {
    r.expect_err("refused").message()
}

#[test]
fn stored_block_comes_back() {
    let c = container(0, b"plain", b"plain", crc32(b"plain"));
    assert_eq!(decompress(&c).expect("ok"), b"plain");
}

#[test]
fn container_errors() {
    assert_eq!(
        said(decompress(b"RCN1")),
        "invalid rcn container: failed to fill whole buffer"
    );
    assert_eq!(said(decompress(b"XXXX\x01\x00\x10\x00\x00\x00\x00")), "invalid rcn container: bad rcn magic");
    let c = container(99, b"abc", b"abc", 0);
    assert_eq!(said(decompress(&c)), "invalid rcn container: unknown method 99");
    let mut c = container(0, b"abc", b"abc", 0);
    c[4] = 2;
    assert!(matches!(decompress(&c), Err(RcnError::InvalidContainer(_))));
    let mut c = container(0, b"abc", b"abc", 0);
    c[7] = 9;
    assert_eq!(
        said(decompress(&c)),
        "invalid rcn container: num_blocks 9 requires 117 entry bytes past offset 11, only 16 available"
    );
}

#[test]
fn checksum_errors() {
    let c = container(0, b"abc", b"abc", 0x1234);
    let sum = crc32(b"abc");
    assert!(matches!(decompress(&c), Err(RcnError::CrcMismatch(0, got, 0x1234)) if got == sum));
    assert_eq!(
        RcnError::CrcMismatch(3, 0xAB, 0x1234).message(),
        "block 3 failed CRC32 check (got 0x000000ab, expected 0x00001234)"
    );
}

#[test]
fn truncated_errors() {
    let mut c = container(0, b"abc", b"abc", 0);
    c.pop();
    assert!(matches!(decompress(&c), Err(RcnError::TruncatedStream(0))));
    assert_eq!(
        RcnError::TruncatedStream(7).message(),
        "unexpected end of entropy stream in block 7"
    );
}

#[test]
fn side_stream_errors() {
    assert!(matches!(read_side(&[0; 8]), Err(RcnError::InvalidContainer(m)) if m == "match side-stream too short"));
    assert!(matches!(read_side(&[0, 0, 0, 0, 0, 1, 0, 0, 0]), Err(RcnError::InvalidContainer(m)) if m == "match side-stream truncated"));
    assert!(matches!(read_side(&[0, 0, 0, 0, 7, 0, 0, 0, 0]), Err(RcnError::InvalidContainer(m)) if m == "corrupt match side-stream entropy"));
    assert!(matches!(read_side(&[1, 0, 0, 0, 0, 0, 0, 0, 0]), Err(RcnError::InvalidContainer(m)) if m == "truncated match record (delta_pos)"));
    assert!(matches!(read_side(&[1, 0, 0, 0, 0, 1, 0, 0, 0, 5]), Err(RcnError::InvalidContainer(m)) if m == "truncated match record (len)"));
    assert!(matches!(read_side(&[1, 0, 0, 0, 0, 2, 0, 0, 0, 5, 6]), Err(RcnError::InvalidContainer(m)) if m == "truncated match record (dist)"));
    let (runs, end) = read_side(&[1, 0, 0, 0, 0, 3, 0, 0, 0, 5, 6, 2, 99]).expect("one match");
    assert_eq!((runs.len(), end), (1, 12));
    assert_eq!((runs[0].pos, runs[0].len, runs[0].dist), (5, 6, 2));
}

#[test]
fn entropy_errors() {
    assert!(matches!(BitDecoder::new(&[1, 2, 3]), Err(RcnError::Entropy(m)) if m == "truncated input (3 bytes available, need at least 4)"));
    assert!(matches!(BitDecoder::new(&[0x34, 0x12, 0, 0]), Err(RcnError::Entropy(m)) if m == "invalid rANS state 0x1234 (expected >= 0x800000)"));
    let s = BitEncoder::new().finish();
    let mut d = BitDecoder::new(&s).expect("a state");
    // The state shrinks below its bound, and no byte is left.
    assert!(matches!(d.decode_bit(1), Err(RcnError::Entropy(m)) if m == "truncated input (0 bytes available, need at least 1)"));
    assert_eq!(
        RcnError::Entropy("x".to_string()).message(),
        "entropy coder error: x"
    );
    assert!(unpack_side_stream(9, b"").is_err());
    assert!(decompress_order0(&[1, 2]).is_err());
    assert!(matches!(decompress_block(&[1, 2, 3], 5), Err(RcnError::CorruptBlock(_))));
    assert!(matches!(wire::decompress(&[], 1), Err(RcnError::CorruptBlock(_))));
}

#[test]
fn json_errors() {
    let s = |structural: &[u8], keys: &[u8]| JsonStreams {
        structural: structural.to_vec(),
        keys: keys.to_vec(),
        string_values: Vec::new(),
        numbers: Vec::new(),
    };
    assert!(matches!(merge(&s(b"{}", b""), 3), Err(RcnError::JsonSplitError(m)) if m == "merge produced 2 bytes, expected 3"));
    assert_eq!(merge(&s(b"{}", b""), 2).expect("same"), b"{}");
    assert_eq!(merge_naive(&s(b"{}", b""), 3), b"{}");
    assert!(matches!(merge(&s(b"{\xFE", b""), 2), Err(RcnError::JsonSplitError(m)) if m == "truncated marker at structural offset 1"));
    assert_eq!(merge_naive(&s(b"{\xFE", b""), 2), b"");
}

#[test]
fn xml_errors() {
    let s = XmlStreams { tags: b"<a>".to_vec(), attrs: Vec::new(), text: Vec::new() };
    assert!(matches!(join(&s, 9), Err(RcnError::XmlSplitError(m)) if m == "merge produced 3 bytes, expected 9"));
    assert!(matches!(join_xml(&[vec![1]], 1), Err(RcnError::XmlSplitError(m)) if m == "expected 3 streams (tags, attrs, text)"));
    assert_eq!(
        RcnError::XmlSplitError("y".to_string()).message(),
        "xml split error: y"
    );
}

#[test]
fn csv_errors() {
    let s = CsvStreams {
        delim: b',',
        trailing_newline: true,
        columns: vec![vec![1, 0, 0, 0]],
        fields_per_row: vec![1],
    };
    assert!(matches!(rcn::csv_split::join(&s), Err(RcnError::CsvSplitError(_))));
    assert_eq!(join_csv(&[]).expect("nothing"), b"");
}

#[test]
fn pipeline_errors() {
    // One byte and a primary index that points past it.
    let ranks = mtf_transform(&[b'a', 5, 0, 0, 0]);
    let r = BwtPipeline::BwtMtfRle.decode(&rle0(&ranks), 1, None);
    assert!(matches!(r, Err(RcnError::CorruptBlock(m)) if m == "bwt primary index out of range"));
    let r = BwtPipeline::LzpBwtMtf.decode(&ranks, 1, None);
    assert!(matches!(r, Err(RcnError::CorruptBlock(m)) if m == "bwt primary index out of range"));
    // A body of no bytes, and a dictionary that is cut short.
    let r = BwtPipeline::XwrtBwtMtfRle.decode(&[0, 0, 0, 0, 0, 0, 0, 0, 5, 0], 0, None);
    assert!(matches!(r, Err(RcnError::CorruptBlock(m)) if m == "xwrt dictionary is corrupt"));
    let r = BwtPipeline::XwrtBwtMtfRle.decode(&[0, 0, 0], 0, None);
    assert!(matches!(r, Err(RcnError::CorruptBlock(m)) if m == "xwrt payload truncated"));
    let r = BwtPipeline::XwrtBwtMtfRle.decode(&[0, 0, 0, 0, 9, 0, 0, 0], 0, None);
    assert!(matches!(r, Err(RcnError::CorruptBlock(m)) if m == "xwrt encoded body overruns payload"));
    assert_eq!(
        RcnError::corrupt_block("z".to_string()).message(),
        "corrupt block stream: z"
    );
    assert_eq!(
        RcnError::invalid_container("z".to_string()).message(),
        "invalid rcn container: z"
    );
}
