//! Compression of a whole buffer.

use crate::bwt::frames;
use crate::bwt::pipeline;
use crate::classify;
use crate::classify::{BlockKind, Measures};
use crate::codec::block;
use crate::codec::block::Coder;
use crate::codec::block_code;
use crate::codec::block_law;
use crate::codec::layout_law;
use crate::codec::method;
use crate::codec::method::CodecMode;
use crate::codec::predictor;
use crate::codec::predictor::Step;
use crate::codec::search;
use crate::codec::stream;
use crate::codec::stream::CodedBlock;
use crate::codec::stream_law;
use crate::container;
use crate::container::{BlockEntry, Header};
use crate::error::{Fault, RcnError};
use crate::level;
use crate::level::Level;
use crate::model::xwrt::XwrtDictionary;
use vstd::prelude::*;
use vstd::string::*;

verus! {

/// What is reported of one block.
#[derive(Debug, Clone, PartialEq, Eq)]
pub struct BlockDiag {
    /// The kind of the block.
    pub kind: String,
    /// The method of the block.
    pub method: u8,
    /// The size of the block.
    pub size_in: usize,
    /// The size of its payload.
    pub size_out: usize,
}

/// The name of a kind.
pub open spec fn kind_name(kind: BlockKind) -> Seq<char> {
    match kind {
        BlockKind::Random => "Random"@,
        BlockKind::Text => "Text"@,
        BlockKind::Binary => "Binary"@,
        BlockKind::Exec => "Exec"@,
    }
}

fn name_of(kind: BlockKind) -> (s: String)
    ensures
        s@ == kind_name(kind),
{
    match kind {
        BlockKind::Random => String::from_str("Random"),
        BlockKind::Text => String::from_str("Text"),
        BlockKind::Binary => String::from_str("Binary"),
        BlockKind::Exec => String::from_str("Exec"),
    }
}

/// Whether a report is that of a coded block.
pub open spec fn diag_is(d: BlockDiag, b: CodedBlock) -> bool {
    &&& d.kind@ == kind_name(b.kind)
    &&& d.method == b.coded.method
    &&& d.size_in == b.block.len()
    &&& d.size_out == b.coded.payload.len()
}

/// Whether reports are those of coded blocks.
pub open spec fn diags_are(ds: Seq<BlockDiag>, blocks: Seq<CodedBlock>) -> bool {
    ds.len() == blocks.len() && forall|i: int|
        0 <= i < ds.len() ==> diag_is(#[trigger] ds[i], blocks[i])
}

/// Whether all bytes may be measured, and the same bytes have one measure.
pub open spec fn measurable<M: Fn(&[u8]) -> Measures>(measure: M) -> bool {
    &&& forall|s: &[u8]| #[trigger] call_requires(measure, (s,))
    &&& forall|s: &[u8], t: &[u8], a: Measures, b: Measures|
        s@ == t@ && #[trigger] call_ensures(measure, (s,), a) && #[trigger] call_ensures(
            measure,
            (t,),
            b,
        ) ==> a == b
}

/// Whether these measures of some bytes are given.
pub open spec fn measured_as<M: Fn(&[u8]) -> Measures>(measure: M, d: Seq<u8>, m: Measures) -> bool {
    exists|s: &[u8]| s@ == d && #[trigger] call_ensures(measure, (s,), m)
}

/// The measures that are given.
pub open spec fn measures<M: Fn(&[u8]) -> Measures>(measure: M) -> spec_fn(Seq<u8>) -> Measures {
    |d: Seq<u8>| choose|m: Measures| measured_as(measure, d, m)
}

/// Measures some bytes.
fn measure_bytes<M: Fn(&[u8]) -> Measures>(measure: &M, b: &[u8]) -> (m: Measures)
    requires
        measurable(*measure),
    ensures
        m == measures(*measure)(b@),
{
    assert(call_requires(measure, (b,)));
    let m = measure(b);
    assert(measured_as(*measure, b@, m));
    m
}

/// What assembling coded blocks has so far.
struct Parts {
    entries: Vec<u8>,
    payloads: Vec<u8>,
    diags: Vec<BlockDiag>,
    count: u32,
}

spec fn parts_are(parts: Parts, coded: Seq<CodedBlock>) -> bool {
    &&& parts.entries@ == frames::concat_upto(stream::entry_list(coded), coded.len() as int)
    &&& parts.payloads@ == frames::concat_upto(stream::payload_list(coded), coded.len() as int)
    &&& diags_are(parts.diags@, coded)
    &&& parts.count == coded.len()
}

fn add_block(
    parts: &mut Parts,
    block_data: &[u8],
    kind: BlockKind,
    c: &block::Encoded,
    Ghost(coded): Ghost<Seq<CodedBlock>>,
)
    requires
        parts_are(*old(parts), coded),
        coded.len() < u32::MAX,
        c@.payload.len() <= u32::MAX,
        c@.len <= u32::MAX,
    ensures
        parts_are(
            *final(parts),
            coded.push((CodedBlock { block: block_data@, kind, coded: c@ })),
        ),
{
    let ghost b = CodedBlock { block: block_data@, kind, coded: c@ };
    let ghost now = coded.push(b);
    let entry = BlockEntry {
        comp_len: c.payload.len() as u32,
        orig_len: c.len as u32,
        method: c.method,
        crc32: container::crc32(block_data),
    };
    entry.write(&mut parts.entries);
    crate::bytes::push_slice(&mut parts.payloads, c.payload.as_slice());
    let d = BlockDiag {
        kind: name_of(kind),
        method: c.method,
        size_in: block_data.len(),
        size_out: c.payload.len(),
    };
    proof {
        frames::lemma_concat_push(stream::entry_list(coded), container::entry_bytes(entry));
        assert(stream::entry_list(now) =~= stream::entry_list(coded).push(
            container::entry_bytes(entry),
        ));
        frames::lemma_concat_push(stream::payload_list(coded), c.payload@);
        assert(stream::payload_list(now) =~= stream::payload_list(coded).push(c.payload@));
        assert(diag_is(d, b));
    }
    parts.diags.push(d);
    parts.count = parts.count + 1;
    assert(diags_are(parts.diags@, now));
}

fn assemble(dict: &Option<XwrtDictionary>, parts: &Parts, Ghost(coded): Ghost<Seq<CodedBlock>>) -> (
out: Vec<u8>)
    requires
        parts_are(*parts, coded),
        stream_law::dict_kept(owned_view(*dict)),
    ensures
        out@ == stream::assembled(owned_view(*dict), coded),
{
    let ghost dv = owned_view(*dict);
    let has_dict: bool = dict.is_some();
    let header = Header {
        version: container::VERSION,
        flags: if has_dict {
            container::FLAG_GLOBAL_DICT
        } else {
            0
        },
        block_size_log: method::DEFAULT_BLOCK_SIZE_LOG,
        num_blocks: parts.count,
    };
    assert(header == stream::header_of(dv, coded.len() as int));
    let mut out: Vec<u8> = Vec::new();
    header.write(&mut out);
    match dict {
        Some(g) => {
            let bytes = g.to_bytes();
            proof {
                stream_law::lemma_dict_len(g@);
            }
            container::write_global_dict(&mut out, bytes.as_slice());
        },
        None => {},
    }
    crate::bytes::push_slice(&mut out, parts.entries.as_slice());
    crate::bytes::push_slice(&mut out, parts.payloads.as_slice());
    assert(out@ =~= stream::assembled(dv, coded));
    out
}

/// The contents of an owned dictionary, if there is one.
pub open spec fn owned_view(dict: Option<XwrtDictionary>) -> Option<Seq<Seq<u8>>> {
    match dict {
        Some(g) => Some(g@),
        None => None,
    }
}

/// The dictionary of a container.
fn build_dict(buf: &[u8], mode: CodecMode) -> (dict: Option<XwrtDictionary>)
    ensures
        owned_view(dict) == stream::dict_for(mode, buf@),
        stream_law::dict_kept(owned_view(dict)),
{
    if mode == CodecMode::Wire || mode == CodecMode::General {
        None
    } else {
        Some(XwrtDictionary::build_from_data(buf))
    }
}

/// Whether `out` is the container of `buf`: the predictor that made it gives `buf`
/// back, and no predictor takes a proper prefix of it for a container.
pub open spec fn is_container<S, M: Fn(&[u8]) -> Measures, F: Fn(S, Step) -> (S, u16)>(
    mode: CodecMode,
    buf: Seq<u8>,
    measure: M,
    start: S,
    drive: F,
    out: Seq<u8>,
) -> bool {
    &&& out == stream::compressed(
        mode,
        buf,
        measures(measure),
        predictor::replies::<S, F>(drive),
        start,
    )
    &&& stream::decompressed(out, predictor::replies::<S, F>(drive), start) == Ok::<
        Seq<u8>,
        Fault,
    >(buf)
    &&& forall|k: int, g: spec_fn(S, Step) -> (S, u16), t: S|
        0 <= k < out.len() ==> (#[trigger] stream::decompressed(out.take(k), g, t)) is Err
}

/// Compresses `buf` in a mode and reports each block. `measure` gives the
/// measures of some bytes, `drive` follows and predicts, from the state `start`
/// on, the bits of blocks that are coded bit by bit. Decompressing with the same
/// predictor gives `buf` back.
pub fn compress_mode_diag<S, M: Fn(&[u8]) -> Measures, F: Fn(S, Step) -> (S, u16)>(
    buf: &[u8],
    mode: CodecMode,
    measure: &M,
    start: S,
    drive: &F,
) -> (r: Result<(Vec<u8>, Vec<BlockDiag>), RcnError>)
    requires
        buf@.len() / 65536 < u32::MAX,
        measurable(*measure),
        predictor::drivable::<S, F>(*drive),
    ensures
        r is Ok,
        is_container(mode, buf@, *measure, start, *drive, r.unwrap().0@),
        diags_are(
            r.unwrap().1@,
            stream::buf_coded(
                mode,
                buf@,
                measures(*measure),
                predictor::replies::<S, F>(*drive),
                start,
            ),
        ),
{
    let dict = build_dict(buf, mode);
    let ghost dv = stream::dict_for(mode, buf@);
    let ghost seen = measures(*measure);
    let ghost f = predictor::replies::<S, F>(*drive);
    let ghost all = stream::buf_coded(mode, buf@, seen, f, start);
    let n: usize = buf.len();
    let mut parts = Parts {
        entries: Vec::new(),
        payloads: Vec::new(),
        diags: Vec::new(),
        count: 0,
    };
    let mut st = Coder::new();
    let mut s = start;
    let ghost mut coded: Seq<CodedBlock> = Seq::empty();
    let mut offset: usize = 0;
    assert(buf@.skip(0) =~= buf@);
    assert(coded + all =~= all);
    assert(parts.entries@ =~= frames::concat_upto(stream::entry_list(coded), 0));
    assert(parts.payloads@ =~= frames::concat_upto(stream::payload_list(coded), 0));
    assert(parts_are(parts, coded));
    while offset < n
        invariant
            n == buf@.len(),
            offset <= n,
            n / 65536 < u32::MAX,
            65536 * coded.len() <= offset || offset == n,
            offset == n ==> 65536 * (coded.len() - 1) < n || coded.len() == 0,
            measurable(*measure),
            predictor::drivable::<S, F>(*drive),
            seen == measures(*measure),
            f == predictor::replies::<S, F>(*drive),
            dv == stream::dict_for(mode, buf@),
            owned_view(dict) == dv,
            stream_law::dict_kept(dv),
            st@.hist.len() <= search::MATCH_HIST_CAP,
            parts_are(parts, coded),
            all == coded + stream::blocks_coded(
                mode,
                buf@.skip(offset as int),
                dv,
                seen,
                st@,
                f,
                s,
            ),
        decreases n - offset,
    {
        let ghost rest = buf@.skip(offset as int);
        let suffix = vstd::slice::slice_subrange(buf, offset, n);
        assert(suffix@ =~= rest);
        let m = measure_bytes(measure, suffix);
        let kind = classify::classify(suffix, m);
        let size: usize = method::block_size_for_kind(kind, offset, n, mode);
        let len: usize = if size < n - offset {
            size
        } else {
            n - offset
        };
        proof {
            stream_law::lemma_first_len(mode, rest, m);
        }
        let b = vstd::slice::slice_subrange(buf, offset, offset + len);
        assert(b@ =~= stream::first_block(mode, rest, m));
        let near_random: bool = if kind == BlockKind::Text && mode != CodecMode::Wire && mode
            != CodecMode::General {
            measure_bytes(measure, b).near_random
        } else {
            false
        };
        assert(near_random == stream::first_random(mode, rest, seen));
        let ghost before = st@;
        let ghost s0 = s;
        let dict_ref = dict.as_ref();
        assert(pipeline::dict_view(dict_ref) == dv);
        let (c, t) = block_code::encode_block(
            mode,
            b,
            kind,
            near_random,
            dict_ref,
            &mut st,
            s,
            drive,
        );
        s = t;
        proof {
            block_law::lemma_coded_sizes(mode, kind, b@, near_random, dv, before, f, s0);
            block_law::lemma_payload_len(mode, kind, b@, near_random, dv, before, f, s0);
        }
        add_block(&mut parts, b, kind, &c, Ghost(coded));
        proof {
            let cb = stream::first_coded(mode, rest, dv, seen, before, f, s0);
            assert(cb == (CodedBlock { block: b@, kind, coded: c@ }));
            assert(stream::behind_first(mode, rest, m) =~= buf@.skip(offset + len));
            let more = stream::blocks_coded(
                mode,
                buf@.skip(offset + len),
                dv,
                seen,
                st@,
                f,
                s,
            );
            assert(coded + (seq![cb] + more) =~= coded.push(cb) + more);
            coded = coded.push(cb);
        }
        offset = offset + len;
    }
    proof {
        assert(buf@.skip(n as int).len() == 0);
        assert(coded =~= all);
        stream_law::law_round_trip(mode, buf@, seen, f, start);
        let made = stream::compressed(mode, buf@, seen, f, start);
        assert forall|k: int, g: spec_fn(S, Step) -> (S, u16), t: S|
            0 <= k < made.len() implies (#[trigger] stream::decompressed(
            made.take(k),
            g,
            t,
        )) is Err by {
            layout_law::law_prefix_rejected(mode, buf@, seen, f, start, g, t, k);
        }
    }
    let out = assemble(&dict, &parts, Ghost(coded));
    let diags = parts.diags;
    let r: Result<(Vec<u8>, Vec<BlockDiag>), RcnError> = Ok((out, diags));
    assert(r.unwrap().0@ == out@ && r.unwrap().1@ == diags@);
    r
}

/// Compresses `buf` in a mode.
pub fn compress_mode<S, M: Fn(&[u8]) -> Measures, F: Fn(S, Step) -> (S, u16)>(
    buf: &[u8],
    mode: CodecMode,
    measure: &M,
    start: S,
    drive: &F,
) -> (r: Result<Vec<u8>, RcnError>)
    requires
        buf@.len() / 65536 < u32::MAX,
        measurable(*measure),
        predictor::drivable::<S, F>(*drive),
    ensures
        r is Ok,
        is_container(mode, buf@, *measure, start, *drive, r.unwrap()@),
{
    match compress_mode_diag(buf, mode, measure, start, drive) {
        Ok((out, _)) => Ok(out),
        Err(e) => Err(e),
    }
}

/// Compresses `buf` in the default mode, `Hybrid`.
pub fn compress<S, M: Fn(&[u8]) -> Measures, F: Fn(S, Step) -> (S, u16)>(
    buf: &[u8],
    measure: &M,
    start: S,
    drive: &F,
) -> (r: Result<Vec<u8>, RcnError>)
    requires
        buf@.len() / 65536 < u32::MAX,
        measurable(*measure),
        predictor::drivable::<S, F>(*drive),
    ensures
        r is Ok,
        is_container(CodecMode::Hybrid, buf@, *measure, start, *drive, r.unwrap()@),
{
    compress_mode(buf, CodecMode::Hybrid, measure, start, drive)
}

/// Compresses `buf` byte by byte, with transform trials.
pub fn compress_fast<S, M: Fn(&[u8]) -> Measures, F: Fn(S, Step) -> (S, u16)>(
    buf: &[u8],
    measure: &M,
    start: S,
    drive: &F,
) -> (r: Result<Vec<u8>, RcnError>)
    requires
        buf@.len() / 65536 < u32::MAX,
        measurable(*measure),
        predictor::drivable::<S, F>(*drive),
    ensures
        r is Ok,
        is_container(CodecMode::Fast, buf@, *measure, start, *drive, r.unwrap()@),
{
    compress_mode(buf, CodecMode::Fast, measure, start, drive)
}

/// Compresses `buf` in mode `Hybrid`: text and random blocks byte by byte,
/// binary data and code bit by bit.
pub fn compress_hybrid<S, M: Fn(&[u8]) -> Measures, F: Fn(S, Step) -> (S, u16)>(
    buf: &[u8],
    measure: &M,
    start: S,
    drive: &F,
) -> (r: Result<Vec<u8>, RcnError>)
    requires
        buf@.len() / 65536 < u32::MAX,
        measurable(*measure),
        predictor::drivable::<S, F>(*drive),
    ensures
        r is Ok,
        is_container(CodecMode::Hybrid, buf@, *measure, start, *drive, r.unwrap()@),
{
    compress_mode(buf, CodecMode::Hybrid, measure, start, drive)
}

/// Compresses `buf` with the hash-chain engine.
pub fn compress_wire<S, M: Fn(&[u8]) -> Measures, F: Fn(S, Step) -> (S, u16)>(
    buf: &[u8],
    measure: &M,
    start: S,
    drive: &F,
) -> (r: Result<Vec<u8>, RcnError>)
    requires
        buf@.len() / 65536 < u32::MAX,
        measurable(*measure),
        predictor::drivable::<S, F>(*drive),
    ensures
        r is Ok,
        is_container(CodecMode::Wire, buf@, *measure, start, *drive, r.unwrap()@),
{
    compress_mode(buf, CodecMode::Wire, measure, start, drive)
}

/// Compresses `buf` byte by byte, without transform trials.
pub fn compress_general<S, M: Fn(&[u8]) -> Measures, F: Fn(S, Step) -> (S, u16)>(
    buf: &[u8],
    measure: &M,
    start: S,
    drive: &F,
) -> (r: Result<Vec<u8>, RcnError>)
    requires
        buf@.len() / 65536 < u32::MAX,
        measurable(*measure),
        predictor::drivable::<S, F>(*drive),
    ensures
        r is Ok,
        is_container(CodecMode::General, buf@, *measure, start, *drive, r.unwrap()@),
{
    compress_mode(buf, CodecMode::General, measure, start, drive)
}

/// Compresses `buf` at a named level.
pub fn compress_level<S, M: Fn(&[u8]) -> Measures, F: Fn(S, Step) -> (S, u16)>(
    buf: &[u8],
    lvl: Level,
    measure: &M,
    start: S,
    drive: &F,
) -> (r: Result<Vec<u8>, RcnError>)
    requires
        buf@.len() / 65536 < u32::MAX,
        measurable(*measure),
        predictor::drivable::<S, F>(*drive),
    ensures
        r is Ok,
        is_container(level::mode_of(lvl), buf@, *measure, start, *drive, r.unwrap()@),
{
    compress_mode(buf, lvl.mode(), measure, start, drive)
}

/// Compresses `buf` bit by bit with a predictor of the caller's own.
pub fn compress_with<S, M: Fn(&[u8]) -> Measures, F: Fn(S, Step) -> (S, u16)>(
    buf: &[u8],
    measure: &M,
    start: S,
    drive: &F,
) -> (r: Result<Vec<u8>, RcnError>)
    requires
        buf@.len() / 65536 < u32::MAX,
        measurable(*measure),
        predictor::drivable::<S, F>(*drive),
    ensures
        r is Ok,
        is_container(CodecMode::Slow, buf@, *measure, start, *drive, r.unwrap()@),
{
    compress_mode(buf, CodecMode::Slow, measure, start, drive)
}

} // verus!
