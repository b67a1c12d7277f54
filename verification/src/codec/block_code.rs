//! Coding and decoding of one block.

use crate::bwt::pipeline;
use crate::bwt::pipeline::BwtPipeline;
use crate::bwt::trial;
use crate::classify::BlockKind;
use crate::codec::bit_block;
use crate::codec::block;
use crate::codec::block::{Coded, Coder, CoderView, Encoded};
use crate::codec::block_law;
use crate::codec::byte_block;
use crate::codec::method;
use crate::codec::method::CodecMode;
use crate::codec::predictor;
use crate::codec::predictor::Step;
use crate::codec::search;
use crate::error;
use crate::error::{Fault, RcnError};
use crate::model::e8e9;
use crate::model::xwrt::XwrtDictionary;
use crate::wire;
use vstd::prelude::*;

verus! {

impl Coder {
    /// Nothing is kept.
    pub fn new() -> (c: Self)
        ensures
            c@ == block::fresh(),
    {
        let c = Coder { hist: Vec::new(), hist_kind: None, stack_kind: None };
        assert(c@ =~= block::fresh());
        c
    }

    /// Forgets the history.
    pub fn forget(&mut self)
        ensures
            final(self)@ == block::forgotten(old(self)@),
    {
        self.hist.clear();
        self.hist_kind = None;
        assert(self@ =~= block::forgotten(old(self)@));
    }

    /// Forgets a history of another kind.
    pub fn turn_to(&mut self, kind: BlockKind)
        ensures
            final(self)@ == (CoderView {
                hist: if old(self)@.hist_kind == Some(kind) {
                    old(self)@.hist
                } else {
                    Seq::empty()
                },
                hist_kind: Some(kind),
                stack_kind: old(self)@.stack_kind,
            }),
    {
        if !is_kind(self.hist_kind, kind) {
            self.hist.clear();
        }
        self.hist_kind = Some(kind);
        assert(self@ =~= (CoderView {
            hist: if old(self)@.hist_kind == Some(kind) {
                old(self)@.hist
            } else {
                Seq::empty()
            },
            hist_kind: Some(kind),
            stack_kind: old(self)@.stack_kind,
        }));
    }
}

/// Whether a kind is there and is the given one.
fn is_kind(k: Option<BlockKind>, kind: BlockKind) -> (r: bool)
    ensures
        r == (k == Some(kind)),
{
    match k {
        Some(x) => x == kind,
        None => false,
    }
}

fn store(block_data: &[u8]) -> (c: Encoded)
    ensures
        c@ == block::stored(block_data@),
{
    let c = Encoded {
        payload: vstd::slice::slice_to_vec(block_data),
        method: method::METHOD_COPY,
        len: block_data.len(),
    };
    assert(c@ =~= block::stored(block_data@));
    c
}

/// The hash-chain engine: stores the block where the payload does not shrink.
pub fn encode_block_wire(block_data: &[u8]) -> (c: Encoded)
    requires
        block_data@.len() <= method::MAX_BLOCK,
    ensures
        c@ == block::wire_block(block_data@),
{
    if block_data.len() == 0 {
        return store(block_data);
    }
    proof {
        wire::lemma_lz_len(block_data@);
    }
    let comp = wire::compress(block_data);
    if comp.len() >= block_data.len() {
        store(block_data)
    } else {
        Encoded { payload: comp, method: method::METHOD_WIRE, len: block_data.len() }
    }
}

/// Codes what stands for a binary or code block byte by byte, with the history
/// of its kind, and keeps it.
fn encode_with_hist(data: &[u8], kind: BlockKind, m: u8, st: &mut Coder) -> (c: Encoded)
    requires
        kind == BlockKind::Binary || kind == BlockKind::Exec,
        block::sized(old(st)@, data@),
    ensures
        c@ == (Coded {
            payload: byte_block::byte_coded(block::usable_hist(old(st)@, kind), data@, kind),
            method: m,
            len: data@.len() as int,
        }),
        final(st)@ == (CoderView {
            hist: search::extended(block::usable_hist(old(st)@, kind), data@),
            hist_kind: Some(kind),
            stack_kind: old(st)@.stack_kind,
        }),
{
    st.turn_to(kind);
    assert(st@.hist == block::usable_hist(old(st)@, kind));
    proof {
        byte_block::lemma_matches_fit(st@.hist, data@, kind);
    }
    let payload = byte_block::compress_byte_with_matches(data, kind, st.hist.as_slice());
    search::append_match_hist(&mut st.hist, data);
    Encoded { payload, method: m, len: data.len() }
}

/// Codes text byte by byte, without history.
fn encode_text(data: &[u8], m: u8, st: &mut Coder) -> (c: Encoded)
    requires
        data@.len() <= method::MAX_BLOCK,
    ensures
        c@ == (Coded {
            payload: byte_block::byte_coded(Seq::empty(), data@, BlockKind::Text),
            method: m,
            len: data@.len() as int,
        }),
        final(st)@ == block::forgotten(old(st)@),
{
    st.forget();
    proof {
        byte_block::lemma_matches_fit(Seq::empty(), data@, BlockKind::Text);
    }
    assert(st.hist@ =~= Seq::<u8>::empty());
    let payload = byte_block::compress_byte_with_matches(
        data,
        BlockKind::Text,
        st.hist.as_slice(),
    );
    Encoded { payload, method: m, len: data.len() }
}

/// Byte-level coding without transform trials.
pub fn encode_block_general(block_data: &[u8], kind: BlockKind, st: &mut Coder) -> (c: Encoded)
    requires
        block::sized(old(st)@, block_data@),
    ensures
        c@ == block::byte_level_coded(
            CodecMode::General,
            kind,
            block_data@,
            false,
            None,
            old(st)@,
        ),
        final(st)@ == block::coder_after(
            CodecMode::General,
            kind,
            block_data@,
            false,
            None,
            old(st)@,
        ),
{
    proof {
        reveal(block::block_coded);
        reveal(block::coder_after);
    }
    match kind {
        BlockKind::Random => {
            st.forget();
            store(block_data)
        },
        BlockKind::Exec => {
            proof {
                e8e9::law_e8e9_round_trip(block_data@);
            }
            let transformed = e8e9::e8e9_transform(block_data);
            encode_with_hist(
                transformed.as_slice(),
                BlockKind::Exec,
                method::METHOD_BYTE_EXEC_E8E9,
                st,
            )
        },
        BlockKind::Binary => encode_with_hist(
            block_data,
            BlockKind::Binary,
            method::METHOD_BYTE_CM,
            st,
        ),
        BlockKind::Text => encode_text(block_data, method::METHOD_BYTE_TEXT, st),
    }
}

/// The chosen pipeline of a text block and its payload.
fn transform_text(
    block_data: &[u8],
    near_random: bool,
    dict: Option<&XwrtDictionary>,
) -> (r: (BwtPipeline, Vec<u8>))
    requires
        block_data@.len() <= method::MAX_BLOCK,
        block::dict_fits(pipeline::dict_view(dict)),
    ensures
        r.0 == block::text_pipeline(block_data@, near_random, pipeline::dict_view(dict)),
        r.1@ == block::text_payload(block_data@, near_random, pipeline::dict_view(dict)),
        r.1@.len() <= block_data@.len(),
{
    let ghost dv = pipeline::dict_view(dict);
    proof {
        block_law::lemma_candidates_fit(block_data@, near_random, dv);
        trial::law_trial_smallest(block_data@, dv, near_random);
        let jobs = trial::candidates(block_data@, dv, near_random);
        let p = trial::trial_choice(block_data@, dv, near_random);
        let i = choose|i: int| 0 <= i < jobs.len() && jobs[i] == p;
        assert(pipeline::pipeline_fits(jobs[i], block_data@, dv));
    }
    let found = trial::compress_text_with_trial(block_data, dict, near_random);
    let payload = found.pipeline.encode(block_data, dict);
    (found.pipeline, payload)
}

/// Byte-level coding with transform trials.
pub fn encode_block_fast(
    block_data: &[u8],
    kind: BlockKind,
    near_random: bool,
    dict: Option<&XwrtDictionary>,
    st: &mut Coder,
) -> (c: Encoded)
    requires
        block::sized(old(st)@, block_data@),
        block::dict_fits(pipeline::dict_view(dict)),
    ensures
        c@ == block::byte_level_coded(
            CodecMode::Fast,
            kind,
            block_data@,
            near_random,
            pipeline::dict_view(dict),
            old(st)@,
        ),
        final(st)@ == block::coder_after(
            CodecMode::Fast,
            kind,
            block_data@,
            near_random,
            pipeline::dict_view(dict),
            old(st)@,
        ),
{
    proof {
        reveal(block::block_coded);
        reveal(block::coder_after);
    }
    match kind {
        BlockKind::Random => {
            st.forget();
            store(block_data)
        },
        BlockKind::Text => {
            let (p, payload) = transform_text(block_data, near_random, dict);
            let m: u8 = method::method_for_pipeline(p, CodecMode::Fast);
            encode_text(payload.as_slice(), m, st)
        },
        BlockKind::Exec => {
            proof {
                e8e9::law_e8e9_round_trip(block_data@);
            }
            let transformed = e8e9::e8e9_transform(block_data);
            encode_with_hist(
                transformed.as_slice(),
                BlockKind::Exec,
                method::METHOD_BYTE_EXEC_E8E9,
                st,
            )
        },
        BlockKind::Binary => encode_with_hist(
            block_data,
            BlockKind::Binary,
            method::METHOD_BYTE_CM,
            st,
        ),
    }
}

/// Codes what stands for a block bit by bit, with the history of its kind, and
/// keeps it where the kind is binary or code.
fn encode_bits<S, F: Fn(S, Step) -> (S, u16)>(
    data: &[u8],
    kind: BlockKind,
    m: u8,
    st: &mut Coder,
    start: S,
    drive: &F,
) -> (r: (Encoded, S))
    requires
        kind != BlockKind::Random,
        block::sized(old(st)@, data@),
        predictor::drivable::<S, F>(*drive),
    ensures
        r.0@ == (Coded {
            payload: bit_block::slow_coded(
                predictor::replies::<S, F>(*drive),
                predictor::rebuilt(
                    predictor::replies::<S, F>(*drive),
                    start,
                    old(st)@.stack_kind,
                    kind,
                ),
                block::usable_hist(old(st)@, kind),
                data@,
                kind,
            ),
            method: m,
            len: data@.len() as int,
        }),
        r.1 == predictor::faded(
            predictor::replies::<S, F>(*drive),
            bit_block::slow_told(
                predictor::replies::<S, F>(*drive),
                predictor::rebuilt(
                    predictor::replies::<S, F>(*drive),
                    start,
                    old(st)@.stack_kind,
                    kind,
                ),
                block::usable_hist(old(st)@, kind),
                data@,
                kind,
            ),
        ),
        final(st)@ == (if kind == BlockKind::Text {
            CoderView { hist: Seq::empty(), hist_kind: None, stack_kind: Some(kind) }
        } else {
            CoderView {
                hist: search::extended(block::usable_hist(old(st)@, kind), data@),
                hist_kind: Some(kind),
                stack_kind: Some(kind),
            }
        }),
{
    let ghost h = block::usable_hist(st@, kind);
    if kind == BlockKind::Text {
        st.forget();
    } else {
        st.turn_to(kind);
    }
    assert(st.hist@ =~= h);
    let front: S = if !is_kind(st.stack_kind, kind) {
        let (s, _) = predictor::ask(drive, start, Step::Rebuild(kind));
        st.stack_kind = Some(kind);
        s
    } else {
        start
    };
    proof {
        byte_block::lemma_matches_fit(h, data@, kind);
    }
    let (payload, told) = bit_block::compress_block(data, kind, st.hist.as_slice(), front, drive);
    let (end, _) = predictor::ask(drive, told, Step::Decay);
    if kind != BlockKind::Text {
        search::append_match_hist(&mut st.hist, data);
    }
    (Encoded { payload, method: m, len: data.len() }, end)
}

/// Bit-level coding with the models of the block's kind.
pub fn encode_block_slow<S, F: Fn(S, Step) -> (S, u16)>(
    block_data: &[u8],
    kind: BlockKind,
    near_random: bool,
    dict: Option<&XwrtDictionary>,
    st: &mut Coder,
    start: S,
    drive: &F,
) -> (r: (Encoded, S))
    requires
        block::sized(old(st)@, block_data@),
        block::dict_fits(pipeline::dict_view(dict)),
        predictor::drivable::<S, F>(*drive),
    ensures
        r.0@ == block::block_coded(
            CodecMode::Slow,
            kind,
            block_data@,
            near_random,
            pipeline::dict_view(dict),
            old(st)@,
            predictor::replies::<S, F>(*drive),
            start,
        ),
        r.1 == block::predictor_after(
            CodecMode::Slow,
            kind,
            block_data@,
            near_random,
            pipeline::dict_view(dict),
            old(st)@,
            predictor::replies::<S, F>(*drive),
            start,
        ),
        final(st)@ == block::coder_after(
            CodecMode::Slow,
            kind,
            block_data@,
            near_random,
            pipeline::dict_view(dict),
            old(st)@,
        ),
{
    proof {
        reveal(block::block_coded);
        reveal(block::coder_after);
        reveal(block::predictor_after);
    }
    match kind {
        BlockKind::Random => {
            st.forget();
            (store(block_data), start)
        },
        BlockKind::Text => {
            let (p, payload) = transform_text(block_data, near_random, dict);
            let m: u8 = method::method_for_pipeline(p, CodecMode::Slow);
            encode_bits(payload.as_slice(), BlockKind::Text, m, st, start, drive)
        },
        BlockKind::Exec => {
            proof {
                e8e9::law_e8e9_round_trip(block_data@);
            }
            let transformed = e8e9::e8e9_transform(block_data);
            encode_bits(
                transformed.as_slice(),
                BlockKind::Exec,
                method::METHOD_EXEC,
                st,
                start,
                drive,
            )
        },
        BlockKind::Binary => {
            let m: u8 = method::method_for_kind(kind);
            encode_bits(block_data, BlockKind::Binary, m, st, start, drive)
        },
    }
}

/// Codes one block in a mode.
pub fn encode_block<S, F: Fn(S, Step) -> (S, u16)>(
    mode: CodecMode,
    block_data: &[u8],
    kind: BlockKind,
    near_random: bool,
    dict: Option<&XwrtDictionary>,
    st: &mut Coder,
    start: S,
    drive: &F,
) -> (r: (Encoded, S))
    requires
        block::sized(old(st)@, block_data@),
        block::dict_fits(pipeline::dict_view(dict)),
        predictor::drivable::<S, F>(*drive),
    ensures
        r.0@ == block::block_coded(
            mode,
            kind,
            block_data@,
            near_random,
            pipeline::dict_view(dict),
            old(st)@,
            predictor::replies::<S, F>(*drive),
            start,
        ),
        r.1 == block::predictor_after(
            mode,
            kind,
            block_data@,
            near_random,
            pipeline::dict_view(dict),
            old(st)@,
            predictor::replies::<S, F>(*drive),
            start,
        ),
        final(st)@ == block::coder_after(
            mode,
            kind,
            block_data@,
            near_random,
            pipeline::dict_view(dict),
            old(st)@,
        ),
{
    proof {
        reveal(block::block_coded);
        reveal(block::coder_after);
        reveal(block::predictor_after);
    }
    if mode != CodecMode::Wire && method::use_slow_for(mode, kind) {
        return encode_block_slow(block_data, kind, near_random, dict, st, start, drive);
    }
    let c = match mode {
        CodecMode::Wire => {
            st.forget();
            encode_block_wire(block_data)
        },
        CodecMode::General => encode_block_general(block_data, kind, st),
        _ => encode_block_fast(block_data, kind, near_random, dict, st),
    };
    (c, start)
}

/// The pipeline whose payload a method codes.
fn pipeline_for_method(m: u8) -> (p: Option<BwtPipeline>)
    ensures
        p == block::method_pipeline(m),
{
    match m {
        method::METHOD_BYTE_BWT_MTF_RLE | method::METHOD_BWT_MTF_RLE => Some(
            BwtPipeline::BwtMtfRle,
        ),
        method::METHOD_BYTE_LZP_BWT_MTF | method::METHOD_LZP_BWT_MTF => Some(
            BwtPipeline::LzpBwtMtf,
        ),
        method::METHOD_BYTE_JSON_SPLIT | method::METHOD_JSON_SPLIT => Some(BwtPipeline::JsonSplit),
        method::METHOD_BYTE_XWRT_BWT_MTF_RLE | method::METHOD_XWRT_BWT_MTF_RLE => Some(
            BwtPipeline::XwrtBwtMtfRle,
        ),
        method::METHOD_BYTE_CSV_SPLIT | method::METHOD_CSV_SPLIT => Some(BwtPipeline::CsvSplit),
        method::METHOD_BYTE_XML_SPLIT | method::METHOD_XML_SPLIT => Some(BwtPipeline::XmlSplit),
        _ => None,
    }
}

/// Undoes the transform of a method.
pub fn inverse_transform_for_method(
    m: u8,
    decoded: &[u8],
    orig_len: usize,
    dict: Option<&XwrtDictionary>,
) -> (r: Result<Vec<u8>, RcnError>)
    ensures
        error::outcome(r) == block::transform_undone(m, decoded@, pipeline::dict_view(dict)),
{
    match pipeline_for_method(m) {
        Some(p) => p.decode(decoded, orig_len, dict),
        None => if m == method::METHOD_BYTE_EXEC_E8E9 || m == method::METHOD_EXEC {
            Ok(e8e9::e8e9_inverse(decoded))
        } else {
            Ok(vstd::slice::slice_to_vec(decoded))
        },
    }
}

/// Whether a decoded block and what is kept behind it are the given ones.
pub open spec fn decoded_is(
    r: Result<Vec<u8>, RcnError>,
    after: CoderView,
    goal: Result<(Seq<u8>, CoderView), Fault>,
) -> bool {
    match r {
        Ok(b) => goal == Ok::<(Seq<u8>, CoderView), Fault>((b@, after)),
        Err(e) => goal == Err::<(Seq<u8>, CoderView), Fault>(e@),
    }
}

/// The same with the predictor behind the block.
pub open spec fn told_is<S>(
    r: Result<(Vec<u8>, S), RcnError>,
    after: CoderView,
    goal: Result<(Seq<u8>, CoderView, S), Fault>,
) -> bool {
    match r {
        Ok((b, s)) => goal == Ok::<(Seq<u8>, CoderView, S), Fault>((b@, after, s)),
        Err(e) => goal == Err::<(Seq<u8>, CoderView, S), Fault>(e@),
    }
}

fn decode_byte_block(
    m: u8,
    comp: &[u8],
    orig_len: usize,
    dict: Option<&XwrtDictionary>,
    st: &mut Coder,
) -> (r: Result<Vec<u8>, RcnError>)
    requires
        orig_len <= u32::MAX,
    ensures
        decoded_is(
            r,
            final(st)@,
            block::byte_block_decoded(
                m,
                comp@,
                orig_len as int,
                pipeline::dict_view(dict),
                old(st)@,
            ),
        ),
{
    let with_hist: bool = m == method::METHOD_BYTE_CM || m == method::METHOD_BYTE_EXEC_E8E9;
    let none: Vec<u8> = Vec::new();
    let decoded = if with_hist {
        byte_block::decompress_byte_with_matches(comp, orig_len, st.hist.as_slice())
    } else {
        assert(none@ =~= Seq::<u8>::empty());
        byte_block::decompress_byte_with_matches(comp, orig_len, none.as_slice())
    };
    match decoded {
        Err(e) => Err(e),
        Ok(d) => {
            if m == method::METHOD_BYTE_CM {
                st.turn_to(BlockKind::Binary);
                search::append_match_hist(&mut st.hist, d.as_slice());
            } else if m == method::METHOD_BYTE_EXEC_E8E9 {
                st.turn_to(BlockKind::Exec);
                search::append_match_hist(&mut st.hist, d.as_slice());
            } else {
                st.forget();
            }
            inverse_transform_for_method(m, d.as_slice(), orig_len, dict)
        },
    }
}

fn as_block_error(e: RcnError) -> (r: RcnError)
    ensures
        r@ == block::block_fault(e@),
{
    match e {
        RcnError::Entropy(m) => RcnError::CorruptBlock(m),
        other => other,
    }
}

fn decode_bit_block<S, F: Fn(S, Step) -> (S, u16)>(
    m: u8,
    kind: BlockKind,
    comp: &[u8],
    orig_len: usize,
    dict: Option<&XwrtDictionary>,
    st: &mut Coder,
    start: S,
    drive: &F,
) -> (r: Result<(Vec<u8>, S), RcnError>)
    requires
        predictor::drivable::<S, F>(*drive),
    ensures
        told_is(
            r,
            final(st)@,
            block::bit_block_decoded(
                m,
                kind,
                comp@,
                orig_len as int,
                pipeline::dict_view(dict),
                old(st)@,
                predictor::replies::<S, F>(*drive),
                start,
            ),
        ),
{
    let ghost before = st@;
    let front: S = if !is_kind(st.stack_kind, kind) {
        let (s, _) = predictor::ask(drive, start, Step::Rebuild(kind));
        st.hist.clear();
        st.hist_kind = Some(kind);
        st.stack_kind = Some(kind);
        assert(st@ =~= block::rebuilt_for(before, kind));
        s
    } else {
        start
    };
    assert(st@ == block::rebuilt_for(before, kind));
    let with_hist: bool = kind == BlockKind::Binary || kind == BlockKind::Exec;
    let none: Vec<u8> = Vec::new();
    assert(none@ =~= Seq::<u8>::empty());
    let decoded = if with_hist {
        bit_block::decode_block_with_matches(comp, orig_len, st.hist.as_slice(), front, drive)
    } else {
        bit_block::decode_block_with_matches(comp, orig_len, none.as_slice(), front, drive)
    };
    match decoded {
        Err(e) => Err(as_block_error(e)),
        Ok((d, told)) => match inverse_transform_for_method(m, d.as_slice(), orig_len, dict) {
            Err(e) => Err(e),
            Ok(b) => {
                let (end, _) = predictor::ask(drive, told, Step::Decay);
                if with_hist {
                    search::append_match_hist(&mut st.hist, d.as_slice());
                } else {
                    st.forget();
                }
                Ok((b, end))
            },
        },
    }
}

/// Decodes one block. A payload that is not valid and an unknown method are
/// errors.
pub fn decode_block<S, F: Fn(S, Step) -> (S, u16)>(
    m: u8,
    comp: &[u8],
    orig_len: usize,
    dict: Option<&XwrtDictionary>,
    st: &mut Coder,
    start: S,
    drive: &F,
) -> (r: Result<(Vec<u8>, S), RcnError>)
    requires
        orig_len <= u32::MAX,
        predictor::drivable::<S, F>(*drive),
    ensures
        told_is(
            r,
            final(st)@,
            block::block_decoded(
                m,
                comp@,
                orig_len as int,
                pipeline::dict_view(dict),
                old(st)@,
                predictor::replies::<S, F>(*drive),
                start,
            ),
        ),
{
    proof {
        reveal(block::block_decoded);
    }
    if m == method::METHOD_COPY {
        st.forget();
        Ok((vstd::slice::slice_to_vec(comp), start))
    } else if m == method::METHOD_WIRE {
        st.forget();
        match wire::decompress(comp, orig_len) {
            Ok(b) => Ok((b, start)),
            Err(e) => Err(e),
        }
    } else if method_is_byte(m) {
        match decode_byte_block(m, comp, orig_len, dict, st) {
            Ok(b) => Ok((b, start)),
            Err(e) => Err(e),
        }
    } else {
        match method::kind_for_method(m) {
            Ok(kind) => decode_bit_block(m, kind, comp, orig_len, dict, st, start, drive),
            Err(e) => Err(e),
        }
    }
}

fn method_is_byte(m: u8) -> (r: bool)
    ensures
        r == block::is_byte_method(m),
{
    (method::METHOD_BYTE_CM <= m && m <= method::METHOD_BYTE_XWRT_BWT_MTF_RLE) || m
        == method::METHOD_BYTE_EXEC_E8E9 || m == method::METHOD_BYTE_CSV_SPLIT || m
        == method::METHOD_BYTE_XML_SPLIT || m == method::METHOD_BYTE_TEXT
}

} // verus!
