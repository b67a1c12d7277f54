//! One block: what is coded, with which method, and what is kept for the blocks
//! behind it.

use crate::bwt::pipeline;
use crate::bwt::pipeline::BwtPipeline;
use crate::bwt::trial;
use crate::classify::BlockKind;
use crate::codec::bit_block;
use crate::codec::byte_block;
use crate::codec::method;
use crate::codec::method::CodecMode;
use crate::codec::predictor;
use crate::codec::predictor::Step;
use crate::codec::search;
use crate::codec::side;
use crate::error::Fault;
use crate::model::e8e9;
use crate::model::xwrt;
use crate::wire;
use vstd::prelude::*;

verus! {

/// What is kept between blocks: bytes for matches across blocks, the kind of
/// block that they come from, and the kind that the models were built for.
pub struct Coder {
    pub hist: Vec<u8>,
    pub hist_kind: Option<BlockKind>,
    pub stack_kind: Option<BlockKind>,
}

/// The same as contracts speak of it.
#[verifier::ext_equal]
pub struct CoderView {
    pub hist: Seq<u8>,
    pub hist_kind: Option<BlockKind>,
    pub stack_kind: Option<BlockKind>,
}

impl View for Coder {
    type V = CoderView;

    open spec fn view(&self) -> CoderView {
        CoderView {
            hist: self.hist@,
            hist_kind: self.hist_kind,
            stack_kind: self.stack_kind,
        }
    }
}

/// Nothing is kept in front of the first block.
pub open spec fn fresh() -> CoderView {
    CoderView { hist: Seq::empty(), hist_kind: None, stack_kind: None }
}

/// The history is forgotten.
pub open spec fn forgotten(st: CoderView) -> CoderView {
    CoderView { hist: Seq::empty(), hist_kind: None, stack_kind: st.stack_kind }
}

/// A coded block: payload, method, and the number of bytes that the entropy
/// decoder gives.
#[verifier::ext_equal]
pub struct Coded {
    pub payload: Seq<u8>,
    pub method: u8,
    pub len: int,
}

/// A coded block.
pub struct Encoded {
    pub payload: Vec<u8>,
    pub method: u8,
    pub len: usize,
}

impl View for Encoded {
    type V = Coded;

    open spec fn view(&self) -> Coded {
        Coded { payload: self.payload@, method: self.method, len: self.len as int }
    }
}

/// A block as it is.
pub open spec fn stored(block: Seq<u8>) -> Coded {
    Coded { payload: block, method: method::METHOD_COPY, len: block.len() as int }
}

/// A block of the hash-chain engine; it is stored where it does not shrink.
pub open spec fn wire_block(block: Seq<u8>) -> Coded {
    let comp = wire::wire_coded(block);
    if block.len() == 0 || comp.len() >= block.len() {
        stored(block)
    } else {
        Coded { payload: comp, method: method::METHOD_WIRE, len: block.len() as int }
    }
}

/// The pipeline that is chosen for a text block.
pub open spec fn text_pipeline(
    block: Seq<u8>,
    near_random: bool,
    dict: Option<Seq<Seq<u8>>>,
) -> BwtPipeline {
    trial::trial_choice(block, dict, near_random)
}

/// The payload of the chosen pipeline.
pub open spec fn text_payload(
    block: Seq<u8>,
    near_random: bool,
    dict: Option<Seq<Seq<u8>>>,
) -> Seq<u8> {
    pipeline::pipeline_coded(text_pipeline(block, near_random, dict), block, dict)
}

/// What of a block is entropy-coded, and kept for matches.
pub open spec fn domain(
    mode: CodecMode,
    kind: BlockKind,
    block: Seq<u8>,
    near_random: bool,
    dict: Option<Seq<Seq<u8>>>,
) -> Seq<u8> {
    match kind {
        BlockKind::Exec => e8e9::e8e9_coded(block),
        BlockKind::Text => if mode == CodecMode::General {
            block
        } else {
            text_payload(block, near_random, dict)
        },
        _ => block,
    }
}

/// The history that a block of a kind may match.
pub open spec fn usable_hist(st: CoderView, kind: BlockKind) -> Seq<u8> {
    if (kind == BlockKind::Binary || kind == BlockKind::Exec) && st.hist_kind == Some(kind) {
        st.hist
    } else {
        Seq::empty()
    }
}

/// The method of an entropy-coded block.
pub open spec fn coded_method(mode: CodecMode, kind: BlockKind, p: BwtPipeline) -> u8 {
    if method::is_slow(mode, kind) {
        match kind {
            BlockKind::Text => method::pipeline_method(p, CodecMode::Slow),
            BlockKind::Exec => method::METHOD_EXEC,
            _ => method::METHOD_BINARY,
        }
    } else {
        match kind {
            BlockKind::Text => if mode == CodecMode::General {
                method::METHOD_BYTE_TEXT
            } else {
                method::pipeline_method(p, CodecMode::Fast)
            },
            BlockKind::Exec => method::METHOD_BYTE_EXEC_E8E9,
            _ => method::METHOD_BYTE_CM,
        }
    }
}

/// Whether a block is coded bit by bit.
pub open spec fn bit_level(mode: CodecMode, kind: BlockKind) -> bool {
    method::is_slow(mode, kind) && kind != BlockKind::Random
}

/// A block of a kind that is stored or coded byte by byte.
pub open spec fn byte_level_coded(
    mode: CodecMode,
    kind: BlockKind,
    block: Seq<u8>,
    near_random: bool,
    dict: Option<Seq<Seq<u8>>>,
    st: CoderView,
) -> Coded {
    if mode == CodecMode::Wire {
        wire_block(block)
    } else if kind == BlockKind::Random {
        stored(block)
    } else {
        let d = domain(mode, kind, block, near_random, dict);
        Coded {
            payload: byte_block::byte_coded(usable_hist(st, kind), d, kind),
            method: coded_method(mode, kind, text_pipeline(block, near_random, dict)),
            len: d.len() as int,
        }
    }
}

/// A block of a kind, coded in a mode with a predictor.
#[verifier::opaque]
pub open spec fn block_coded<S>(
    mode: CodecMode,
    kind: BlockKind,
    block: Seq<u8>,
    near_random: bool,
    dict: Option<Seq<Seq<u8>>>,
    st: CoderView,
    f: spec_fn(S, Step) -> (S, u16),
    s: S,
) -> Coded {
    if bit_level(mode, kind) {
        let d = domain(mode, kind, block, near_random, dict);
        Coded {
            payload: bit_block::slow_coded(
                f,
                predictor::rebuilt(f, s, st.stack_kind, kind),
                usable_hist(st, kind),
                d,
                kind,
            ),
            method: coded_method(mode, kind, text_pipeline(block, near_random, dict)),
            len: d.len() as int,
        }
    } else {
        byte_level_coded(mode, kind, block, near_random, dict, st)
    }
}

/// The predictor behind a block: one that is coded bit by bit takes it through
/// its bytes.
#[verifier::opaque]
pub open spec fn predictor_after<S>(
    mode: CodecMode,
    kind: BlockKind,
    block: Seq<u8>,
    near_random: bool,
    dict: Option<Seq<Seq<u8>>>,
    st: CoderView,
    f: spec_fn(S, Step) -> (S, u16),
    s: S,
) -> S {
    if bit_level(mode, kind) {
        predictor::faded(
            f,
            bit_block::slow_told(
                f,
                predictor::rebuilt(f, s, st.stack_kind, kind),
                usable_hist(st, kind),
                domain(mode, kind, block, near_random, dict),
                kind,
            ),
        )
    } else {
        s
    }
}

/// What is kept behind a block.
#[verifier::opaque]
pub open spec fn coder_after(
    mode: CodecMode,
    kind: BlockKind,
    block: Seq<u8>,
    near_random: bool,
    dict: Option<Seq<Seq<u8>>>,
    st: CoderView,
) -> CoderView {
    if mode == CodecMode::Wire || kind == BlockKind::Random {
        forgotten(st)
    } else {
        let stack_kind = if method::is_slow(mode, kind) {
            Some(kind)
        } else {
            st.stack_kind
        };
        if kind == BlockKind::Text {
            CoderView { hist: Seq::empty(), hist_kind: None, stack_kind }
        } else {
            CoderView {
                hist: search::extended(
                    usable_hist(st, kind),
                    domain(mode, kind, block, near_random, dict),
                ),
                hist_kind: Some(kind),
                stack_kind,
            }
        }
    }
}

/// The pipeline whose payload a method codes.
pub open spec fn method_pipeline(m: u8) -> Option<BwtPipeline> {
    if m == method::METHOD_BYTE_BWT_MTF_RLE || m == method::METHOD_BWT_MTF_RLE {
        Some(BwtPipeline::BwtMtfRle)
    } else if m == method::METHOD_BYTE_LZP_BWT_MTF || m == method::METHOD_LZP_BWT_MTF {
        Some(BwtPipeline::LzpBwtMtf)
    } else if m == method::METHOD_BYTE_JSON_SPLIT || m == method::METHOD_JSON_SPLIT {
        Some(BwtPipeline::JsonSplit)
    } else if m == method::METHOD_BYTE_XWRT_BWT_MTF_RLE || m == method::METHOD_XWRT_BWT_MTF_RLE {
        Some(BwtPipeline::XwrtBwtMtfRle)
    } else if m == method::METHOD_BYTE_CSV_SPLIT || m == method::METHOD_CSV_SPLIT {
        Some(BwtPipeline::CsvSplit)
    } else if m == method::METHOD_BYTE_XML_SPLIT || m == method::METHOD_XML_SPLIT {
        Some(BwtPipeline::XmlSplit)
    } else {
        None
    }
}

/// Undoes the transform of a method.
pub open spec fn transform_undone(m: u8, d: Seq<u8>, dict: Option<Seq<Seq<u8>>>) -> Result<
    Seq<u8>,
    Fault,
> {
    match method_pipeline(m) {
        Some(p) => pipeline::pipeline_decoded(p, d, dict),
        None => if m == method::METHOD_BYTE_EXEC_E8E9 || m == method::METHOD_EXEC {
            Ok(e8e9::e8e9_plain(d))
        } else {
            Ok(d)
        },
    }
}

/// Whether a method codes byte by byte.
pub open spec fn is_byte_method(m: u8) -> bool {
    method::METHOD_BYTE_CM <= m <= method::METHOD_BYTE_XWRT_BWT_MTF_RLE || m
        == method::METHOD_BYTE_EXEC_E8E9 || m == method::METHOD_BYTE_CSV_SPLIT || m
        == method::METHOD_BYTE_XML_SPLIT || m == method::METHOD_BYTE_TEXT
}

/// The history behind a block of a kind; bytes of another kind are forgotten.
pub open spec fn kept_behind(st: CoderView, kind: BlockKind, d: Seq<u8>) -> CoderView {
    CoderView {
        hist: search::extended(
            if st.hist_kind == Some(kind) {
                st.hist
            } else {
                Seq::empty()
            },
            d,
        ),
        hist_kind: Some(kind),
        stack_kind: st.stack_kind,
    }
}

/// What a byte-level payload stands for, and what is kept behind it.
pub open spec fn byte_block_decoded(
    m: u8,
    comp: Seq<u8>,
    n: int,
    dict: Option<Seq<Seq<u8>>>,
    st: CoderView,
) -> Result<(Seq<u8>, CoderView), Fault> {
    let with_hist = m == method::METHOD_BYTE_CM || m == method::METHOD_BYTE_EXEC_E8E9;
    let hist = if with_hist {
        st.hist
    } else {
        Seq::empty()
    };
    match byte_block::byte_decoded(comp, n, hist) {
        Err(e) => Err(e),
        Ok(d) => {
            let after = if m == method::METHOD_BYTE_CM {
                kept_behind(st, BlockKind::Binary, d)
            } else if m == method::METHOD_BYTE_EXEC_E8E9 {
                kept_behind(st, BlockKind::Exec, d)
            } else {
                forgotten(st)
            };
            match transform_undone(m, d, dict) {
                Ok(block) => Ok((block, after)),
                Err(e) => Err(e),
            }
        },
    }
}

/// A fault of the bit-level coder is a fault of the block.
pub open spec fn block_fault(f: Fault) -> Fault {
    match f {
        Fault::Entropy(m) => Fault::CorruptBlock(m),
        other => other,
    }
}

/// What is kept in front of a bit-level block: models of another kind are
/// replaced, and the history goes with them.
pub open spec fn rebuilt_for(st: CoderView, kind: BlockKind) -> CoderView {
    if st.stack_kind == Some(kind) {
        st
    } else {
        CoderView { hist: Seq::empty(), hist_kind: Some(kind), stack_kind: Some(kind) }
    }
}

/// The history that the decoder of a bit-level block uses.
pub open spec fn bit_hist(st: CoderView, kind: BlockKind) -> Seq<u8> {
    if kind == BlockKind::Binary || kind == BlockKind::Exec {
        rebuilt_for(st, kind).hist
    } else {
        Seq::empty()
    }
}

/// What a bit-level payload stands for, and what is kept behind it.
pub open spec fn bit_block_decoded<S>(
    m: u8,
    kind: BlockKind,
    comp: Seq<u8>,
    n: int,
    dict: Option<Seq<Seq<u8>>>,
    st: CoderView,
    f: spec_fn(S, Step) -> (S, u16),
    s: S,
) -> Result<(Seq<u8>, CoderView, S), Fault> {
    let now = rebuilt_for(st, kind);
    let with_hist = kind == BlockKind::Binary || kind == BlockKind::Exec;
    let front = predictor::rebuilt(f, s, st.stack_kind, kind);
    match bit_block::bit_decoded(f, front, comp, n, bit_hist(st, kind)) {
        Err(e) => Err(block_fault(e)),
        Ok((d, t)) => match transform_undone(m, d, dict) {
            Err(e) => Err(e),
            Ok(block) => Ok(
                (
                    block,
                    if with_hist {
                        CoderView {
                            hist: search::extended(now.hist, d),
                            hist_kind: now.hist_kind,
                            stack_kind: now.stack_kind,
                        }
                    } else {
                        forgotten(now)
                    },
                    predictor::faded(f, t),
                ),
            ),
        },
    }
}

/// What a payload stands for, and what is kept behind it.
#[verifier::opaque]
pub open spec fn block_decoded<S>(
    m: u8,
    comp: Seq<u8>,
    n: int,
    dict: Option<Seq<Seq<u8>>>,
    st: CoderView,
    f: spec_fn(S, Step) -> (S, u16),
    s: S,
) -> Result<(Seq<u8>, CoderView, S), Fault> {
    if m == method::METHOD_COPY {
        Ok((comp, forgotten(st), s))
    } else if m == method::METHOD_WIRE {
        match wire::wire_decoded(comp, n) {
            Ok(block) => Ok((block, forgotten(st), s)),
            Err(e) => Err(e),
        }
    } else if is_byte_method(m) {
        match byte_block_decoded(m, comp, n, dict, st) {
            Ok((block, after)) => Ok((block, after, s)),
            Err(e) => Err(e),
        }
    } else {
        match method::method_kind(m) {
            Ok(kind) => bit_block_decoded(m, kind, comp, n, dict, st, f, s),
            Err(e) => Err(e),
        }
    }
}

/// Whether the decoder's state goes with the encoder's: the same models, and a
/// history that ends with the encoder's wherever the encoder may use it.
pub open spec fn in_step(mode: CodecMode, enc: CoderView, dec: CoderView) -> bool {
    &&& enc.stack_kind == dec.stack_kind
    &&& side::ends_with(dec.hist, enc.hist)
    &&& enc.hist.len() > 0 ==> match enc.hist_kind {
        None => false,
        Some(kind) => if method::is_slow(mode, kind) {
            enc.stack_kind == Some(kind)
        } else {
            dec.hist_kind == Some(kind)
        },
    }
}

/// The largest history and block for which everything fits.
pub open spec fn sized(st: CoderView, block: Seq<u8>) -> bool {
    st.hist.len() <= search::MATCH_HIST_CAP && block.len() <= method::MAX_BLOCK
}

/// A dictionary that a container can hold and every pipeline can use.
pub open spec fn dict_fits(dict: Option<Seq<Seq<u8>>>) -> bool {
    dict matches Some(g) ==> xwrt::no_endless_word(g) && g.len() <= xwrt::MAX_XWRT_WORDS
}

} // verus!
