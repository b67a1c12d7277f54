//! A whole container: what it holds and what it stands for.

use crate::bwt::frames;
use crate::bytes;
use crate::classify;
use crate::classify::{BlockKind, Measures};
use crate::codec::block;
use crate::codec::block::{Coded, CoderView};
use crate::codec::method;
use crate::codec::method::CodecMode;
use crate::codec::predictor::Step;
use crate::container;
use crate::container::{BlockEntry, Header};
use crate::error::Fault;
use crate::model::xwrt;
use crate::text;
use vstd::prelude::*;

verus! {

/// A block, its kind, and how it is coded.
#[verifier::ext_equal]
pub struct CodedBlock {
    pub block: Seq<u8>,
    pub kind: BlockKind,
    pub coded: Coded,
}

/// The length of the block that `rest` starts with.
pub open spec fn first_len(mode: CodecMode, rest: Seq<u8>, seen: Measures) -> int {
    let n = method::block_size(classify::kind_of(rest, seen), rest.len() as int, mode);
    if n < rest.len() {
        n
    } else {
        rest.len() as int
    }
}

/// The block that `rest` starts with.
pub open spec fn first_block(mode: CodecMode, rest: Seq<u8>, seen: Measures) -> Seq<u8> {
    rest.take(first_len(mode, rest, seen))
}

/// What follows that block.
pub open spec fn behind_first(mode: CodecMode, rest: Seq<u8>, seen: Measures) -> Seq<u8> {
    rest.skip(first_len(mode, rest, seen))
}

/// Whether transforms are tried on blocks of a kind.
pub open spec fn tries_transforms(mode: CodecMode, kind: BlockKind) -> bool {
    kind == BlockKind::Text && mode != CodecMode::Wire && mode != CodecMode::General
}

/// Whether the block that `rest` starts with is nearly random; this matters only
/// where transforms are tried on it.
pub open spec fn first_random(
    mode: CodecMode,
    rest: Seq<u8>,
    seen: spec_fn(Seq<u8>) -> Measures,
) -> bool {
    tries_transforms(mode, classify::kind_of(rest, seen(rest))) && seen(
        first_block(mode, rest, seen(rest)),
    ).near_random
}

/// What is kept behind that block.
pub open spec fn coder_behind(
    mode: CodecMode,
    rest: Seq<u8>,
    dict: Option<Seq<Seq<u8>>>,
    seen: spec_fn(Seq<u8>) -> Measures,
    st: CoderView,
) -> CoderView {
    block::coder_after(
        mode,
        classify::kind_of(rest, seen(rest)),
        first_block(mode, rest, seen(rest)),
        first_random(mode, rest, seen),
        dict,
        st,
    )
}

/// The predictor behind that block.
pub open spec fn predictor_behind<S>(
    mode: CodecMode,
    rest: Seq<u8>,
    dict: Option<Seq<Seq<u8>>>,
    seen: spec_fn(Seq<u8>) -> Measures,
    st: CoderView,
    f: spec_fn(S, Step) -> (S, u16),
    s: S,
) -> S {
    block::predictor_after(
        mode,
        classify::kind_of(rest, seen(rest)),
        first_block(mode, rest, seen(rest)),
        first_random(mode, rest, seen),
        dict,
        st,
        f,
        s,
    )
}

/// The block that `rest` starts with, coded.
pub open spec fn first_coded<S>(
    mode: CodecMode,
    rest: Seq<u8>,
    dict: Option<Seq<Seq<u8>>>,
    seen: spec_fn(Seq<u8>) -> Measures,
    st: CoderView,
    f: spec_fn(S, Step) -> (S, u16),
    s: S,
) -> CodedBlock {
    let kind = classify::kind_of(rest, seen(rest));
    let b = first_block(mode, rest, seen(rest));
    CodedBlock {
        block: b,
        kind,
        coded: block::block_coded(
            mode,
            kind,
            b,
            first_random(mode, rest, seen),
            dict,
            st,
            f,
            s,
        ),
    }
}

/// The blocks of `rest`, coded. `seen` gives the measures of bytes, and the
/// predictor `f` in state `s` the probabilities of bits.
pub open spec fn blocks_coded<S>(
    mode: CodecMode,
    rest: Seq<u8>,
    dict: Option<Seq<Seq<u8>>>,
    seen: spec_fn(Seq<u8>) -> Measures,
    st: CoderView,
    f: spec_fn(S, Step) -> (S, u16),
    s: S,
) -> Seq<CodedBlock>
    decreases rest.len(),
{
    if rest.len() == 0 {
        Seq::empty()
    } else {
        seq![first_coded(mode, rest, dict, seen, st, f, s)] + blocks_coded(
            mode,
            behind_first(mode, rest, seen(rest)),
            dict,
            seen,
            coder_behind(mode, rest, dict, seen, st),
            f,
            predictor_behind(mode, rest, dict, seen, st, f, s),
        )
    }
}

/// The dictionary of a container: the modes with transform trials have one.
pub open spec fn dict_for(mode: CodecMode, buf: Seq<u8>) -> Option<Seq<Seq<u8>>> {
    if mode == CodecMode::Wire || mode == CodecMode::General {
        None
    } else {
        Some(xwrt::dictionary_of(buf))
    }
}

/// The entry of a coded block.
pub open spec fn entry_of(b: CodedBlock) -> BlockEntry {
    BlockEntry {
        comp_len: b.coded.payload.len() as u32,
        orig_len: b.coded.len as u32,
        method: b.coded.method,
        crc32: container::crc_of(b.block),
    }
}

/// The entries of coded blocks as bytes.
pub open spec fn entry_list(blocks: Seq<CodedBlock>) -> Seq<Seq<u8>> {
    Seq::new(blocks.len(), |i: int| container::entry_bytes(entry_of(blocks[i])))
}

/// The payloads of coded blocks.
pub open spec fn payload_list(blocks: Seq<CodedBlock>) -> Seq<Seq<u8>> {
    Seq::new(blocks.len(), |i: int| blocks[i].coded.payload)
}

/// The header of a container.
pub open spec fn header_of(dict: Option<Seq<Seq<u8>>>, n: int) -> Header {
    Header {
        version: container::VERSION,
        flags: if dict is Some {
            container::FLAG_GLOBAL_DICT
        } else {
            0
        },
        block_size_log: method::DEFAULT_BLOCK_SIZE_LOG,
        num_blocks: n as u32,
    }
}

/// The dictionary of a container as bytes.
pub open spec fn dict_part(dict: Option<Seq<Seq<u8>>>) -> Seq<u8> {
    match dict {
        Some(g) => container::dict_frame(xwrt::dict_bytes(g)),
        None => Seq::empty(),
    }
}

/// The container of coded blocks.
pub open spec fn assembled(dict: Option<Seq<Seq<u8>>>, blocks: Seq<CodedBlock>) -> Seq<u8> {
    let n = blocks.len() as int;
    container::header_bytes(header_of(dict, n)) + dict_part(dict) + frames::concat_upto(
        entry_list(blocks),
        n,
    ) + frames::concat_upto(payload_list(blocks), n)
}

/// The container of `buf`.
pub open spec fn compressed<S>(
    mode: CodecMode,
    buf: Seq<u8>,
    seen: spec_fn(Seq<u8>) -> Measures,
    f: spec_fn(S, Step) -> (S, u16),
    s: S,
) -> Seq<u8> {
    assembled(dict_for(mode, buf), buf_coded(mode, buf, seen, f, s))
}

/// The blocks of `buf`, coded.
pub open spec fn buf_coded<S>(
    mode: CodecMode,
    buf: Seq<u8>,
    seen: spec_fn(Seq<u8>) -> Measures,
    f: spec_fn(S, Step) -> (S, u16),
    s: S,
) -> Seq<CodedBlock> {
    blocks_coded(mode, buf, dict_for(mode, buf), seen, block::fresh(), f, s)
}

/// The entries from `start` on.
pub open spec fn entries_at(d: Seq<u8>, start: int, n: int) -> Seq<BlockEntry> {
    Seq::new(n as nat, |i: int| container::entry_read(d, start + 13 * i))
}

/// What the blocks from number `i` on stand for; the payload of block `i` starts
/// at `pos`, `out` is decoded, and the predictor `f` is in state `s`.
pub open spec fn blocks_decoded<S>(
    payloads: Seq<u8>,
    entries: Seq<BlockEntry>,
    i: int,
    pos: int,
    dict: Option<Seq<Seq<u8>>>,
    st: CoderView,
    f: spec_fn(S, Step) -> (S, u16),
    s: S,
    out: Seq<u8>,
) -> Result<Seq<u8>, Fault>
    decreases entries.len() - i,
{
    if i >= entries.len() {
        Ok(out)
    } else {
        let e = entries[i];
        if pos + e.comp_len > payloads.len() {
            Err(Fault::TruncatedStream(i))
        } else {
            match block::block_decoded(
                e.method,
                payloads.subrange(pos, pos + e.comp_len),
                e.orig_len as int,
                dict,
                st,
                f,
                s,
            ) {
                Err(f) => Err(f),
                Ok((b, after, t)) => if container::crc_of(b) != e.crc32 {
                    Err(Fault::CrcMismatch(i, container::crc_of(b) as int, e.crc32 as int))
                } else {
                    blocks_decoded(
                        payloads,
                        entries,
                        i + 1,
                        pos + e.comp_len,
                        dict,
                        after,
                        f,
                        t,
                        out + b,
                    )
                },
            }
        }
    }
}

/// What is said of an entry table that overruns the container.
pub open spec fn table_text(n: int, start: int, total: int) -> Seq<char> {
    "num_blocks "@ + text::decimal(n) + " requires "@ + text::decimal(13 * n)
        + " entry bytes past offset "@ + text::decimal(start) + ", only "@ + text::decimal(
        total - start,
    ) + " available"@
}

/// The dictionary that a container's dictionary bytes hold.
pub open spec fn read_dict(d: Seq<u8>) -> Option<Seq<Seq<u8>>> {
    xwrt::parsed_dict(d)
}

/// What a container stands for, with the predictor `f` in state `s`.
pub open spec fn decompressed<S>(
    data: Seq<u8>,
    f: spec_fn(S, Step) -> (S, u16),
    s: S,
) -> Result<Seq<u8>, Fault> {
    match container::header_at(data, 0) {
        Err(f) => Err(f),
        Ok((h, pos)) => if h.version != container::VERSION {
            Err(
                Fault::InvalidContainer("unsupported version "@ + text::decimal(h.version as int)),
            )
        } else {
            match container::dict_at(data, pos, h.flags) {
                Err(f) => Err(f),
                Ok((dict_bytes, start)) => {
                    let n = h.num_blocks as int;
                    if start + 13 * n > data.len() {
                        Err(
                            Fault::InvalidContainer(table_text(n, start, data.len() as int)),
                        )
                    } else {
                        blocks_decoded(
                            data.skip(start + 13 * n),
                            entries_at(data, start, n),
                            0,
                            0,
                            read_dict(dict_bytes),
                            block::fresh(),
                            f,
                            s,
                            Seq::empty(),
                        )
                    }
                },
            }
        },
    }
}

} // verus!
