//! Blocks that are coded byte by byte: matches in front, literals behind them.

use crate::bytecodec;
use crate::classify::BlockKind;
use crate::codec::search;
use crate::codec::side;
use crate::error;
use crate::error::{Fault, RcnError};
use vstd::prelude::*;

verus! {

/// A block that follows `hist`, coded byte by byte.
pub open spec fn byte_coded(hist: Seq<u8>, block: Seq<u8>, kind: BlockKind) -> Seq<u8> {
    let runs = search::scanned(hist, block, kind);
    side::side_frame(runs) + bytecodec::block_stream(side::literals(block, runs, 0))
}

/// What a coded block of `n` bytes that follows `hist` stands for.
pub open spec fn byte_decoded(comp: Seq<u8>, n: int, hist: Seq<u8>) -> Result<Seq<u8>, Fault> {
    match side::side_at(comp) {
        Err(e) => Err(e),
        Ok((runs, end)) => match bytecodec::block_decoded(
            comp.skip(end),
            side::literal_count(n, runs, 0),
        ) {
            Ok(lits) => Ok(side::rebuilt(hist, n, runs, lits, Seq::empty())),
            Err(e) => Err(e),
        },
    }
}

/// Whether the matches of a block can be written in front of it.
pub open spec fn matches_fit(hist: Seq<u8>, block: Seq<u8>, kind: BlockKind) -> bool {
    hist.len() + block.len() <= u32::MAX && side::records(
        search::scanned(hist, block, kind),
        0,
    ).len() <= u32::MAX
}

/// The matches of a block of moderate length can be written.
pub proof fn lemma_matches_fit(hist: Seq<u8>, block: Seq<u8>, kind: BlockKind)
    requires
        hist.len() <= 67108864,
        block.len() <= 67108864,
    ensures
        matches_fit(hist, block, kind),
{
    let runs = search::scanned(hist, block, kind);
    search::law_scanned_fit(hist, block, kind);
    side::lemma_fit_writable(hist, block, runs, 0, 0);
    side::lemma_records_len(runs, 0);
}

/// Decoding a coded block gives the block back, also with a history that reaches
/// further back than that of the encoder.
pub proof fn law_byte_round_trip(
    hist: Seq<u8>,
    longer: Seq<u8>,
    block: Seq<u8>,
    kind: BlockKind,
)
    requires
        matches_fit(hist, block, kind),
        side::ends_with(longer, hist),
    ensures
        byte_decoded(byte_coded(hist, block, kind), block.len() as int, longer) == Ok::<
            Seq<u8>,
            Fault,
        >(block),
{
    let runs = search::scanned(hist, block, kind);
    let lits = side::literals(block, runs, 0);
    let frame = side::side_frame(runs);
    let body = bytecodec::block_stream(lits);
    search::law_scanned_fit(hist, block, kind);
    side::lemma_fit_writable(hist, block, runs, 0, 0);
    side::law_side_round_trip(runs, body);
    assert((frame + body).skip(frame.len() as int) =~= body);
    side::lemma_literal_count(block, runs, 0);
    bytecodec::law_block_round_trip(lits);
    side::law_rebuilt(hist, longer, block, runs, 0);
    assert(block.take(0) =~= Seq::<u8>::empty());
}

/// Codes a block byte by byte: finds its matches, writes them, and codes the
/// bytes that they do not cover.
pub fn compress_byte_with_matches(data: &[u8], kind: BlockKind, hist: &[u8]) -> (out: Vec<u8>)
    requires
        matches_fit(hist@, data@, kind),
    ensures
        out@ == byte_coded(hist@, data@, kind),
{
    let runs = search::scan_matches(data, kind, hist);
    let ghost views = search::run_views(runs@);
    proof {
        search::law_scanned_fit(hist@, data@, kind);
        side::lemma_fit_writable(hist@, data@, views, 0, 0);
        lemma_run_lens(hist@, data@, views, 0);
        assert forall|i: int| 0 <= i < runs@.len() implies (#[trigger] runs@[i]).len
            <= u32::MAX by {
            assert(views[i].len == runs@[i].len);
        }
    }
    let mut out: Vec<u8> = Vec::new();
    side::write_side(&mut out, &runs);
    let lits = side::collect_literals(data, &runs);
    let body = bytecodec::compress_block(lits.as_slice());
    crate::bytes::push_slice(&mut out, body.as_slice());
    assert(out@ =~= byte_coded(hist@, data@, kind));
    out
}

/// Matches that fit a block are short.
pub proof fn lemma_run_lens(hist: Seq<u8>, block: Seq<u8>, runs: Seq<search::Run>, from: int)
    requires
        search::runs_fit(hist, block, runs, from),
    ensures
        forall|i: int| 0 <= i < runs.len() ==> 0 < (#[trigger] runs[i]).len <= search::MAX_MATCH,
    decreases runs.len(),
{
    if runs.len() > 0 {
        let rest = runs.drop_first();
        lemma_run_lens(hist, block, rest, runs[0].pos + runs[0].len);
        assert forall|i: int| 0 <= i < runs.len() implies 0 < (#[trigger] runs[i]).len
            <= search::MAX_MATCH by {
            if i > 0 {
                assert(rest[i - 1] == runs[i]);
            }
        }
    }
}

/// Decodes a block that was coded byte by byte. A side-stream or entropy stream
/// that is not valid is an error.
pub fn decompress_byte_with_matches(comp: &[u8], orig_len: usize, hist: &[u8]) -> (r: Result<
    Vec<u8>,
    RcnError,
>)
    requires
        orig_len <= u32::MAX,
    ensures
        error::outcome(r) == byte_decoded(comp@, orig_len as int, hist@),
{
    match side::read_side(comp) {
        Err(e) => Err(e),
        Ok((runs, end)) => {
            let count: usize = side::count_literals(orig_len, &runs);
            let body = vstd::slice::slice_subrange(comp, end, comp.len());
            assert(body@ =~= comp@.skip(end as int));
            match bytecodec::decompress_block(body, count) {
                Ok(lits) => {
                    proof {
                        bytecodec::lemma_block_decoded_len(comp@.skip(end as int), count as int);
                    }
                    Ok(side::rebuild(hist, orig_len, &runs, lits.as_slice()))
                },
                Err(e) => Err(e),
            }
        },
    }
}

} // verus!
