//! How data is cut into blocks, what of a block is coded, and what of it the blocks
//! behind it may match.

use crate::bwt::pipeline;
use crate::bwt::trial;
use crate::bytecodec;
use crate::classify;
use crate::classify::{BlockKind, Measures};
use crate::codec::bit_block;
use crate::codec::block;
use crate::codec::block::CoderView;
use crate::codec::byte_block;
use crate::codec::method::CodecMode;
use crate::codec::predictor;
use crate::codec::predictor::Step;
use crate::codec::search;
use crate::codec::search::Run;
use crate::codec::side;
use crate::codec::stream;
use crate::model::e8e9;
use crate::wire;
use vstd::prelude::*;

verus! {

/// The hash-chain engine cuts blocks of 4 MiB, and so do the others from text;
/// binary data and code is cut into blocks of 1 MiB, random data into blocks of
/// 64 KiB. The last block has what is left.
pub proof fn law_block_lengths(mode: CodecMode, rest: Seq<u8>, m: Measures)
    requires
        rest.len() > 0,
    ensures
        ({
            let kind = classify::kind_of(rest, m);
            let cap: int = if mode == CodecMode::Wire || kind == BlockKind::Text {
                0x40_0000
            } else if kind == BlockKind::Random {
                0x1_0000
            } else {
                0x10_0000
            };
            stream::first_len(mode, rest, m) == if rest.len() <= cap {
                rest.len() as int
            } else {
                cap
            }
        }),
{
}

/// Behind a block of binary data or code the next block of that kind may match the
/// last 4 MiB of what was coded: what the block could match itself, and the block,
/// code with absolute targets. A block of text, a random one and one of the
/// hash-chain engine leave nothing.
pub proof fn law_history_is_kept(
    mode: CodecMode,
    kind: BlockKind,
    b: Seq<u8>,
    near_random: bool,
    dict: Option<Seq<Seq<u8>>>,
    st: CoderView,
)
    ensures
        ({
            let after = block::coder_after(mode, kind, b, near_random, dict, st);
            let coded = if kind == BlockKind::Exec {
                e8e9::e8e9_coded(b)
            } else {
                b
            };
            let all = block::usable_hist(st, kind) + coded;
            if mode != CodecMode::Wire && (kind == BlockKind::Binary || kind == BlockKind::Exec) {
                block::usable_hist(after, kind) == if all.len() <= 0x40_0000 {
                    all
                } else {
                    all.skip(all.len() - 0x40_0000)
                }
            } else {
                forall|k: BlockKind| (#[trigger] block::usable_hist(after, k)).len() == 0
            }
        }),
{
    reveal(block::coder_after);
}

/// A block of binary data or code may match what the blocks of its own kind right
/// before it left, and nothing of another kind; other blocks, and the first one of
/// all, may match nothing.
pub proof fn law_history_of_a_kind(st: CoderView, kind: BlockKind)
    ensures
        ({
            let own = st.hist_kind == Some(kind) && (kind == BlockKind::Binary || kind
                == BlockKind::Exec);
            &&& own ==> block::usable_hist(st, kind) == st.hist
            &&& !own ==> block::usable_hist(st, kind).len() == 0
            &&& block::usable_hist(block::fresh(), kind).len() == 0
            &&& block::fresh().stack_kind is None
        }),
{
}

/// A random block is stored as it is; one of the hash-chain engine is stored where
/// its payload is not shorter. Text is coded as the trials choose, and as it is
/// without trials; code is coded with absolute targets; binary data as it is. Byte
/// by byte or bit by bit, code and binary data follow their history.
pub proof fn law_what_is_coded<S>(
    mode: CodecMode,
    kind: BlockKind,
    b: Seq<u8>,
    near_random: bool,
    dict: Option<Seq<Seq<u8>>>,
    st: CoderView,
    f: spec_fn(S, Step) -> (S, u16),
    s: S,
)
    ensures
        ({
            let c = block::block_coded(mode, kind, b, near_random, dict, st, f, s);
            let text = if mode == CodecMode::General {
                b
            } else {
                pipeline::pipeline_coded(trial::trial_choice(b, dict, near_random), b, dict)
            };
            let data = match kind {
                BlockKind::Text => text,
                BlockKind::Exec => e8e9::e8e9_coded(b),
                _ => b,
            };
            let hist = if kind == BlockKind::Text {
                Seq::empty()
            } else {
                block::usable_hist(st, kind)
            };
            let by_bits = mode == CodecMode::Slow || mode == CodecMode::Hybrid && (kind
                == BlockKind::Binary || kind == BlockKind::Exec);
            let packed = wire::wire_coded(b);
            if mode == CodecMode::Wire {
                if b.len() > 0 && packed.len() < b.len() {
                    c.payload == packed && c.method == 19
                } else {
                    c.payload == b && c.method == 0
                }
            } else if kind == BlockKind::Random {
                c.payload == b && c.method == 0
            } else if by_bits {
                c.payload == bit_block::slow_coded(
                    f,
                    predictor::rebuilt(f, s, st.stack_kind, kind),
                    hist,
                    data,
                    kind,
                ) && c.len == data.len()
            } else {
                c.payload == byte_block::byte_coded(hist, data, kind) && c.len == data.len()
            }
        }),
{
    reveal(block::block_coded);
}

proof fn lemma_literals_len(hist: Seq<u8>, b: Seq<u8>, runs: Seq<Run>, from: int, i: int)
    requires
        0 <= i <= b.len(),
        search::runs_fit(hist, b, runs, from),
        from <= i,
        runs.len() > 0 ==> i <= runs[0].pos,
    ensures
        side::literals(b, runs, i).len() == b.len() - i - search::covered(runs),
    decreases b.len() - i, runs.len(),
{
    if i < b.len() {
        if runs.len() > 0 && runs[0].pos == i {
            let rest = runs.drop_first();
            let end = i + runs[0].len;
            lemma_runs_behind(hist, b, rest, end);
            lemma_literals_len(hist, b, rest, end, end);
        } else {
            lemma_literals_len(hist, b, runs, from, i + 1);
        }
    } else if runs.len() > 0 {
        assert(runs[0].pos + runs[0].len <= b.len());
    }
}

proof fn lemma_runs_behind(hist: Seq<u8>, b: Seq<u8>, runs: Seq<Run>, from: int)
    requires
        search::runs_fit(hist, b, runs, from),
    ensures
        runs.len() > 0 ==> from <= runs[0].pos,
{
}

/// A block is coded as its matches and, behind them, the stream of the bytes that no
/// match covers: as many as the block has less what the matches cover.
pub proof fn law_matches_are_left_out<S>(
    hist: Seq<u8>,
    b: Seq<u8>,
    kind: BlockKind,
    f: spec_fn(S, Step) -> (S, u16),
    s: S,
)
    ensures
        ({
            let runs = search::scanned(hist, b, kind);
            let lits = side::literals(b, runs, 0);
            &&& lits.len() == b.len() - search::covered(runs)
            &&& byte_block::byte_coded(hist, b, kind) == side::side_frame(runs)
                + bytecodec::block_stream(lits)
            &&& bit_block::slow_coded(f, s, hist, b, kind) == side::side_frame(runs)
                + bit_block::plain_coded(lits, bit_block::body_given(f, s, b, runs))
        }),
{
    let runs = search::scanned(hist, b, kind);
    search::law_scanned_fit(hist, b, kind);
    lemma_runs_behind(hist, b, runs, 0);
    lemma_literals_len(hist, b, runs, 0, 0);
}

} // verus!
