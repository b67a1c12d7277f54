//! What a predictor is told of a block, how likely bits are coded, and with which
//! numbers a block is recorded.

use crate::bwt::pipeline;
use crate::bwt::pipeline::BwtPipeline;
use crate::bwt::trial;
use crate::bytes;
use crate::classify;
use crate::classify::{BlockKind, Measures};
use crate::codec::block;
use crate::codec::block::CoderView;
use crate::codec::method::CodecMode;
use crate::codec::predictor;
use crate::codec::predictor::Step;
use crate::codec::search;
use crate::codec::search::Run;
use crate::codec::side;
use crate::codec::stream;
use crate::codec::varint;
use crate::container;
use crate::entropy::range;
use crate::model::e8e9;
use crate::model::history_law;
use crate::model::lzp;
use crate::model::xwrt;
use vstd::prelude::*;

verus! {

/// How many of the steps ask for a probability.
pub open spec fn asked(steps: Seq<Step>) -> int {
    steps.filter(|s: Step| s == Step::Predict).len() as int
}

/// How many of the steps tell a bit.
pub open spec fn bits_told(steps: Seq<Step>) -> int {
    steps.filter(|s: Step| s is Learn).len() as int
}

/// How many of the steps tell a byte that a match covers.
pub open spec fn bytes_told(steps: Seq<Step>) -> int {
    steps.filter(|s: Step| s is Skip).len() as int
}

proof fn lemma_joined(a: Seq<Step>, b: Seq<Step>)
    ensures
        asked(a + b) == asked(a) + asked(b),
        bits_told(a + b) == bits_told(a) + bits_told(b),
        bytes_told(a + b) == bytes_told(a) + bytes_told(b),
    decreases b.len(),
{
    reveal(Seq::filter);
    if b.len() > 0 {
        lemma_joined(a, b.drop_last());
        assert((a + b).drop_last() =~= a + b.drop_last());
        assert((a + b).last() == b.last());
    } else {
        assert(a + b =~= a);
    }
}

proof fn lemma_one(s: Step)
    ensures
        asked(seq![s]) == if s == Step::Predict {
            1int
        } else {
            0
        },
        bits_told(seq![s]) == if s is Learn {
            1int
        } else {
            0
        },
        bytes_told(seq![s]) == if s is Skip {
            1int
        } else {
            0
        },
{
    reveal(Seq::filter);
    assert(seq![s].drop_last() =~= Seq::<Step>::empty());
    assert(Seq::<Step>::empty().filter(|s: Step| s == Step::Predict).len() == 0);
    assert(Seq::<Step>::empty().filter(|s: Step| s is Learn).len() == 0);
    assert(Seq::<Step>::empty().filter(|s: Step| s is Skip).len() == 0);
}

proof fn lemma_bit_steps(b: u8, k: int)
    requires
        0 <= k,
    ensures
        asked(predictor::bit_steps(b, k)) == k,
        bits_told(predictor::bit_steps(b, k)) == k,
        bytes_told(predictor::bit_steps(b, k)) == 0,
    decreases k,
{
    reveal(Seq::filter);
    if k > 0 {
        lemma_bit_steps(b, k - 1);
        let front = predictor::bit_steps(b, k - 1);
        let one = seq![Step::Predict];
        let two = seq![Step::Learn(lzp::bit_from_top(b, k - 1))];
        assert(predictor::bit_steps(b, k) =~= front + one + two);
        lemma_joined(front + one, two);
        lemma_joined(front, one);
        lemma_one(Step::Predict);
        lemma_one(Step::Learn(lzp::bit_from_top(b, k - 1)));
    }
}

proof fn lemma_skip_steps(bytes: Seq<u8>)
    ensures
        asked(predictor::skip_steps(bytes)) == 0,
        bits_told(predictor::skip_steps(bytes)) == 0,
        bytes_told(predictor::skip_steps(bytes)) == bytes.len(),
    decreases bytes.len(),
{
    reveal(Seq::filter);
    if bytes.len() > 0 {
        let front = predictor::skip_steps(bytes.drop_last());
        lemma_skip_steps(bytes.drop_last());
        assert(predictor::skip_steps(bytes) =~= front + seq![Step::Skip(bytes.last())]);
        lemma_joined(front, seq![Step::Skip(bytes.last())]);
        lemma_one(Step::Skip(bytes.last()));
    }
}

proof fn lemma_body_steps(hist: Seq<u8>, b: Seq<u8>, runs: Seq<Run>, from: int, i: int)
    requires
        0 <= i <= b.len(),
        search::runs_fit(hist, b, runs, from),
        from <= i,
        runs.len() > 0 ==> i <= runs[0].pos,
    ensures
        ({
            let steps = predictor::body_steps(b, runs, i);
            let n = b.len() - i - search::covered(runs);
            &&& asked(steps) == 8 * n
            &&& bits_told(steps) == 8 * n
            &&& bytes_told(steps) == search::covered(runs)
        }),
    decreases b.len() - i, runs.len(),
{
    reveal(Seq::filter);
    if i < b.len() {
        if runs.len() > 0 && runs[0].pos == i {
            let rest = runs.drop_first();
            let end = i + runs[0].len;
            lemma_body_steps(hist, b, rest, end, end);
            lemma_skip_steps(b.subrange(i, end));
            lemma_joined(
                predictor::skip_steps(b.subrange(i, end)),
                predictor::body_steps(b, rest, end),
            );
        } else {
            lemma_body_steps(hist, b, runs, from, i + 1);
            lemma_bit_steps(b[i], 8);
            lemma_joined(predictor::literal_steps(b[i]), predictor::body_steps(b, runs, i + 1));
        }
    } else if runs.len() > 0 {
        assert(runs[0].pos + runs[0].len <= b.len());
    }
}

/// The predictor is asked once for each bit of a byte that no match covers and is told
/// the bit; the bytes that matches cover it is told without being asked.
pub proof fn law_every_byte_is_told(hist: Seq<u8>, b: Seq<u8>, kind: BlockKind)
    ensures
        ({
            let runs = search::scanned(hist, b, kind);
            let steps = predictor::body_steps(b, runs, 0);
            let n = b.len() - search::covered(runs);
            &&& asked(steps) == 8 * n
            &&& bits_told(steps) == 8 * n
            &&& bytes_told(steps) == search::covered(runs)
        }),
{
    search::law_scanned_fit(hist, b, kind);
    lemma_body_steps(hist, b, search::scanned(hist, b, kind), 0, 0);
}

proof fn lemma_steps_len(b: u8, n: int)
    requires
        0 <= n,
    ensures
        predictor::bit_steps(b, n).len() == 2 * n,
    decreases n,
{
    if n > 0 {
        lemma_steps_len(b, n - 1);
    }
}

proof fn lemma_step_at(b: u8, n: int, k: int)
    requires
        0 <= k < n,
    ensures
        predictor::bit_steps(b, n)[2 * k] == Step::Predict,
        predictor::bit_steps(b, n)[2 * k + 1] == Step::Learn(lzp::bit_from_top(b, k)),
    decreases n,
{
    let front = predictor::bit_steps(b, n - 1);
    let asks = front.push(Step::Predict);
    let learns = Step::Learn(lzp::bit_from_top(b, n - 1));
    lemma_steps_len(b, n - 1);
    assert(predictor::bit_steps(b, n) == asks.push(learns));
    if k < n - 1 {
        lemma_step_at(b, n - 1, k);
        assert(asks.push(learns)[2 * k] == front[2 * k]);
        assert(asks.push(learns)[2 * k + 1] == front[2 * k + 1]);
    } else {
        assert(asks.push(learns)[2 * k] == Step::Predict);
        assert(asks.push(learns)[2 * k + 1] == learns);
    }
}

/// A byte without a match is told as its eight bits, the most significant one first,
/// each behind the question for its probability.
pub proof fn law_bits_of_a_byte(
    b7: bool,
    b6: bool,
    b5: bool,
    b4: bool,
    b3: bool,
    b2: bool,
    b1: bool,
    b0: bool,
    byte: u8,
    k: int,
)
    requires
        0 <= k < 8,
        byte == (if b7 { 128int } else { 0 }) + (if b6 { 64int } else { 0 }) + (if b5 { 32int } else {
            0
        }) + (if b4 { 16int } else { 0 }) + (if b3 { 8int } else { 0 }) + (if b2 { 4int } else { 0 })
            + (if b1 { 2int } else { 0 }) + (if b0 { 1int } else { 0 }),
    ensures
        predictor::literal_steps(byte).len() == 16,
        predictor::literal_steps(byte)[2 * k] == Step::Predict,
        predictor::literal_steps(byte)[2 * k + 1] == Step::Learn(
            k == 0 && b7 || k == 1 && b6 || k == 2 && b5 || k == 3 && b4 || k == 4 && b3 || k == 5
                && b2 || k == 6 && b1 || k == 7 && b0,
        ),
{
    lemma_steps_len(byte, 8);
    lemma_step_at(byte, 8, k);
    history_law::law_expected_bit(b7, b6, b5, b4, b3, b2, b1, b0, byte, k);
}

/// The models are made anew for a block of another kind than the one before, and what
/// was learned fades behind each block that is coded bit by bit; a block that is
/// coded byte by byte, a random one and one of the hash-chain engine leave the
/// predictor as it is.
pub proof fn law_predictor_goes_on<S>(
    mode: CodecMode,
    kind: BlockKind,
    b: Seq<u8>,
    near_random: bool,
    dict: Option<Seq<Seq<u8>>>,
    st: CoderView,
    f: spec_fn(S, Step) -> (S, u16),
    s: S,
)
    ensures
        ({
            let after = block::predictor_after(mode, kind, b, near_random, dict, st, f, s);
            let by_bits = kind != BlockKind::Random && mode == CodecMode::Slow || (kind
                == BlockKind::Binary || kind == BlockKind::Exec) && mode == CodecMode::Hybrid;
            let made = if st.stack_kind == Some(kind) {
                s
            } else {
                f(s, Step::Rebuild(kind)).0
            };
            let data = match kind {
                BlockKind::Text => pipeline::pipeline_coded(
                    trial::trial_choice(b, dict, near_random),
                    b,
                    dict,
                ),
                BlockKind::Exec => e8e9::e8e9_coded(b),
                _ => b,
            };
            let runs = search::scanned(block::usable_hist(st, kind), data, kind);
            &&& by_bits ==> after == f(
                predictor::told(f, made, predictor::body_steps(data, runs, 0)),
                Step::Decay,
            ).0
            &&& mode == CodecMode::Wire || mode == CodecMode::Fast || mode == CodecMode::General
                || kind == BlockKind::Random || mode == CodecMode::Hybrid && kind
                == BlockKind::Text ==> after == s
        }),
{
    reveal(block::predictor_after);
}

/// A bit 1 takes as many parts of 4096 as it is predicted, from 1 to 4095, and a bit 0
/// the others.
pub proof fn law_bit_parts(p: u16)
    ensures
        ({
            let one = range::bit_interval(range::bit_freqs(p), true);
            let zero = range::bit_interval(range::bit_freqs(p), false);
            &&& one.0 + zero.0 == 4096
            &&& 1 <= p <= 4095 ==> one.0 == p
            &&& p == 0 ==> one.0 == 1
            &&& p > 4095 ==> one.0 == 4095
            &&& zero.1 == 0
            &&& one.1 == zero.0
        }),
{
}

/// A number below 128 is one byte, its own; a larger one is its lowest seven bits,
/// marked by 128, and the rest behind them.
pub proof fn law_numbers_grow_by_seven_bits(v: int)
    requires
        0 <= v,
    ensures
        v < 128 ==> varint::varint(v) == seq![v as u8],
        v >= 128 ==> varint::varint(v)[0] == 128 + v % 128 && varint::varint(v).drop_first()
            == varint::varint(v / 128),
        v < 16384 ==> varint::varint(v).len() <= 2,
        v >= 128 ==> varint::varint(v).len() >= 2,
{
    reveal_with_fuel(varint::varint, 3);
    if v >= 128 {
        assert(varint::varint(v).drop_first() =~= varint::varint(v / 128));
    }
}

/// A match is recorded by what lies between its place and that of the one before, its
/// length and its distance.
pub proof fn law_match_record(pos: int, len: int, dist: int, prev: int)
    requires
        0 <= prev <= pos,
        0 <= len,
        0 <= dist,
    ensures
        side::records(seq![Run { pos, len, dist }], prev) == varint::varint(pos - prev)
            + varint::varint(len) + varint::varint(dist),
{
    let runs = seq![Run { pos, len, dist }];
    assert(runs.drop_first() =~= Seq::<Run>::empty());
    assert(side::records(runs.drop_first(), pos) =~= Seq::<u8>::empty());
}

/// What a block is measured for: its kind by all that is left of the data, and how
/// random it is by itself, where transforms are tried on it.
pub proof fn law_measured(
    mode: CodecMode,
    rest: Seq<u8>,
    seen: spec_fn(Seq<u8>) -> Measures,
)
    ensures
        ({
            let kind = classify::kind_of(rest, seen(rest));
            let b = rest.take(stream::first_len(mode, rest, seen(rest)));
            let tried = kind == BlockKind::Text && (mode == CodecMode::Slow || mode
                == CodecMode::Fast || mode == CodecMode::Hybrid);
            stream::first_random(mode, rest, seen) == (tried && seen(b).near_random)
        }),
{
}

/// The engines that try transforms hold a dictionary, of the words of all of the
/// data, and no others do.
pub proof fn law_dictionary_of_all(mode: CodecMode, buf: Seq<u8>)
    ensures
        mode == CodecMode::Slow || mode == CodecMode::Fast || mode == CodecMode::Hybrid
            ==> stream::dict_for(mode, buf) == Some(xwrt::dictionary_of(buf)),
        mode == CodecMode::Wire || mode == CodecMode::General ==> stream::dict_for(mode, buf)
            is None,
{
}

/// A container starts with `RCN1`, the version 1, a flag that is 1 where there is a
/// dictionary, and the block size 16.
pub proof fn law_front(dict: Option<Seq<Seq<u8>>>, n: u32)
    ensures
        ({
            let h = container::header_bytes(stream::header_of(dict, n as int));
            &&& h.len() == 11
            &&& h[0] == 0x52 && h[1] == 0x43 && h[2] == 0x4E && h[3] == 0x31
            &&& h[4] == 1
            &&& h[5] == if dict is Some {
                1int
            } else {
                0
            }
            &&& h[6] == 16
            &&& h[7] + 256 * h[8] + 65536 * h[9] + 16777216 * h[10] == n
        }),
{
}

proof fn lemma_four_bytes(v: int)
    requires
        0 <= v <= u32::MAX,
    ensures
        ({
            let e = bytes::le32(v);
            e.len() == 4 && e[0] + 256 * e[1] + 65536 * e[2] + 16777216 * e[3] == v
        }),
{
}

/// The entry of a block has the length of its payload, that of what was coded, the
/// method, and the checksum of the block itself.
pub proof fn law_entry(b: stream::CodedBlock)
    requires
        b.coded.payload.len() <= u32::MAX,
        0 <= b.coded.len <= u32::MAX,
    ensures
        ({
            let e = container::entry_bytes(stream::entry_of(b));
            let crc = container::crc_of(b.block);
            &&& e.len() == 13
            &&& e[0] + 256 * e[1] + 65536 * e[2] + 16777216 * e[3] == b.coded.payload.len()
            &&& e[4] + 256 * e[5] + 65536 * e[6] + 16777216 * e[7] == b.coded.len
            &&& e[8] == b.coded.method
            &&& e[9] + 256 * e[10] + 65536 * e[11] + 16777216 * e[12] == crc
        }),
{
    let e = container::entry_bytes(stream::entry_of(b));
    let x = bytes::le32(b.coded.payload.len() as int);
    let y = bytes::le32(b.coded.len as int);
    let z = bytes::le32(container::crc_of(b.block) as int);
    lemma_four_bytes(b.coded.payload.len() as int);
    lemma_four_bytes(b.coded.len as int);
    lemma_four_bytes(container::crc_of(b.block) as int);
    assert(e =~= x + y + seq![b.coded.method] + z);
}

/// The numbers of the methods. Bit by bit, text has 2, or 5, 6, 7, 13, 15 or 16 behind
/// a transform, binary data 3 and code 4. Byte by byte, text and binary data have 8,
/// text 9, 10, 11, 12, 17 or 18 behind a transform and 20 without trials, and code
/// has 14.
pub proof fn law_method_numbers(mode: CodecMode, kind: BlockKind, p: BwtPipeline)
    requires
        mode != CodecMode::Wire,
        kind != BlockKind::Random,
    ensures
        ({
            let by_bits = mode == CodecMode::Slow || mode == CodecMode::Hybrid && kind
                != BlockKind::Text;
            let number: u8 = match (kind, by_bits) {
                (BlockKind::Text, true) => match p {
                    BwtPipeline::RawCm => 2,
                    BwtPipeline::BwtMtfRle => 5,
                    BwtPipeline::LzpBwtMtf => 6,
                    BwtPipeline::JsonSplit => 7,
                    BwtPipeline::XwrtBwtMtfRle => 13,
                    BwtPipeline::CsvSplit => 15,
                    BwtPipeline::XmlSplit => 16,
                },
                (BlockKind::Text, false) => if mode == CodecMode::General {
                    20
                } else {
                    match p {
                        BwtPipeline::RawCm => 8,
                        BwtPipeline::BwtMtfRle => 9,
                        BwtPipeline::LzpBwtMtf => 10,
                        BwtPipeline::JsonSplit => 11,
                        BwtPipeline::XwrtBwtMtfRle => 12,
                        BwtPipeline::CsvSplit => 17,
                        BwtPipeline::XmlSplit => 18,
                    }
                },
                (BlockKind::Exec, true) => 4,
                (BlockKind::Exec, false) => 14,
                (_, true) => 3,
                (_, false) => 8,
            };
            block::coded_method(mode, kind, p) == number
        }),
{
}

} // verus!
