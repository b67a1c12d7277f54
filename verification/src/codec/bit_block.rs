//! Blocks that are coded bit by bit: matches in front, the bits of the literals
//! behind them, each bit with a probability that a predictor gives.

use crate::bytes;
use crate::classify::BlockKind;
use crate::codec::byte_block;
use crate::codec::predictor;
use crate::codec::predictor::Step;
use crate::codec::search;
use crate::codec::search::{MatchRun, Run};
use crate::codec::side;
use crate::codec::side::Record;
use crate::entropy::byterans;
use crate::entropy::byterans::RansState;
use crate::entropy::range;
use crate::entropy::range::{BitDecoder, BitEncoder};
use crate::error::{Fault, RcnError};
use crate::model::assembler;
use crate::model::lzp;
use vstd::prelude::*;

verus! {

/// The bits of bytes, each with its probability.
pub open spec fn coded_bits(lits: Seq<u8>, ps: Seq<u16>) -> Seq<(bool, u16)> {
    Seq::new(8 * lits.len(), |i: int| (lzp::bit_from_top(lits[i / 8], i % 8), ps[i]))
}

/// A block without a side-stream: the bits of all of its bytes.
pub open spec fn plain_coded(block: Seq<u8>, ps: Seq<u16>) -> Seq<u8> {
    range::bits_stream(coded_bits(block, ps))
}

/// A block with given matches: side-stream, then the bits of the literals.
pub open spec fn bit_coded(block: Seq<u8>, runs: Seq<Run>, ps: Seq<u16>) -> Seq<u8> {
    side::side_frame(runs) + plain_coded(side::literals(block, runs, 0), ps)
}

/// The byte whose bits follow in a stream: `k` more bits behind those that spell
/// `v`, each read with the probability that the predictor gives and then told to
/// it. Nothing where the stream ends.
pub open spec fn byte_read<S>(
    f: spec_fn(S, Step) -> (S, u16),
    s: S,
    x: RansState,
    k: int,
    v: int,
) -> Option<(int, RansState, S)>
    decreases k,
{
    if k <= 0 {
        Some((v, x, s))
    } else {
        let (t, p) = f(s, Step::Predict);
        let freqs = range::bit_freqs(p);
        if range::bit_runs_dry(x, freqs) {
            None
        } else {
            let bit = range::carries_one(x, freqs);
            byte_read(
                f,
                f(t, Step::Learn(bit)).0,
                range::after_bit(x, freqs),
                k - 1,
                assembler::with_bit(v, bit),
            )
        }
    }
}

/// A block of `n` bytes that follows `hist`, with `out` decoded: literals are
/// read, matches are copied and told byte by byte. Nothing where the stream ends.
pub open spec fn body_read<S>(
    f: spec_fn(S, Step) -> (S, u16),
    s: S,
    x: RansState,
    hist: Seq<u8>,
    n: int,
    runs: Seq<Run>,
    out: Seq<u8>,
) -> Option<(Seq<u8>, S)>
    decreases
        if out.len() < n {
            n - out.len()
        } else {
            0
        },
        runs.len(),
{
    if out.len() >= n {
        Some((out, s))
    } else if runs.len() > 0 && runs[0].pos == out.len() && runs[0].len >= 0 {
        let more = side::copied_from(hist, out, runs[0].dist, runs[0].len);
        if more.len() >= out.len() {
            body_read(
                f,
                predictor::told(f, s, predictor::skip_steps(more.skip(out.len() as int))),
                x,
                hist,
                n,
                runs.drop_first(),
                more,
            )
        } else {
            None
        }
    } else {
        match byte_read(f, s, x, 8, 0) {
            Some((v, y, t)) => body_read(f, t, y, hist, n, runs, out.push(v as u8)),
            None => None,
        }
    }
}

/// A block of `n` bytes that follows `hist`, from its matches and the stream of
/// the bits of its literals; and the predictor behind it.
pub open spec fn stream_decoded<S>(
    f: spec_fn(S, Step) -> (S, u16),
    s: S,
    body: Seq<u8>,
    hist: Seq<u8>,
    n: int,
    runs: Seq<Run>,
) -> Result<(Seq<u8>, S), Fault> {
    if !range::can_start(body) {
        Err(range::start_fault(body))
    } else {
        match body_read(f, s, range::start_state(body), hist, n, runs, Seq::empty()) {
            Some(r) => Ok(r),
            None => Err(Fault::Entropy(range::dry_text(0, 1))),
        }
    }
}

/// The `n` bytes of a stream of bits, and the predictor behind them.
pub open spec fn plain_decoded<S>(
    f: spec_fn(S, Step) -> (S, u16),
    s: S,
    comp: Seq<u8>,
    n: int,
) -> Result<(Seq<u8>, S), Fault> {
    stream_decoded(f, s, comp, Seq::empty(), n, Seq::empty())
}

/// What a coded block of `n` bytes that follows `hist` stands for, and the
/// predictor behind it.
pub open spec fn bit_decoded<S>(
    f: spec_fn(S, Step) -> (S, u16),
    s: S,
    comp: Seq<u8>,
    n: int,
    hist: Seq<u8>,
) -> Result<(Seq<u8>, S), Fault> {
    match side::side_at(comp) {
        Err(e) => Err(e),
        Ok((runs, end)) => stream_decoded(f, s, comp.skip(end), hist, n, runs),
    }
}

/// Bytes or an error as contracts speak of them, with a predictor.
pub open spec fn outcome<S>(r: Result<(Vec<u8>, S), RcnError>) -> Result<(Seq<u8>, S), Fault> {
    match r {
        Ok((v, s)) => Ok((v@, s)),
        Err(e) => Err(e@),
    }
}

/// The probabilities of the literals of a block.
pub open spec fn body_given<S>(
    f: spec_fn(S, Step) -> (S, u16),
    s: S,
    block: Seq<u8>,
    runs: Seq<Run>,
) -> Seq<u16> {
    predictor::given(f, s, predictor::body_steps(block, runs, 0))
}

/// The predictor behind a block.
pub open spec fn body_told<S>(
    f: spec_fn(S, Step) -> (S, u16),
    s: S,
    block: Seq<u8>,
    runs: Seq<Run>,
) -> S {
    predictor::told(f, s, predictor::body_steps(block, runs, 0))
}

/// The number that the first `k` bits of a byte spell.
pub open spec fn top_bits(b: u8, k: int) -> int
    decreases k,
{
    if k <= 0 {
        0
    } else {
        assembler::with_bit(top_bits(b, k - 1), lzp::bit_from_top(b, k - 1))
    }
}

proof fn lemma_top_bits(b: u8)
    ensures
        top_bits(b, 8) == b,
{
    reveal_with_fuel(top_bits, 9);
    reveal_with_fuel(assembler::two_to, 9);
    let v = b as int;
    assert(v / 128 % 2 == v / 128);
    assert(v / 64 == 2 * (v / 128) + v / 64 % 2);
    assert(v / 32 == 2 * (v / 64) + v / 32 % 2);
    assert(v / 16 == 2 * (v / 32) + v / 16 % 2);
    assert(v / 8 == 2 * (v / 16) + v / 8 % 2);
    assert(v / 4 == 2 * (v / 8) + v / 4 % 2);
    assert(v / 2 == 2 * (v / 4) + v / 2 % 2);
    assert(v == 2 * (v / 2) + v % 2);
}

/// The probability of bit `k` of a literal.
proof fn lemma_bit_given<S>(f: spec_fn(S, Step) -> (S, u16), s: S, b: u8, k: int, m: int)
    requires
        0 <= k < m,
    ensures
        predictor::given(f, s, predictor::bit_steps(b, m)).len() == m,
        predictor::given(f, s, predictor::bit_steps(b, m))[k] == f(
            predictor::told(f, s, predictor::bit_steps(b, k)),
            Step::Predict,
        ).1,
    decreases m,
{
    let a = predictor::bit_steps(b, m - 1);
    let learn = Step::Learn(lzp::bit_from_top(b, m - 1));
    predictor::lemma_bit_steps_given(f, s, b, m - 1);
    predictor::lemma_told_push(f, s, a, Step::Predict);
    predictor::lemma_told_push(f, s, a.push(Step::Predict), learn);
    if k < m - 1 {
        lemma_bit_given(f, s, b, k, m - 1);
    }
}

proof fn lemma_byte_read<S>(
    f: spec_fn(S, Step) -> (S, u16),
    s: S,
    b: u8,
    tail: Seq<(bool, u16)>,
    k: int,
)
    requires
        0 <= k <= 8,
    ensures
        byte_read(
            f,
            predictor::told(f, s, predictor::bit_steps(b, k)),
            byterans::rans_encode(
                range::bit_syms(
                    coded_bits(
                        seq![b],
                        predictor::given(f, s, predictor::literal_steps(b)),
                    ).skip(k) + tail,
                ),
            ),
            8 - k,
            top_bits(b, k),
        ) == Some(
            (
                b as int,
                byterans::rans_encode(range::bit_syms(tail)),
                predictor::told(f, s, predictor::literal_steps(b)),
            ),
        ),
    decreases 8 - k,
{
    let q = predictor::given(f, s, predictor::literal_steps(b));
    let bits = coded_bits(seq![b], q);
    if k == 8 {
        lemma_top_bits(b);
        assert(bits.skip(8) + tail =~= tail);
    } else {
        let rest = bits.skip(k) + tail;
        let a = predictor::bit_steps(b, k);
        let bit = lzp::bit_from_top(b, k);
        lemma_bit_given(f, s, b, k, 8);
        assert(k / 8 == 0 && k % 8 == k);
        assert(rest[0] == (bit, q[k]));
        range::law_bit_round_trip(rest);
        assert(rest.drop_first() =~= bits.skip(k + 1) + tail);
        predictor::lemma_told_push(f, s, a, Step::Predict);
        predictor::lemma_told_push(f, s, a.push(Step::Predict), Step::Learn(bit));
        assert(predictor::bit_steps(b, k + 1) == a.push(Step::Predict).push(Step::Learn(bit)));
        lemma_byte_read(f, s, b, tail, k + 1);
    }
}

/// A body takes eight probabilities for each literal.
pub proof fn lemma_body_given<S>(
    f: spec_fn(S, Step) -> (S, u16),
    s: S,
    block: Seq<u8>,
    runs: Seq<Run>,
    i: int,
)
    requires
        0 <= i,
    ensures
        predictor::given(f, s, predictor::body_steps(block, runs, i)).len() == 8 * side::literals(
            block,
            runs,
            i,
        ).len(),
    decreases
            if i < block.len() {
                block.len() - i
            } else {
                0
            },
            runs.len(),
{
    if i < block.len() {
        if runs.len() > 0 && runs[0].pos == i && runs[0].len >= 0 {
            let skips = predictor::skip_steps(block.subrange(i, i + runs[0].len));
            let rest = predictor::body_steps(block, runs.drop_first(), i + runs[0].len);
            predictor::lemma_told_parts(f, s, skips, rest);
            predictor::lemma_skip_given(f, s, block.subrange(i, i + runs[0].len));
            lemma_body_given(
                f,
                predictor::told(f, s, skips),
                block,
                runs.drop_first(),
                i + runs[0].len,
            );
        } else {
            let lit = predictor::literal_steps(block[i]);
            let rest = predictor::body_steps(block, runs, i + 1);
            predictor::lemma_told_parts(f, s, lit, rest);
            predictor::lemma_bit_steps_given(f, s, block[i], 8);
            lemma_body_given(f, predictor::told(f, s, lit), block, runs, i + 1);
        }
    }
}

proof fn lemma_body_read<S>(
    f: spec_fn(S, Step) -> (S, u16),
    s: S,
    hist: Seq<u8>,
    longer: Seq<u8>,
    block: Seq<u8>,
    runs: Seq<Run>,
    i: int,
)
    requires
        side::ends_with(longer, hist),
        search::runs_fit(hist, block, runs, i),
        0 <= i <= block.len(),
    ensures
        body_read(
            f,
            s,
            byterans::rans_encode(
                range::bit_syms(
                    coded_bits(
                        side::literals(block, runs, i),
                        predictor::given(f, s, predictor::body_steps(block, runs, i)),
                    ),
                ),
            ),
            longer,
            block.len() as int,
            runs,
            block.take(i),
        ) == Some((block, predictor::told(f, s, predictor::body_steps(block, runs, i)))),
    decreases block.len() - i, runs.len(),
{
    let n = block.len() as int;
    if i >= n {
        assert(block.take(i) =~= block);
    } else if runs.len() > 0 && runs[0].pos == i {
        let r = runs[0];
        let covered = block.subrange(i, i + r.len);
        let skips = predictor::skip_steps(covered);
        let rest = predictor::body_steps(block, runs.drop_first(), i + r.len);
        let t = predictor::told(f, s, skips);
        side::lemma_run_copied(hist, longer, block, runs, i);
        predictor::lemma_told_parts(f, s, skips, rest);
        predictor::lemma_skip_given(f, s, covered);
        assert(predictor::given(f, s, skips) + predictor::given(f, t, rest) =~= predictor::given(
            f,
            t,
            rest,
        ));
        assert(block.take(i + r.len).skip(i) =~= covered);
        lemma_body_read(f, t, hist, longer, block, runs.drop_first(), i + r.len);
    } else {
        let b = block[i];
        let lit = predictor::literal_steps(b);
        let rest = predictor::body_steps(block, runs, i + 1);
        let t = predictor::told(f, s, lit);
        let q = predictor::given(f, s, lit);
        let ps = predictor::given(f, t, rest);
        let lits = side::literals(block, runs, i + 1);
        let tail = coded_bits(lits, ps);
        predictor::lemma_told_parts(f, s, lit, rest);
        predictor::lemma_bit_steps_given(f, s, b, 8);
        lemma_body_given(f, t, block, runs, i + 1);
        lemma_coded_cons(b, q, lits, ps);
        lemma_byte_read(f, s, b, tail, 0);
        let first = coded_bits(seq![b], q);
        assert(first.skip(0) =~= first);
        assert(predictor::bit_steps(b, 0) =~= Seq::<Step>::empty());
        assert(block.take(i).push(b) =~= block.take(i + 1));
        lemma_body_read(f, t, hist, longer, block, runs, i + 1);
    }
}

proof fn lemma_coded_cons(b: u8, q: Seq<u16>, lits: Seq<u8>, ps: Seq<u16>)
    requires
        q.len() == 8,
        ps.len() == 8 * lits.len(),
    ensures
        coded_bits(seq![b] + lits, q + ps) == coded_bits(seq![b], q) + coded_bits(lits, ps),
{
    let a = coded_bits(seq![b] + lits, q + ps);
    let c = coded_bits(seq![b], q) + coded_bits(lits, ps);
    assert forall|i: int| 0 <= i < a.len() implies a[i] == c[i] by {
        if i >= 8 {
            let k = i - 8;
            assert(i / 8 == k / 8 + 1 && i % 8 == k % 8);
            assert(k / 8 < lits.len());
        } else {
            assert(i / 8 == 0 && i % 8 == i);
        }
    }
    assert(a =~= c);
}

/// Reading the bits of bytes with the predictor with which they were coded gives
/// the bytes back, and leaves the predictor as the encoder left it.
pub proof fn law_plain_round_trip<S>(f: spec_fn(S, Step) -> (S, u16), s: S, block: Seq<u8>)
    ensures
        plain_decoded(
            f,
            s,
            plain_coded(block, body_given(f, s, block, Seq::empty())),
            block.len() as int,
        ) == Ok::<(Seq<u8>, S), Fault>((block, body_told(f, s, block, Seq::empty()))),
{
    let none = Seq::<u8>::empty();
    let runs = Seq::<Run>::empty();
    let ps = body_given(f, s, block, runs);
    assert(none.skip(0) =~= none);
    lemma_no_matches(block, 0);
    assert(block.skip(0) =~= block);
    range::law_bits_start(coded_bits(block, ps));
    lemma_body_read(f, s, none, none, block, runs, 0);
    assert(block.take(0) =~= none);
}

/// Without matches every byte is a literal.
proof fn lemma_no_matches(block: Seq<u8>, i: int)
    requires
        0 <= i <= block.len(),
    ensures
        side::literals(block, Seq::empty(), i) == block.skip(i),
    decreases block.len() - i,
{
    if i < block.len() {
        lemma_no_matches(block, i + 1);
        assert(block.skip(i) =~= seq![block[i]] + block.skip(i + 1));
    } else {
        assert(block.skip(i) =~= Seq::<u8>::empty());
    }
}

/// Decoding a coded block with the predictor with which it was coded gives the
/// block back, also with a history that reaches further back than that of the
/// encoder, and leaves the predictor as the encoder left it.
pub proof fn law_bit_block_round_trip<S>(
    f: spec_fn(S, Step) -> (S, u16),
    s: S,
    hist: Seq<u8>,
    longer: Seq<u8>,
    block: Seq<u8>,
    runs: Seq<Run>,
)
    requires
        search::runs_fit(hist, block, runs, 0),
        block.len() <= u32::MAX,
        side::records(runs, 0).len() <= u32::MAX,
        side::ends_with(longer, hist),
    ensures
        bit_decoded(
            f,
            s,
            bit_coded(block, runs, body_given(f, s, block, runs)),
            block.len() as int,
            longer,
        ) == Ok::<(Seq<u8>, S), Fault>((block, body_told(f, s, block, runs))),
{
    let ps = body_given(f, s, block, runs);
    let lits = side::literals(block, runs, 0);
    let frame = side::side_frame(runs);
    let body = plain_coded(lits, ps);
    side::lemma_fit_writable(hist, block, runs, 0, 0);
    side::law_side_round_trip(runs, body);
    assert((frame + body).skip(frame.len() as int) =~= body);
    range::law_bits_start(coded_bits(lits, ps));
    lemma_body_read(f, s, hist, longer, block, runs, 0);
    assert(block.take(0) =~= Seq::<u8>::empty());
}

proof fn lemma_coded_push(lits: Seq<u8>, ps: Seq<u16>, b: u8, qs: Seq<u16>)
    requires
        ps.len() == 8 * lits.len(),
        qs.len() == 8,
    ensures
        coded_bits(lits.push(b), ps + qs) == coded_bits(lits, ps) + coded_bits(seq![b], qs),
{
    let a = coded_bits(lits.push(b), ps + qs);
    let c = coded_bits(lits, ps) + coded_bits(seq![b], qs);
    assert forall|i: int| 0 <= i < a.len() implies a[i] == c[i] by {
        if i < 8 * lits.len() {
            assert(i / 8 < lits.len());
        } else {
            let k = i - 8 * lits.len();
            assert(i / 8 == lits.len() && i % 8 == k && k / 8 == 0 && k % 8 == k);
        }
    }
    assert(a =~= c);
}

/// Codes one literal and tells it to the predictor.
fn encode_literal<S, F: Fn(S, Step) -> (S, u16)>(
    enc: &mut BitEncoder,
    byte: u8,
    start: S,
    drive: &F,
) -> (end: S)
    requires
        predictor::drivable::<S, F>(*drive),
    ensures
        end == predictor::told(
            predictor::replies::<S, F>(*drive),
            start,
            predictor::literal_steps(byte),
        ),
        final(enc)@ == old(enc)@ + coded_bits(
            seq![byte],
            predictor::given(
                predictor::replies::<S, F>(*drive),
                start,
                predictor::literal_steps(byte),
            ),
        ),
{
    let ghost f = predictor::replies::<S, F>(*drive);
    let ghost s0 = start;
    let ghost before = enc@;
    let ghost mut qs: Seq<u16> = Seq::empty();
    let mut s = start;
    let mut k: u8 = 0;
    while k < 8
        invariant
            k <= 8,
            predictor::drivable::<S, F>(*drive),
            f == predictor::replies::<S, F>(*drive),
            s == predictor::told(f, s0, predictor::bit_steps(byte, k as int)),
            qs == predictor::given(f, s0, predictor::bit_steps(byte, k as int)),
            qs.len() == k,
            enc@ =~= before + Seq::new(
                k as nat,
                |i: int| (lzp::bit_from_top(byte, i), qs[i]),
            ),
        decreases 8 - k,
    {
        let bit: bool = lzp::read_bit_from_top(byte, k);
        let (t, p) = predictor::ask(drive, s, Step::Predict);
        enc.encode_bit(bit, p);
        let (u, _) = predictor::ask(drive, t, Step::Learn(bit));
        s = u;
        proof {
            let a = predictor::bit_steps(byte, k as int);
            predictor::lemma_told_push(f, s0, a, Step::Predict);
            predictor::lemma_told_push(f, s0, a.push(Step::Predict), Step::Learn(bit));
            assert(predictor::bit_steps(byte, k + 1) == a.push(Step::Predict).push(
                Step::Learn(bit),
            ));
            qs = qs.push(p);
        }
        k = k + 1;
    }
    assert(enc@ =~= before + coded_bits(seq![byte], qs));
    s
}

/// Tells the predictor the bytes that a match covers.
fn tell_covered<S, F: Fn(S, Step) -> (S, u16)>(
    block: &[u8],
    from: usize,
    end: usize,
    start: S,
    drive: &F,
) -> (r: S)
    requires
        predictor::drivable::<S, F>(*drive),
        from <= end <= block@.len(),
    ensures
        r == predictor::told(
            predictor::replies::<S, F>(*drive),
            start,
            predictor::skip_steps(block@.subrange(from as int, end as int)),
        ),
{
    let ghost f = predictor::replies::<S, F>(*drive);
    let ghost s0 = start;
    let mut s = start;
    let mut j: usize = from;
    assert(predictor::skip_steps(block@.subrange(from as int, from as int)) =~= Seq::<
        Step,
    >::empty());
    while j < end
        invariant
            predictor::drivable::<S, F>(*drive),
            f == predictor::replies::<S, F>(*drive),
            from <= j <= end <= block@.len(),
            s == predictor::told(
                f,
                s0,
                predictor::skip_steps(block@.subrange(from as int, j as int)),
            ),
        decreases end - j,
    {
        let (t, _) = predictor::ask(drive, s, Step::Skip(block[j]));
        s = t;
        proof {
            let done = block@.subrange(from as int, j as int);
            predictor::lemma_skip_push(f, s0, done, block@[j as int]);
            assert(done.push(block@[j as int]) =~= block@.subrange(from as int, j + 1));
        }
        j = j + 1;
    }
    s
}

/// Codes the literals of a block; bytes that a match covers are told to the
/// predictor and not coded.
fn encode_body<S, F: Fn(S, Step) -> (S, u16)>(
    block: &[u8],
    runs: &Vec<MatchRun>,
    start: S,
    drive: &F,
) -> (r: (Vec<u8>, S))
    requires
        predictor::drivable::<S, F>(*drive),
        exists|hist: Seq<u8>| search::runs_fit(hist, block@, search::run_views(runs@), 0),
    ensures
        r.0@ == plain_coded(
            side::literals(block@, search::run_views(runs@), 0),
            body_given(
                predictor::replies::<S, F>(*drive),
                start,
                block@,
                search::run_views(runs@),
            ),
        ),
        r.1 == body_told(
            predictor::replies::<S, F>(*drive),
            start,
            block@,
            search::run_views(runs@),
        ),
{
    let ghost f = predictor::replies::<S, F>(*drive);
    let ghost s0 = start;
    let ghost views = search::run_views(runs@);
    let ghost hist = choose|hist: Seq<u8>|
        search::runs_fit(hist, block@, search::run_views(runs@), 0);
    let n: usize = block.len();
    let mut enc = BitEncoder::new();
    let mut s = start;
    let ghost mut done: Seq<Step> = Seq::empty();
    let ghost mut lits: Seq<u8> = Seq::empty();
    let mut i: usize = 0;
    let mut k: usize = 0;
    assert(views.skip(0) =~= views);
    assert(lits + side::literals(block@, views, 0) =~= side::literals(block@, views, 0));
    assert(done + predictor::body_steps(block@, views, 0) =~= predictor::body_steps(
        block@,
        views,
        0,
    ));
    assert(enc@ =~= coded_bits(lits, predictor::given(f, s0, done)));
    while i < n
        invariant
            predictor::drivable::<S, F>(*drive),
            f == predictor::replies::<S, F>(*drive),
            i <= n == block@.len(),
            views == search::run_views(runs@),
            k <= runs@.len(),
            search::runs_fit(hist, block@, views.skip(k as int), i as int),
            lits + side::literals(block@, views.skip(k as int), i as int) == side::literals(
                block@,
                views,
                0,
            ),
            done + predictor::body_steps(block@, views.skip(k as int), i as int)
                == predictor::body_steps(block@, views, 0),
            predictor::given(f, s0, done).len() == 8 * lits.len(),
            s == predictor::told(f, s0, done),
            enc@ == coded_bits(lits, predictor::given(f, s0, done)),
        decreases n - i,
    {
        let ghost rest = views.skip(k as int);
        let ghost before = done;
        if k < runs.len() && runs[k].pos == i {
            assert(rest[0] == runs@[k as int]@);
            assert(rest.drop_first() =~= views.skip(k + 1));
            let end: usize = i + runs[k].len;
            s = tell_covered(block, i, end, s, drive);
            proof {
                let covered = block@.subrange(i as int, end as int);
                let skips = predictor::skip_steps(covered);
                let more = predictor::body_steps(block@, rest.drop_first(), end as int);
                predictor::lemma_told_parts(f, s0, before, skips);
                predictor::lemma_skip_given(f, predictor::told(f, s0, before), covered);
                done = before + skips;
                assert(done + more =~= before + (skips + more));
                assert(predictor::given(f, s0, done) =~= predictor::given(f, s0, before));
            }
            i = end;
            k = k + 1;
        } else {
            proof {
                if k < runs@.len() {
                    assert(rest[0] == runs@[k as int]@);
                }
            }
            let byte: u8 = block[i];
            s = encode_literal(&mut enc, byte, s, drive);
            proof {
                let steps = predictor::literal_steps(byte);
                let more = predictor::body_steps(block@, rest, i + 1);
                let t = predictor::told(f, s0, before);
                predictor::lemma_told_parts(f, s0, before, steps);
                predictor::lemma_bit_steps_given(f, t, byte, 8);
                lemma_coded_push(
                    lits,
                    predictor::given(f, s0, before),
                    byte,
                    predictor::given(f, t, steps),
                );
                assert(lits.push(byte) + side::literals(block@, rest, i + 1) =~= lits
                    + side::literals(block@, rest, i as int));
                done = before + steps;
                assert(done + more =~= before + (steps + more));
                lits = lits.push(byte);
            }
            i = i + 1;
        }
    }
    assert(lits =~= side::literals(block@, views, 0));
    assert(done =~= predictor::body_steps(block@, views, 0));
    (enc.finish(), s)
}

/// Codes a block without a side-stream. The predictor gives the probabilities.
pub fn encode_block_plain<S, F: Fn(S, Step) -> (S, u16)>(block: &[u8], start: S, drive: &F) -> (r: (
    Vec<u8>,
    S,
))
    requires
        predictor::drivable::<S, F>(*drive),
    ensures
        r.0@ == plain_coded(
            block@,
            body_given(predictor::replies::<S, F>(*drive), start, block@, Seq::empty()),
        ),
        r.1 == body_told(predictor::replies::<S, F>(*drive), start, block@, Seq::empty()),
{
    let runs: Vec<MatchRun> = Vec::new();
    proof {
        let none = Seq::<u8>::empty();
        assert(search::run_views(runs@) =~= Seq::<Run>::empty());
        assert(search::runs_fit(none, block@, search::run_views(runs@), 0));
        lemma_no_matches(block@, 0);
        assert(block@.skip(0) =~= block@);
    }
    encode_body(block, &runs, start, drive)
}

/// Codes a block with given matches; bytes that a match covers are told to the
/// predictor and not coded.
pub fn encode_block_with_matches<S, F: Fn(S, Step) -> (S, u16)>(
    block: &[u8],
    runs: &Vec<MatchRun>,
    start: S,
    drive: &F,
) -> (r: (Vec<u8>, S))
    requires
        predictor::drivable::<S, F>(*drive),
        block@.len() <= u32::MAX,
        exists|hist: Seq<u8>| search::runs_fit(hist, block@, search::run_views(runs@), 0),
        side::records(search::run_views(runs@), 0).len() <= u32::MAX,
    ensures
        r.0@ == bit_coded(
            block@,
            search::run_views(runs@),
            body_given(
                predictor::replies::<S, F>(*drive),
                start,
                block@,
                search::run_views(runs@),
            ),
        ),
        r.1 == body_told(
            predictor::replies::<S, F>(*drive),
            start,
            block@,
            search::run_views(runs@),
        ),
{
    proof {
        let hist = choose|hist: Seq<u8>|
            search::runs_fit(hist, block@, search::run_views(runs@), 0);
        side::lemma_fit_writable(hist, block@, search::run_views(runs@), 0, 0);
    }
    let mut out: Vec<u8> = Vec::new();
    side::write_side(&mut out, runs);
    let (body, s) = encode_body(block, runs, start, drive);
    let ghost frame = out@;
    bytes::push_slice(&mut out, body.as_slice());
    assert(out@ =~= side::side_frame(search::run_views(runs@)) + body@);
    (out, s)
}

/// Reads one literal and tells it to the predictor; nothing where the stream
/// ends.
fn decode_literal<S, F: Fn(S, Step) -> (S, u16)>(
    dec: &mut BitDecoder<'_>,
    start: S,
    drive: &F,
) -> (r: Option<(u8, S)>)
    requires
        predictor::drivable::<S, F>(*drive),
        old(dec).ready(),
    ensures
        r matches Some((b, s)) ==> {
            &&& final(dec).ready()
            &&& byte_read(
                predictor::replies::<S, F>(*drive),
                start,
                old(dec).state(),
                8,
                0,
            ) == Some((b as int, final(dec).state(), s))
        },
        r is None ==> byte_read(
            predictor::replies::<S, F>(*drive),
            start,
            old(dec).state(),
            8,
            0,
        ) is None,
{
    let ghost f = predictor::replies::<S, F>(*drive);
    let ghost goal = byte_read(f, start, dec.state(), 8, 0);
    let mut s = start;
    let mut v: u16 = 0;
    let mut k: u8 = 0;
    while k < 8
        invariant
            k <= 8,
            predictor::drivable::<S, F>(*drive),
            f == predictor::replies::<S, F>(*drive),
            goal == byte_read(f, start, old(dec).state(), 8, 0),
            dec.ready(),
            v < assembler::two_to(k as nat),
            goal == byte_read(f, s, dec.state(), 8 - k, v as int),
        decreases 8 - k,
    {
        proof {
            reveal_with_fuel(assembler::two_to, 10);
        }
        let (t, p) = predictor::ask(drive, s, Step::Predict);
        match dec.decode_bit(p) {
            Ok(bit) => {
                let (u, _) = predictor::ask(drive, t, Step::Learn(bit));
                s = u;
                v = 2 * v + if bit {
                    1
                } else {
                    0
                };
            },
            Err(_) => {
                return None;
            },
        }
        k = k + 1;
    }
    proof {
        reveal_with_fuel(assembler::two_to, 10);
    }
    Some((v as u8, s))
}

/// Copies a match byte by byte and tells the predictor each byte.
fn copy_and_tell<S, F: Fn(S, Step) -> (S, u16)>(
    hist: &[u8],
    out: &mut Vec<u8>,
    dist: u64,
    k: u64,
    start: S,
    drive: &F,
) -> (r: S)
    requires
        predictor::drivable::<S, F>(*drive),
    ensures
        final(out)@ == side::copied_from(hist@, old(out)@, dist as int, k as int),
        r == predictor::told(
            predictor::replies::<S, F>(*drive),
            start,
            predictor::skip_steps(final(out)@.skip(old(out)@.len() as int)),
        ),
{
    let ghost f = predictor::replies::<S, F>(*drive);
    let ghost s0 = start;
    let ghost before = out@;
    let ghost goal = side::copied_from(hist@, out@, dist as int, k as int);
    let mut s = start;
    let mut left: u64 = k;
    assert(predictor::skip_steps(out@.skip(before.len() as int)) =~= Seq::<Step>::empty());
    while left > 0
        invariant
            predictor::drivable::<S, F>(*drive),
            f == predictor::replies::<S, F>(*drive),
            out@.len() >= before.len(),
            goal == side::copied_from(hist@, out@, dist as int, left as int),
            s == predictor::told(f, s0, predictor::skip_steps(out@.skip(before.len() as int))),
        decreases left,
    {
        let b: u8 = search::match_byte_from_hist(hist, out.as_slice(), dist);
        let (t, _) = predictor::ask(drive, s, Step::Skip(b));
        s = t;
        proof {
            let new = out@.skip(before.len() as int);
            predictor::lemma_skip_push(f, s0, new, b);
            assert(out@.push(b).skip(before.len() as int) =~= new.push(b));
        }
        out.push(b);
        left = left - 1;
    }
    s
}

fn decode_body<S, F: Fn(S, Step) -> (S, u16)>(
    body: &[u8],
    n: usize,
    hist: &[u8],
    runs: &Vec<Record>,
    start: S,
    drive: &F,
) -> (r: Result<(Vec<u8>, S), RcnError>)
    requires
        predictor::drivable::<S, F>(*drive),
    ensures
        outcome(r) == stream_decoded(
            predictor::replies::<S, F>(*drive),
            start,
            body@,
            hist@,
            n as int,
            side::record_views(runs@),
        ),
{
    let ghost f = predictor::replies::<S, F>(*drive);
    let ghost all = side::record_views(runs@);
    let mut dec = match BitDecoder::new(body) {
        Ok(dec) => dec,
        Err(e) => {
            return Err(e);
        },
    };
    let ghost goal = body_read(f, start, dec.state(), hist@, n as int, all, Seq::empty());
    let mut s = start;
    let mut out: Vec<u8> = Vec::new();
    let mut k: usize = 0;
    assert(all.skip(0) =~= all);
    assert(out@ =~= Seq::<u8>::empty());
    while out.len() < n
        invariant
            predictor::drivable::<S, F>(*drive),
            f == predictor::replies::<S, F>(*drive),
            all == side::record_views(runs@),
            range::can_start(body@),
            goal == body_read(
                f,
                start,
                range::start_state(body@),
                hist@,
                n as int,
                all,
                Seq::empty(),
            ),
            dec.ready(),
            k <= runs@.len(),
            goal == body_read(f, s, dec.state(), hist@, n as int, all.skip(k as int), out@),
        decreases
                if out@.len() < n {
                    n - out@.len()
                } else {
                    0
                },
                runs@.len() - k,
    {
        let ghost rest = all.skip(k as int);
        if k < runs.len() && runs[k].pos == out.len() as u64 {
            let run = runs[k];
            assert(rest[0].pos == run.pos && rest[0].len == run.len && rest[0].dist == run.dist);
            assert(rest.drop_first() =~= all.skip(k + 1));
            proof {
                side::lemma_copied_from_len(hist@, out@, run.dist as int, run.len as int);
            }
            s = copy_and_tell(hist, &mut out, run.dist, run.len, s, drive);
            k = k + 1;
        } else {
            proof {
                if k < runs@.len() {
                    assert(rest[0].pos == runs@[k as int].pos);
                }
            }
            match decode_literal(&mut dec, s, drive) {
                Some((byte, t)) => {
                    s = t;
                    out.push(byte);
                },
                None => {
                    return Err(RcnError::Entropy(range::dry_message(0, 1)));
                },
            }
        }
    }
    Ok((out, s))
}

/// Reads a stream of bits without a side-stream. The predictor gives the
/// probabilities. A stream that does not end in a state, or that ends before the
/// last bit, is an error.
pub fn decode_block_plain<S, F: Fn(S, Step) -> (S, u16)>(
    comp: &[u8],
    orig_len: usize,
    start: S,
    drive: &F,
) -> (r: Result<(Vec<u8>, S), RcnError>)
    requires
        predictor::drivable::<S, F>(*drive),
    ensures
        outcome(r) == plain_decoded(
            predictor::replies::<S, F>(*drive),
            start,
            comp@,
            orig_len as int,
        ),
{
    let none: Vec<u8> = Vec::new();
    let runs: Vec<Record> = Vec::new();
    assert(none@ =~= Seq::<u8>::empty());
    assert(side::record_views(runs@) =~= Seq::<Run>::empty());
    decode_body(comp, orig_len, none.as_slice(), &runs, start, drive)
}

/// Decodes a block of `orig_len` bytes that follows `hist`. The predictor gives
/// the probabilities. A side-stream that is not valid, a stream of bits that does
/// not end in a state, and one that ends before the last bit are errors.
pub fn decode_block_with_matches<S, F: Fn(S, Step) -> (S, u16)>(
    comp: &[u8],
    orig_len: usize,
    hist: &[u8],
    start: S,
    drive: &F,
) -> (r: Result<(Vec<u8>, S), RcnError>)
    requires
        predictor::drivable::<S, F>(*drive),
    ensures
        outcome(r) == bit_decoded(
            predictor::replies::<S, F>(*drive),
            start,
            comp@,
            orig_len as int,
            hist@,
        ),
{
    match side::read_side(comp) {
        Err(e) => Err(e),
        Ok((runs, end)) => {
            let body = vstd::slice::slice_subrange(comp, end, comp.len());
            assert(body@ =~= comp@.skip(end as int));
            decode_body(body, orig_len, hist, &runs, start, drive)
        },
    }
}

/// A block that follows `hist`, coded bit by bit with its matches in front.
pub open spec fn slow_coded<S>(
    f: spec_fn(S, Step) -> (S, u16),
    s: S,
    hist: Seq<u8>,
    block: Seq<u8>,
    kind: BlockKind,
) -> Seq<u8> {
    let runs = search::scanned(hist, block, kind);
    bit_coded(block, runs, body_given(f, s, block, runs))
}

/// The predictor behind such a block.
pub open spec fn slow_told<S>(
    f: spec_fn(S, Step) -> (S, u16),
    s: S,
    hist: Seq<u8>,
    block: Seq<u8>,
    kind: BlockKind,
) -> S {
    body_told(f, s, block, search::scanned(hist, block, kind))
}

/// A block that is coded bit by bit comes back, also with a history that reaches
/// further back than that of the encoder, and the predictor is then as the
/// encoder left it.
pub proof fn law_slow_round_trip<S>(
    f: spec_fn(S, Step) -> (S, u16),
    s: S,
    hist: Seq<u8>,
    longer: Seq<u8>,
    block: Seq<u8>,
    kind: BlockKind,
)
    requires
        byte_block::matches_fit(hist, block, kind),
        side::ends_with(longer, hist),
    ensures
        bit_decoded(
            f,
            s,
            slow_coded(f, s, hist, block, kind),
            block.len() as int,
            longer,
        ) == Ok::<(Seq<u8>, S), Fault>((block, slow_told(f, s, hist, block, kind))),
{
    search::law_scanned_fit(hist, block, kind);
    law_bit_block_round_trip(f, s, hist, longer, block, search::scanned(hist, block, kind));
}

/// Finds the matches of a block and codes it bit by bit.
pub fn compress_block<S, F: Fn(S, Step) -> (S, u16)>(
    block: &[u8],
    kind: BlockKind,
    match_hist: &[u8],
    start: S,
    drive: &F,
) -> (r: (Vec<u8>, S))
    requires
        predictor::drivable::<S, F>(*drive),
        byte_block::matches_fit(match_hist@, block@, kind),
    ensures
        r.0@ == slow_coded(
            predictor::replies::<S, F>(*drive),
            start,
            match_hist@,
            block@,
            kind,
        ),
        r.1 == slow_told(
            predictor::replies::<S, F>(*drive),
            start,
            match_hist@,
            block@,
            kind,
        ),
{
    let runs = search::scan_matches(block, kind, match_hist);
    proof {
        search::law_scanned_fit(match_hist@, block@, kind);
    }
    encode_block_with_matches(block, &runs, start, drive)
}

} // verus!
