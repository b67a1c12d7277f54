//! What a predictor of bits is asked and told.
//!
//! A predictor is a function from a state and a step to the next state and a
//! number. It is asked for the probability of the next bit, told each bit that was
//! coded, each byte that a match covers, and each block that begins or ends. The
//! encoder and the decoder of a block take it through the same steps, so that it
//! gives both the same probabilities.

use crate::classify::BlockKind;
use crate::codec::search::Run;
use crate::model::lzp;
use vstd::prelude::*;

verus! {

/// What a predictor is asked or told.
#[derive(Debug, Clone, Copy, PartialEq, Eq, Structural)]
pub enum Step {
    /// A stack of models for blocks of a kind replaces the present one.
    Rebuild(BlockKind),
    /// The probability of bit 1 of the next bit, in `[1, 4095]`, is asked for.
    Predict,
    /// The bit whose probability was asked for.
    Learn(bool),
    /// A byte that a match covers and that is not coded.
    Skip(u8),
    /// A block has ended; what was learned fades.
    Decay,
}

/// Whether a predictor takes every step in every state, and gives one reply to
/// each.
pub open spec fn drivable<S, F: Fn(S, Step) -> (S, u16)>(drive: F) -> bool {
    &&& forall|s: S, step: Step| #[trigger] call_requires(drive, (s, step))
    &&& forall|s: S, step: Step, a: (S, u16), b: (S, u16)| #[trigger]
        call_ensures(drive, (s, step), a) && #[trigger] call_ensures(drive, (s, step), b) ==> a
            == b
}

/// The replies of a predictor.
pub open spec fn replies<S, F: Fn(S, Step) -> (S, u16)>(drive: F) -> spec_fn(S, Step) -> (
    S,
    u16,
) {
    |s: S, step: Step| choose|a: (S, u16)| call_ensures(drive, (s, step), a)
}

/// Takes one step.
pub fn ask<S, F: Fn(S, Step) -> (S, u16)>(drive: &F, s: S, step: Step) -> (r: (S, u16))
    requires
        drivable::<S, F>(*drive),
    ensures
        r == replies::<S, F>(*drive)(s, step),
{
    assert(call_requires(drive, (s, step)));
    let ghost before = s;
    let r = drive(s, step);
    assert(call_ensures(*drive, (before, step), r));
    r
}

/// The state behind some steps.
pub open spec fn told<S>(f: spec_fn(S, Step) -> (S, u16), s: S, steps: Seq<Step>) -> S
    decreases steps.len(),
{
    if steps.len() == 0 {
        s
    } else {
        f(told(f, s, steps.drop_last()), steps.last()).0
    }
}

/// The probabilities that are given along some steps.
pub open spec fn given<S>(f: spec_fn(S, Step) -> (S, u16), s: S, steps: Seq<Step>) -> Seq<u16>
    decreases steps.len(),
{
    if steps.len() == 0 {
        Seq::empty()
    } else {
        let before = given(f, s, steps.drop_last());
        if steps.last() == Step::Predict {
            before.push(f(told(f, s, steps.drop_last()), Step::Predict).1)
        } else {
            before
        }
    }
}

/// Steps can be taken in two parts.
pub proof fn lemma_told_parts<S>(
    f: spec_fn(S, Step) -> (S, u16),
    s: S,
    a: Seq<Step>,
    b: Seq<Step>,
)
    ensures
        told(f, s, a + b) == told(f, told(f, s, a), b),
        given(f, s, a + b) == given(f, s, a) + given(f, told(f, s, a), b),
    decreases b.len(),
{
    if b.len() == 0 {
        assert(a + b =~= a);
        assert(given(f, s, a) + given(f, told(f, s, a), b) =~= given(f, s, a));
    } else {
        lemma_told_parts(f, s, a, b.drop_last());
        assert((a + b).drop_last() =~= a + b.drop_last());
        assert((a + b).last() == b.last());
        let t = told(f, s, a);
        assert(given(f, s, a + b) =~= given(f, s, a) + given(f, t, b));
    }
}

/// One more step.
pub proof fn lemma_told_push<S>(
    f: spec_fn(S, Step) -> (S, u16),
    s: S,
    a: Seq<Step>,
    step: Step,
)
    ensures
        told(f, s, a.push(step)) == f(told(f, s, a), step).0,
        given(f, s, a.push(step)) == (if step == Step::Predict {
            given(f, s, a).push(f(told(f, s, a), step).1)
        } else {
            given(f, s, a)
        }),
{
    assert(a.push(step).drop_last() =~= a);
}

/// The steps of the first `k` bits of a byte: each bit is predicted, then told.
pub open spec fn bit_steps(b: u8, k: int) -> Seq<Step>
    decreases k,
{
    if k <= 0 {
        Seq::empty()
    } else {
        bit_steps(b, k - 1).push(Step::Predict).push(Step::Learn(lzp::bit_from_top(b, k - 1)))
    }
}

/// The steps of a literal.
pub open spec fn literal_steps(b: u8) -> Seq<Step> {
    bit_steps(b, 8)
}

/// The steps of bytes that a match covers.
pub open spec fn skip_steps(bytes: Seq<u8>) -> Seq<Step> {
    Seq::new(bytes.len(), |i: int| Step::Skip(bytes[i]))
}

/// The steps of a block with its matches from place `i` on.
pub open spec fn body_steps(block: Seq<u8>, runs: Seq<Run>, i: int) -> Seq<Step>
    decreases
        if i < block.len() {
            block.len() - i
        } else {
            0
        },
        runs.len(),
{
    if i < 0 || i >= block.len() {
        Seq::empty()
    } else if runs.len() > 0 && runs[0].pos == i && runs[0].len >= 0 {
        skip_steps(block.subrange(i, i + runs[0].len)) + body_steps(
            block,
            runs.drop_first(),
            i + runs[0].len,
        )
    } else {
        literal_steps(block[i]) + body_steps(block, runs, i + 1)
    }
}

/// The state in front of a block: models of another kind are replaced.
pub open spec fn rebuilt<S>(
    f: spec_fn(S, Step) -> (S, u16),
    s: S,
    have: Option<BlockKind>,
    kind: BlockKind,
) -> S {
    if have == Some(kind) {
        s
    } else {
        f(s, Step::Rebuild(kind)).0
    }
}

/// The state behind a block.
pub open spec fn faded<S>(f: spec_fn(S, Step) -> (S, u16), s: S) -> S {
    f(s, Step::Decay).0
}

/// Some bits of a literal take as many probabilities.
pub proof fn lemma_bit_steps_given<S>(f: spec_fn(S, Step) -> (S, u16), s: S, b: u8, k: int)
    requires
        0 <= k,
    ensures
        given(f, s, bit_steps(b, k)).len() == k,
        bit_steps(b, k).len() == 2 * k,
    decreases k,
{
    if k > 0 {
        let a = bit_steps(b, k - 1);
        lemma_bit_steps_given(f, s, b, k - 1);
        lemma_told_push(f, s, a, Step::Predict);
        lemma_told_push(
            f,
            s,
            a.push(Step::Predict),
            Step::Learn(lzp::bit_from_top(b, k - 1)),
        );
    }
}

/// Telling a skipped byte and then others.
pub proof fn lemma_skip_push<S>(f: spec_fn(S, Step) -> (S, u16), s: S, bytes: Seq<u8>, b: u8)
    ensures
        skip_steps(bytes.push(b)) == skip_steps(bytes).push(Step::Skip(b)),
        told(f, s, skip_steps(bytes.push(b))) == f(
            told(f, s, skip_steps(bytes)),
            Step::Skip(b),
        ).0,
{
    assert(skip_steps(bytes.push(b)) =~= skip_steps(bytes).push(Step::Skip(b)));
    lemma_told_push(f, s, skip_steps(bytes), Step::Skip(b));
}

/// Skipped bytes take no probabilities.
pub proof fn lemma_skip_given<S>(f: spec_fn(S, Step) -> (S, u16), s: S, bytes: Seq<u8>)
    ensures
        given(f, s, skip_steps(bytes)).len() == 0,
    decreases bytes.len(),
{
    if bytes.len() > 0 {
        lemma_skip_given(f, s, bytes.drop_last());
        assert(skip_steps(bytes).drop_last() =~= skip_steps(bytes.drop_last()));
    }
}

} // verus!
