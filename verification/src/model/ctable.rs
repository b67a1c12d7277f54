//! Direct-addressed table of bit counts per context.
//!
//! A bucket is found by a multiplicative hash of the context. A reset only moves
//! on to the next generation: a bucket of an earlier generation counts as fresh.
//! Contexts that share a bucket share its counts; that costs ratio, never
//! correctness, since the decoder counts as the encoder does.

use crate::model::assembler;
use vstd::prelude::*;

verus! {

/// The count of each bit value in a fresh bucket, so that it predicts about even
/// odds.
pub const INIT: u32 = 32;

/// The highest probability of a bit, in twelve bits.
pub const MAX_PROB: u16 = 4095;

/// The lowest probability of a bit.
pub const MIN_PROB: u16 = 1;

/// Multiplier of the context hash.
pub const MULTIPLIER: u64 = 0x9E37_79B9_1AB3_57C5;

/// How often bit 0 and bit 1 were seen.
pub struct Counts {
    pub zeros: u32,
    pub ones: u32,
}

/// The counts of a fresh bucket.
pub open spec fn even() -> Counts {
    Counts { zeros: INIT, ones: INIT }
}

/// A table of fresh buckets.
pub open spec fn fresh(n: int) -> Seq<Counts> {
    Seq::new(n as nat, |i: int| even())
}

/// The hash of a context.
pub open spec fn hash(ctx: u64) -> int {
    (ctx * MULTIPLIER) % 0x1_0000_0000_0000_0000
}

/// The bucket of a context among `n`.
pub open spec fn slot_of(ctx: u64, n: int) -> int {
    hash(ctx) % n
}

/// One more occurrence; a count stays at its highest value.
pub open spec fn one_more(c: u32) -> u32 {
    if c < u32::MAX {
        (c + 1) as u32
    } else {
        c
    }
}

/// Counts with one more bit.
pub open spec fn with_seen(c: Counts, bit: bool) -> Counts {
    if bit {
        Counts { zeros: c.zeros, ones: one_more(c.ones) }
    } else {
        Counts { zeros: one_more(c.zeros), ones: c.ones }
    }
}

/// The counts under a context.
pub open spec fn under(t: Seq<Counts>, ctx: u64) -> Counts {
    t[slot_of(ctx, t.len() as int)]
}

/// A table with one more bit counted under a context.
pub open spec fn counted(t: Seq<Counts>, ctx: u64, bit: bool) -> Seq<Counts> {
    t.update(slot_of(ctx, t.len() as int), with_seen(under(t, ctx), bit))
}

/// The share of ones as a probability in `[1, 4095]`.
pub open spec fn prob_of(c: Counts) -> u16 {
    let total = c.zeros + c.ones;
    if total == 0 {
        2048
    } else {
        let p = (c.ones * MAX_PROB) / total;
        if p < MIN_PROB {
            MIN_PROB
        } else {
            p as u16
        }
    }
}

proof fn lemma_share(c: Counts)
    requires
        c.zeros + c.ones > 0,
    ensures
        0 <= (c.ones * MAX_PROB) / (c.zeros + c.ones) <= MAX_PROB,
{
    let total = c.zeros + c.ones;
    assert(0 <= (c.ones * MAX_PROB) / total <= MAX_PROB) by (nonlinear_arith)
        requires
            total > 0,
            0 <= c.ones <= total,
            MAX_PROB == 4095,
    ;
}

/// A probability lies in its range.
pub proof fn law_prob_range(c: Counts)
    ensures
        MIN_PROB <= prob_of(c) <= MAX_PROB,
{
    if c.zeros + c.ones > 0 {
        lemma_share(c);
    }
}

/// A fresh context predicts even odds, but for rounding.
pub proof fn law_fresh_is_even()
    ensures
        prob_of(even()) == 2047,
{
}

/// A seen one never lowers the probability of a one, and a seen zero never
/// raises it.
pub proof fn law_adapts(c: Counts)
    requires
        c.zeros + c.ones > 0,
    ensures
        prob_of(with_seen(c, true)) >= prob_of(c),
        prob_of(with_seen(c, false)) <= prob_of(c),
{
    let total = c.zeros + c.ones;
    let a = c.ones * MAX_PROB;
    lemma_share(c);
    lemma_share(with_seen(c, true));
    lemma_share(with_seen(c, false));
    if c.ones < u32::MAX {
        let b = (c.ones + 1) * MAX_PROB;
        assert(a / total <= b / (total + 1)) by (nonlinear_arith)
            requires
                total > 0,
                0 <= c.ones <= total,
                a == c.ones * MAX_PROB,
                b == (c.ones + 1) * MAX_PROB,
                MAX_PROB == 4095,
        {
            let q = a / total;
            assert(q * total <= a);
            assert(q <= 4095);
            assert(q * (total + 1) <= b);
            assert(q <= b / (total + 1));
        }
    }
    if c.zeros < u32::MAX {
        assert(a / (total + 1) <= a / total) by (nonlinear_arith)
            requires
                total > 0,
                0 <= a,
        {
            let q = a / (total + 1);
            assert(q * (total + 1) <= a);
            assert(0 <= q);
            assert(q * total <= a);
            assert(q <= a / total);
        }
    }
}

/// The share of ones as a probability in `[1, 4095]`.
pub fn prob(zeros: u32, ones: u32) -> (p: u16)
    ensures
        p == prob_of(Counts { zeros, ones }),
        MIN_PROB <= p <= MAX_PROB,
{
    proof {
        law_prob_range(Counts { zeros, ones });
    }
    let total: u64 = zeros as u64 + ones as u64;
    if total == 0 {
        return 2048;
    }
    let p: u64 = (ones as u64 * MAX_PROB as u64) / total;
    if p < MIN_PROB as u64 {
        MIN_PROB
    } else {
        p as u16
    }
}

/// Direct-addressed table of bit counts per context.
pub struct CtxTable {
    generation: Vec<u32>,
    current: u32,
    zeros: Vec<u32>,
    ones: Vec<u32>,
}

impl View for CtxTable {
    type V = Seq<Counts>;

    closed spec fn view(&self) -> Seq<Counts> {
        Seq::new(
            self.generation@.len(),
            |i: int|
                if self.generation@[i] == self.current {
                    Counts { zeros: self.zeros@[i], ones: self.ones@[i] }
                } else {
                    even()
                },
        )
    }
}

impl CtxTable {
    /// There is a bucket, each has a generation up to the current one, and none
    /// counts less than a fresh one.
    pub closed spec fn wf(&self) -> bool {
        &&& self.generation@.len() > 0
        &&& self.zeros@.len() == self.generation@.len()
        &&& self.ones@.len() == self.generation@.len()
        &&& self.current > 0
        &&& forall|i: int|
            0 <= i < self.generation@.len() ==> #[trigger] self.generation@[i] <= self.current
        &&& forall|i: int|
            0 <= i < self.generation@.len() && #[trigger] self.generation@[i] == self.current
                ==> self.zeros@[i] >= INIT && self.ones@[i] >= INIT
    }

    /// Every context counts at least what a fresh one does.
    pub proof fn lemma_counts(&self, ctx: u64)
        requires
            self.wf(),
        ensures
            self@.len() > 0,
            0 <= slot_of(ctx, self@.len() as int) < self@.len(),
            under(self@, ctx).zeros >= INIT,
            under(self@, ctx).ones >= INIT,
    {
        let k = slot_of(ctx, self@.len() as int);
        assert(0 <= k < self@.len());
        assert(self.generation@[k] <= self.current);
    }

    /// A table of `2^bits` fresh buckets.
    pub fn new(bits: u32) -> (t: Self)
        requires
            bits < usize::BITS,
        ensures
            t.wf(),
            t@ == fresh(assembler::two_to(bits as nat)),
            t@.len() == assembler::two_to(bits as nat),
    {
        let n: usize = assembler::power_of_two(bits);
        let t = Self {
            generation: vec![0u32; n],
            current: 1,
            zeros: vec![0u32; n],
            ones: vec![0u32; n],
        };
        assert(t@ =~= fresh(assembler::two_to(bits as nat)));
        t
    }

    fn slot(&self, ctx: u64) -> (k: usize)
        requires
            self.wf(),
        ensures
            k == slot_of(ctx, self@.len() as int),
            k < self@.len(),
    {
        let n: u64 = self.generation.len() as u64;
        let h: u64 = ctx.wrapping_mul(MULTIPLIER);
        (h % n) as usize
    }

    /// How often bit 0 and bit 1 were seen under `ctx`.
    pub fn get(&self, ctx: u64) -> (c: [u32; 2])
        requires
            self.wf(),
        ensures
            c[0] == under(self@, ctx).zeros,
            c[1] == under(self@, ctx).ones,
    {
        let k: usize = self.slot(ctx);
        if self.generation[k] == self.current {
            [self.zeros[k], self.ones[k]]
        } else {
            [INIT, INIT]
        }
    }

    /// Counts one more `bit` under `ctx`.
    pub fn update(&mut self, ctx: u64, bit: bool)
        requires
            old(self).wf(),
        ensures
            final(self).wf(),
            final(self)@ == counted(old(self)@, ctx, bit),
            final(self)@.len() == old(self)@.len(),
    {
        let k: usize = self.slot(ctx);
        if self.generation[k] != self.current {
            self.generation.set(k, self.current);
            self.zeros.set(k, INIT);
            self.ones.set(k, INIT);
        }
        if bit {
            let c: u32 = self.ones[k];
            self.ones.set(k, c.saturating_add(1));
        } else {
            let c: u32 = self.zeros[k];
            self.zeros.set(k, c.saturating_add(1));
        }
        assert(self@ =~= counted(old(self)@, ctx, bit));
    }

    /// Makes every bucket fresh.
    pub fn reset(&mut self)
        requires
            old(self).wf(),
        ensures
            final(self).wf(),
            final(self)@ == fresh(old(self)@.len() as int),
            final(self)@.len() == old(self)@.len(),
    {
        if self.current == u32::MAX {
            let n: usize = self.generation.len();
            self.generation = vec![0u32; n];
            self.current = 1;
        } else {
            self.current = self.current + 1;
        }
        assert(self@ =~= fresh(old(self)@.len() as int));
    }
}

} // verus!
