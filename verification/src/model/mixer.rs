//! Weights of a logistic mixer, in fixed point.
//!
//! A mixer fuses the predictions of its models as a weighted sum in the logistic
//! domain. The weights are integers with 16 fraction bits, the logits of the
//! predictions are integers with 10; their products add up in 64 bits.

use vstd::prelude::*;

verus! {

/// Fraction bits of a weight.
pub const WEIGHT_Q: i32 = 16;

/// Fraction bits of a logit.
pub const STRETCH_Q: i32 = 10;

/// Fraction bits of a weighted sum.
pub const ACC_SHIFT: i32 = 26;

/// The weight 1.
pub const W_INIT: i32 = 65536;

/// What leads from the fraction bits of a logit to those of a weight.
pub const GRAD_SCALE: i32 = 6;

/// How many models a mixer can fuse.
pub const MAX_MODELS: usize = 16;

/// What a mixer holds: a weight per model, and what is added to it at each bit
/// position.
#[verifier::ext_equal]
pub struct Weights {
    pub base: Seq<i32>,
    pub at: Seq<Seq<i32>>,
}

/// Weights of 1 at every position.
pub open spec fn unit(n: int) -> Weights {
    Weights {
        base: Seq::new(n as nat, |i: int| W_INIT),
        at: Seq::new(n as nat, |i: int| Seq::new(8, |b: int| 0i32)),
    }
}

/// A bit position, the last one where it is past the end.
pub open spec fn position(bit_pos: u8) -> int {
    if bit_pos < 7 {
        bit_pos as int
    } else {
        7
    }
}

/// The weighted sum of the first `n` logits.
pub open spec fn weighted(w: Weights, logits: Seq<i16>, b: int, n: int) -> int
    decreases n,
{
    if n <= 0 {
        0
    } else {
        weighted(w, logits, b, n - 1) + (w.base[n - 1] + w.at[n - 1][b]) * logits[n - 1]
    }
}

/// A number brought into the range of 32 bits.
pub open spec fn clamped(x: int) -> i32 {
    if x < i32::MIN {
        i32::MIN
    } else if x > i32::MAX {
        i32::MAX
    } else {
        x as i32
    }
}

/// The weights with a step added to the first ones, at one bit position.
pub open spec fn moved(w: Weights, steps: Seq<i32>, b: int) -> Weights {
    Weights {
        base: Seq::new(
            w.base.len(),
            |i: int|
                if i < steps.len() {
                    clamped(w.base[i] + steps[i])
                } else {
                    w.base[i]
                },
        ),
        at: Seq::new(
            w.at.len(),
            |i: int|
                if i < steps.len() {
                    w.at[i].update(b, clamped(w.at[i][b] + steps[i]))
                } else {
                    w.at[i]
                },
        ),
    }
}

/// A weighted sum of up to sixteen logits has room to spare in 64 bits.
pub proof fn law_weighted_range(w: Weights, logits: Seq<i16>, b: int, n: int)
    requires
        0 <= n <= MAX_MODELS,
    ensures
        -0x1_0000_0000_0000 * n <= weighted(w, logits, b, n) <= 0x1_0000_0000_0000 * n,
    decreases n,
{
    if n > 0 {
        law_weighted_range(w, logits, b, n - 1);
        let x = w.base[n - 1] + w.at[n - 1][b];
        let y = logits[n - 1] as int;
        assert(-0x1_0000_0000_0000 <= x * y <= 0x1_0000_0000_0000) by (nonlinear_arith)
            requires
                -0x1_0000_0000 <= x <= 0x1_0000_0000,
                -0x8000 <= y <= 0x8000,
        ;
    }
}

/// With unit weights the sum is that of the logits, in the weights' scale.
pub proof fn law_unit_weights(logits: Seq<i16>, count: int, b: int, n: int)
    requires
        0 <= n <= count,
        0 <= b < 8,
    ensures
        weighted(unit(count), logits, b, n) == W_INIT * logit_sum(logits, n),
    decreases n,
{
    if n > 0 {
        law_unit_weights(logits, count, b, n - 1);
        assert(W_INIT * (logit_sum(logits, n - 1) + logits[n - 1]) == W_INIT * logit_sum(
            logits,
            n - 1,
        ) + W_INIT * logits[n - 1]) by (nonlinear_arith);
    }
}

/// The sum of the first `n` logits.
pub open spec fn logit_sum(logits: Seq<i16>, n: int) -> int
    decreases n,
{
    if n <= 0 {
        0
    } else {
        logit_sum(logits, n - 1) + logits[n - 1]
    }
}

/// Weights of a logistic mixer.
pub struct LogisticMixer {
    weights: Vec<i32>,
    pos_weights: Vec<[i32; 8]>,
}

impl View for LogisticMixer {
    type V = Weights;

    closed spec fn view(&self) -> Weights {
        Weights {
            base: self.weights@,
            at: self.pos_weights@.map_values(|p: [i32; 8]| p@),
        }
    }
}

fn clamp(x: i64) -> (y: i32)
    ensures
        y == clamped(x as int),
{
    if x < i32::MIN as i64 {
        i32::MIN
    } else if x > i32::MAX as i64 {
        i32::MAX
    } else {
        x as i32
    }
}

impl LogisticMixer {
    /// Every model has its weights.
    pub closed spec fn wf(&self) -> bool {
        self.pos_weights@.len() == self.weights@.len()
    }

    /// A mixer of `n` models with unit weights.
    pub fn new(n: usize) -> (m: Self)
        ensures
            m.wf(),
            m@ == unit(n as int),
    {
        let m = Self { weights: vec![W_INIT; n], pos_weights: vec![[0i32; 8]; n] };
        assert forall|i: int| 0 <= i < n implies #[trigger] m@.at[i] == unit(n as int).at[i] by {
            assert(m@.at[i] =~= unit(n as int).at[i]);
        }
        assert(m@ =~= unit(n as int));
        m
    }

    /// The number of models.
    pub fn n_models(&self) -> (n: usize)
        ensures
            n == self@.base.len(),
    {
        self.weights.len()
    }

    /// The weights, without what the bit position adds.
    pub fn weights(&self) -> (w: &Vec<i32>)
        ensures
            w@ == self@.base,
    {
        &self.weights
    }

    /// What each bit position adds to the weights.
    pub fn pos_weights(&self) -> (w: &Vec<[i32; 8]>)
        requires
            self.wf(),
        ensures
            w@.len() == self@.base.len(),
            forall|i: int| 0 <= i < w@.len() ==> #[trigger] w@[i]@ == self@.at[i],
    {
        &self.pos_weights
    }

    /// Replaces the weights. What each bit position adds to them stays.
    pub fn set_weights(&mut self, base: Vec<i32>)
        requires
            old(self).wf(),
            base@.len() == old(self)@.base.len(),
        ensures
            final(self).wf(),
            final(self)@ == (Weights { base: base@, at: old(self)@.at }),
    {
        self.weights = base;
    }

    /// Replaces what each bit position adds to the weights.
    pub fn set_pos_weights(&mut self, at: Vec<[i32; 8]>)
        requires
            old(self).wf(),
            at@.len() == old(self)@.base.len(),
        ensures
            final(self).wf(),
            final(self)@.base == old(self)@.base,
            final(self)@.at == at@.map_values(|p: [i32; 8]| p@),
    {
        self.pos_weights = at;
    }

    /// The weighted sum of the logits at a bit position.
    pub fn mix_acc(&self, logits: &[i16], bit_pos: u8) -> (acc: i64)
        requires
            self.wf(),
            logits@.len() <= self@.base.len(),
            logits@.len() <= MAX_MODELS,
        ensures
            acc == weighted(self@, logits@, position(bit_pos), logits@.len() as int),
    {
        let b: usize = if bit_pos < 7 {
            bit_pos as usize
        } else {
            7
        };
        let mut acc: i64 = 0;
        let mut i: usize = 0;
        while i < logits.len()
            invariant
                self.wf(),
                i <= logits@.len(),
                logits@.len() <= self@.base.len(),
                logits@.len() <= MAX_MODELS,
                b == position(bit_pos),
                b < 8,
                acc == weighted(self@, logits@, b as int, i as int),
            decreases logits@.len() - i,
        {
            proof {
                law_weighted_range(self@, logits@, b as int, i as int);
                law_weighted_range(self@, logits@, b as int, i + 1);
                assert(self@.at[i as int] == self.pos_weights@[i as int]@);
            }
            let pos: [i32; 8] = self.pos_weights[i];
            let w: i64 = self.weights[i] as i64 + pos[b] as i64;
            let l: i64 = logits[i] as i64;
            assert(-0x1_0000_0000_0000 <= w * l <= 0x1_0000_0000_0000) by (nonlinear_arith)
                requires
                    -0x1_0000_0000 <= w <= 0x1_0000_0000,
                    -0x8000 <= l <= 0x8000,
            ;
            acc = acc + w * l;
            i = i + 1;
        }
        acc
    }

    /// Adds a step to the weight of each model, and to what the bit position
    /// adds; a weight stays within 32 bits.
    pub fn apply(&mut self, steps: &[i32], bit_pos: u8)
        requires
            old(self).wf(),
            steps@.len() <= old(self)@.base.len(),
        ensures
            final(self).wf(),
            final(self)@ == moved(old(self)@, steps@, position(bit_pos)),
    {
        let b: usize = if bit_pos < 7 {
            bit_pos as usize
        } else {
            7
        };
        let ghost w0 = self@;
        let ghost goal = moved(w0, steps@, b as int);
        let mut i: usize = 0;
        while i < steps.len()
            invariant
                self.wf(),
                i <= steps@.len(),
                steps@.len() <= w0.base.len(),
                w0.at.len() == w0.base.len(),
                self@.base.len() == w0.base.len(),
                self@.at.len() == w0.at.len(),
                b == position(bit_pos),
                b < 8,
                goal == moved(w0, steps@, b as int),
                forall|j: int| 0 <= j < i ==> #[trigger] self@.base[j] == goal.base[j],
                forall|j: int| i <= j < w0.base.len() ==> #[trigger] self@.base[j] == w0.base[j],
                forall|j: int| 0 <= j < i ==> #[trigger] self@.at[j] == goal.at[j],
                forall|j: int| i <= j < w0.at.len() ==> #[trigger] self@.at[j] == w0.at[j],
            decreases steps@.len() - i,
        {
            let ghost before = self@;
            let d: i64 = steps[i] as i64;
            let w: i32 = self.weights[i];
            assert(self@.base[i as int] == w0.base[i as int]);
            assert(self@.at[i as int] == w0.at[i as int]);
            self.weights.set(i, clamp(w as i64 + d));
            let mut pos: [i32; 8] = self.pos_weights[i];
            let ghost p0 = pos@;
            let p: i32 = pos[b];
            pos[b] = clamp(p as i64 + d);
            self.pos_weights.set(i, pos);
            proof {
                assert(pos@ =~= p0.update(b as int, clamped(p + d)));
                assert(self@.at[i as int] =~= goal.at[i as int]);
                assert(self@.at =~= before.at.update(i as int, goal.at[i as int]));
                assert(self@.base =~= before.base.update(i as int, goal.base[i as int]));
            }
            i = i + 1;
        }
        assert(self@ =~= goal);
    }

    /// Sets every weight back to 1.
    pub fn reset(&mut self)
        ensures
            final(self).wf(),
            final(self)@ == unit(old(self)@.base.len() as int),
    {
        let n: usize = self.weights.len();
        *self = Self::new(n);
    }
}

} // verus!
