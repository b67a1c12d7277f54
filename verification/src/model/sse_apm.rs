//! Contexts of the stages that refine a mixed probability: by the byte before and
//! the bit position, by an earlier byte and the probability itself, and by a byte
//! before that.

use vstd::prelude::*;

verus! {

/// The highest probability.
pub const PROB_MAX: u16 = 4095;

/// Number of probability bins of the first stage.
pub const SSE_BINS: usize = 16;

/// Number of probability bins of the later stages.
pub const APM_BINS: usize = 16;

/// Number of contexts of the first stage.
pub const SSE_CONTEXTS: usize = 2048;

/// Number of contexts of the second stage.
pub const APM_CONTEXTS: usize = 4096;

/// Number of contexts of the third stage.
pub const APM2_CONTEXTS: usize = 16;

/// The bin of a probability among `bins`.
pub open spec fn bin_of(p: u16, bins: int) -> int {
    (p * bins) / 4096
}

/// A probability falls into one of the bins.
pub proof fn law_bin_in_range(p: u16, bins: int)
    requires
        p <= PROB_MAX,
        bins > 0,
    ensures
        0 <= bin_of(p, bins) < bins,
{
    assert(0 <= p * bins < 4096 * bins) by (nonlinear_arith)
        requires
            0 <= p < 4096,
            bins > 0,
    ;
}

/// The sixteen bins have 256 probabilities each.
pub proof fn law_sixteen_bins(p: u16)
    requires
        p <= 4095,
    ensures
        256 * bin_of(p, 16) <= p < 256 * (bin_of(p, 16) + 1),
{
}

/// The bin of a probability among `bins`.
pub fn quant(p: u16, bins: usize) -> (b: usize)
    requires
        p * bins <= usize::MAX,
    ensures
        b == bin_of(p, bins as int),
{
    (p as usize * bins) / 4096
}

/// The bytes that the stages look at, the most recent one first.
pub struct CascadeContext {
    pub prev_byte: u8,
    pub order1_byte: u8,
    pub order2_byte: u8,
}

impl CascadeContext {
    /// A context without a byte.
    pub fn new() -> (c: Self)
        ensures
            c == (CascadeContext { prev_byte: 0, order1_byte: 0, order2_byte: 0 }),
    {
        Self { prev_byte: 0, order1_byte: 0, order2_byte: 0 }
    }

    /// Takes a byte as the most recent one.
    pub fn set_context(&mut self, byte: u8)
        ensures
            *final(self) == (CascadeContext {
                prev_byte: byte,
                order1_byte: old(self).prev_byte,
                order2_byte: old(self).order1_byte,
            }),
    {
        self.order2_byte = self.order1_byte;
        self.order1_byte = self.prev_byte;
        self.prev_byte = byte;
    }

    /// The context of the first stage.
    pub fn sse_ctx(&self, bit_pos: u8) -> (c: usize)
        ensures
            c == self.prev_byte * 8 + if bit_pos < 7 {
                bit_pos as int
            } else {
                7
            },
            c < SSE_CONTEXTS,
    {
        let b: usize = if bit_pos < 7 {
            bit_pos as usize
        } else {
            7
        };
        self.prev_byte as usize * 8 + b
    }

    /// The context of the second stage, for the probability of the first.
    pub fn apm_ctx(&self, p_sse: u16) -> (c: usize)
        requires
            p_sse <= PROB_MAX,
        ensures
            c == self.order1_byte * 16 + bin_of(p_sse, APM_BINS as int),
            c < APM_CONTEXTS,
    {
        self.order1_byte as usize * 16 + quant(p_sse, APM_BINS)
    }

    /// The context of the third stage.
    pub fn apm2_ctx(&self) -> (c: usize)
        ensures
            c == self.order2_byte % 16,
            c < APM2_CONTEXTS,
    {
        (self.order2_byte % 16) as usize
    }

    /// Forgets the bytes.
    pub fn reset(&mut self)
        ensures
            *final(self) == (CascadeContext { prev_byte: 0, order1_byte: 0, order2_byte: 0 }),
    {
        *self = Self::new();
    }
}

} // verus!
