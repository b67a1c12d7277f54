//! Sparse model: bit counts under a few bytes picked from the recent ones.
//!
//! Such a context catches regularities over a distance that the last bytes in a
//! row miss.

use crate::model::assembler;
use crate::model::ctable;
use crate::model::ctable::CtxTable;
use crate::model::{BitModel, ByteAssembler};
use vstd::prelude::*;

verus! {

/// Address bits of the context table.
pub const CTX_BITS: u32 = 21;

/// How many recent bytes are kept.
pub const KEPT: usize = 8;

/// What a sparse model holds.
#[verifier::ext_equal]
pub struct SparseState {
    pub bits: assembler::Bits,
    pub table: Seq<ctable::Counts>,
}

/// A sparse model that has seen nothing.
pub open spec fn new_state() -> SparseState {
    SparseState {
        bits: assembler::no_bits(KEPT as int),
        table: ctable::fresh(assembler::two_to(CTX_BITS as nat)),
    }
}

/// The first byte, or 0.
pub open spec fn first_of(s: Seq<u8>) -> u8 {
    if s.len() == 0 {
        0
    } else {
        s[0]
    }
}

/// The context of the next bit: how many bytes there are, the most recent one,
/// the first of the last five and the first of the last two. The number of bytes
/// keeps a short history apart from a full one.
pub open spec fn context(s: SparseState) -> u64 {
    let r = s.bits.recent;
    let far = first_of(assembler::last_of(r, 5));
    let near = first_of(assembler::last_of(r, 2));
    (r.len() * 0x100_0000_0000 + assembler::last_byte_of(r) * 0x1_0000 + far * 0x100 + near) as u64
}

/// The model with one more bit seen.
pub open spec fn learned(s: SparseState, bit: bool) -> SparseState {
    SparseState {
        bits: assembler::pushed(s.bits, bit),
        table: ctable::counted(s.table, context(s), bit),
    }
}

/// Sparse-context bit model.
pub struct Sparse {
    bits: ByteAssembler,
    table: CtxTable,
}

impl View for Sparse {
    type V = SparseState;

    closed spec fn view(&self) -> SparseState {
        SparseState { bits: self.bits@, table: self.table@ }
    }
}

impl Sparse {
    /// A model that has seen nothing.
    pub fn new() -> (m: Self)
        ensures
            m.wf(),
            m@ == new_state(),
    {
        Self { bits: ByteAssembler::new(KEPT), table: CtxTable::new(CTX_BITS) }
    }

    fn first_of_last(&self, n: usize) -> (b: u8)
        ensures
            b == first_of(assembler::last_of(self.bits@.recent, n as int)),
    {
        let s: &[u8] = self.bits.last(n);
        if s.len() == 0 {
            0
        } else {
            s[0]
        }
    }

    fn key(&self) -> (k: u64)
        requires
            self.wf(),
        ensures
            k == context(self@),
    {
        proof {
            self.bits.lemma_part();
        }
        let n: u64 = self.bits.bytes_len();
        let last: u8 = self.bits.last_byte();
        let near: u8 = self.first_of_last(2);
        let far: u8 = self.first_of_last(5);
        n * 0x100_0000_0000 + last as u64 * 0x1_0000 + far as u64 * 0x100 + near as u64
    }
}

impl BitModel for Sparse {
    closed spec fn wf(&self) -> bool {
        &&& self.bits.wf()
        &&& self.bits@.kept == KEPT
        &&& self.table.wf()
        &&& self.table@.len() == assembler::two_to(CTX_BITS as nat)
    }

    fn predict(&self) -> (p: u16)
        ensures
            p == ctable::prob_of(ctable::under(self@.table, context(self@))),
    {
        let c: [u32; 2] = self.table.get(self.key());
        ctable::prob(c[0], c[1])
    }

    fn update(&mut self, bit: bool)
        ensures
            final(self)@ == learned(old(self)@, bit),
    {
        let k: u64 = self.key();
        self.bits.push_bit(bit);
        self.table.update(k, bit);
    }

    fn reset(&mut self)
        ensures
            final(self)@ == new_state(),
    {
        self.bits.reset();
        self.table.reset();
    }
}

impl Default for Sparse {
    fn default() -> (m: Self)
        ensures
            m.wf(),
            m@ == new_state(),
    {
        Self::new()
    }
}

} // verus!
