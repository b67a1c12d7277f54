//! Executable model: bit counts under a byte and its distance to the one before.

use crate::model::assembler;
use crate::model::ctable;
use crate::model::ctable::CtxTable;
use crate::model::{BitModel, ByteAssembler};
use vstd::prelude::*;

verus! {

/// Address bits of the context table.
pub const CTX_BITS: u32 = 20;

/// What an executable model holds.
#[verifier::ext_equal]
pub struct ExecState {
    pub bits: assembler::Bits,
    pub table: Seq<ctable::Counts>,
}

/// An executable model that has seen nothing.
pub open spec fn new_state() -> ExecState {
    ExecState {
        bits: assembler::no_bits(2),
        table: ctable::fresh(assembler::two_to(CTX_BITS as nat)),
    }
}

/// The context of the next bit: the byte before the most recent one, and what
/// leads from it to the most recent one, modulo 256.
pub open spec fn context(s: ExecState) -> u64 {
    let before = assembler::prev_byte_of(s.bits.recent);
    let last = assembler::last_byte_of(s.bits.recent);
    (before * 0x100 + (last - before) % 256) as u64
}

/// The probability of a one: even odds until a byte is complete.
pub open spec fn predicted(s: ExecState) -> u16 {
    if s.bits.recent.len() == 0 {
        2048
    } else {
        ctable::prob_of(ctable::under(s.table, context(s)))
    }
}

/// The model with one more bit seen.
pub open spec fn learned(s: ExecState, bit: bool) -> ExecState {
    ExecState {
        bits: assembler::pushed(s.bits, bit),
        table: ctable::counted(s.table, context(s), bit),
    }
}

/// Executable-oriented bit model.
pub struct Exec {
    bits: ByteAssembler,
    table: CtxTable,
}

impl View for Exec {
    type V = ExecState;

    closed spec fn view(&self) -> ExecState {
        ExecState { bits: self.bits@, table: self.table@ }
    }
}

impl Exec {
    /// A model that has seen nothing.
    pub fn new() -> (m: Self)
        ensures
            m.wf(),
            m@ == new_state(),
    {
        Self { bits: ByteAssembler::new(2), table: CtxTable::new(CTX_BITS) }
    }

    fn key(&self) -> (k: u64)
        ensures
            k == context(self@),
    {
        let before: u8 = self.bits.prev_byte();
        let last: u8 = self.bits.last_byte();
        before as u64 * 0x100 + last.wrapping_sub(before) as u64
    }
}

impl BitModel for Exec {
    closed spec fn wf(&self) -> bool {
        &&& self.bits.wf()
        &&& self.bits@.kept == 2
        &&& self.table.wf()
        &&& self.table@.len() == assembler::two_to(CTX_BITS as nat)
    }

    fn predict(&self) -> (p: u16)
        ensures
            p == predicted(self@),
    {
        if !self.bits.has_byte() {
            return 2048;
        }
        let c: [u32; 2] = self.table.get(self.key());
        ctable::prob(c[0], c[1])
    }

    fn update(&mut self, bit: bool)
        ensures
            final(self)@ == learned(old(self)@, bit),
    {
        let k: u64 = self.key();
        self.bits.push_bit(bit);
        self.table.update(k, bit);
    }

    fn reset(&mut self)
        ensures
            final(self)@ == new_state(),
    {
        self.bits.reset();
        self.table.reset();
    }
}

impl Default for Exec {
    fn default() -> (m: Self)
        ensures
            m.wf(),
            m@ == new_state(),
    {
        Self::new()
    }
}

} // verus!
