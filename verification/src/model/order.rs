//! Order-N model: bit counts under the last N bytes.

use crate::model::assembler;
use crate::model::ctable;
use crate::model::ctable::CtxTable;
use crate::model::dense;
use crate::model::{BitModel, ByteAssembler};
use vstd::prelude::*;

verus! {

/// Address bits of the context table.
pub const CTX_BITS: u32 = 21;

/// What an order-N model holds.
#[verifier::ext_equal]
pub struct OrderState {
    pub order: int,
    pub bits: assembler::Bits,
    pub table: Seq<ctable::Counts>,
}

/// An order-N model that has seen nothing.
pub open spec fn new_state(order: int) -> OrderState {
    OrderState {
        order,
        bits: assembler::no_bits(
            if order < 1 {
                1
            } else {
                order
            },
        ),
        table: ctable::fresh(assembler::two_to(CTX_BITS as nat)),
    }
}

/// The context of the next bit.
pub open spec fn context(s: OrderState) -> u64 {
    dense::dense_key(s.bits, s.order)
}

/// The model with one more bit seen.
pub open spec fn learned(s: OrderState, bit: bool) -> OrderState {
    OrderState {
        order: s.order,
        bits: assembler::pushed(s.bits, bit),
        table: ctable::counted(s.table, context(s), bit),
    }
}

/// Order-N context model over bytes. The context is the last N completed bytes,
/// or fewer at the start of a block, and the position within the current byte.
pub struct OrderN {
    order: usize,
    bits: ByteAssembler,
    table: CtxTable,
}

impl View for OrderN {
    type V = OrderState;

    closed spec fn view(&self) -> OrderState {
        OrderState { order: self.order as int, bits: self.bits@, table: self.table@ }
    }
}

impl OrderN {
    /// A model of the given order; order 0 looks at the bit position alone.
    pub fn new(order: usize) -> (m: Self)
        ensures
            m.wf(),
            m@ == new_state(order as int),
    {
        let cap: usize = if order < 1 {
            1
        } else {
            order
        };
        Self { order, bits: ByteAssembler::new(cap), table: CtxTable::new(CTX_BITS) }
    }
}

impl BitModel for OrderN {
    closed spec fn wf(&self) -> bool {
        &&& self.bits.wf()
        &&& self.bits@.kept == (if self.order < 1 {
            1
        } else {
            self.order as int
        })
        &&& self.table.wf()
        &&& self.table@.len() == assembler::two_to(CTX_BITS as nat)
    }

    fn predict(&self) -> (p: u16)
        ensures
            p == ctable::prob_of(ctable::under(self@.table, context(self@))),
    {
        let k: u64 = dense::key(&self.bits, self.order);
        let c: [u32; 2] = self.table.get(k);
        ctable::prob(c[0], c[1])
    }

    fn update(&mut self, bit: bool)
        ensures
            final(self)@ == learned(old(self)@, bit),
    {
        let k: u64 = dense::key(&self.bits, self.order);
        self.bits.push_bit(bit);
        self.table.update(k, bit);
    }

    fn reset(&mut self)
        ensures
            final(self)@ == new_state(old(self)@.order),
    {
        self.bits.reset();
        self.table.reset();
    }
}

} // verus!
