//! Two models of a kind: one predicts from the byte that last followed the same
//! history, one from the last two bytes, and from the last three where it has
//! guessed wrong too often in a row.

use crate::model::assembler;
use crate::model::ctable;
use crate::model::ctable::CtxTable;
use crate::model::dense;
use crate::model::{BitModel, ByteAssembler};
use vstd::prelude::*;

verus! {

/// Number of histories that the indirect model tells apart.
pub const INDIRECT_SIZE: usize = 1048576;

/// Address bits of the indirect model's context table.
pub const INDIRECT_CTX_BITS: u32 = 18;

/// Address bits of the other model's context table.
pub const DMC_CTX_BITS: u32 = 20;

/// Factor of the rolling hash over a history.
pub const ROLL: u64 = 131;

/// The rolling hash of a history.
pub open spec fn rolled(s: Seq<u8>) -> u64
    decreases s.len(),
{
    if s.len() == 0 {
        0
    } else {
        ((rolled(s.drop_last()) * ROLL + s.last()) % (dense::WORD as int)) as u64
    }
}

/// The place of the last `order` bytes in the table of followers; a history that
/// is too short has the first place.
pub open spec fn history_slot(recent: Seq<u8>, order: int) -> int {
    if recent.len() < order {
        0
    } else {
        ctable::slot_of(rolled(assembler::last_of(recent, order)), INDIRECT_SIZE as int)
    }
}

/// What an indirect model holds.
#[verifier::ext_equal]
pub struct IndirectState {
    pub order: int,
    pub bits: assembler::Bits,
    pub followers: Seq<u8>,
    pub table: Seq<ctable::Counts>,
}

/// An indirect model that has seen nothing.
pub open spec fn new_indirect(order: int) -> IndirectState {
    IndirectState {
        order,
        bits: assembler::no_bits(
            if order < 4 {
                4
            } else {
                order
            },
        ),
        followers: Seq::new(INDIRECT_SIZE as nat, |i: int| 0u8),
        table: ctable::fresh(assembler::two_to(INDIRECT_CTX_BITS as nat)),
    }
}

/// The context of the next bit: the byte that last followed the same history,
/// the most recent byte and the bit position.
pub open spec fn indirect_context(s: IndirectState) -> u64 {
    let follower = s.followers[history_slot(s.bits.recent, s.order)];
    (follower * 0x1_0000 + assembler::last_byte_of(s.bits.recent) * 8 + s.bits.len) as u64
}

/// The indirect model with one more bit seen: a completed byte becomes the
/// follower of the history in front of it.
pub open spec fn indirect_learned(s: IndirectState, bit: bool) -> IndirectState {
    IndirectState {
        order: s.order,
        bits: assembler::pushed(s.bits, bit),
        followers: match assembler::completed(s.bits, bit) {
            None => s.followers,
            Some(byte) => s.followers.update(history_slot(s.bits.recent, s.order), byte),
        },
        table: ctable::counted(s.table, indirect_context(s), bit),
    }
}

/// A byte that has followed a history is its follower.
pub proof fn law_follower(s: IndirectState, bit: bool)
    requires
        s.followers.len() == INDIRECT_SIZE,
    ensures
        assembler::completed(s.bits, bit) matches Some(byte) ==> indirect_learned(
            s,
            bit,
        ).followers[history_slot(s.bits.recent, s.order)] == byte,
{
}

/// Indirect context model.
pub struct IndirectModel {
    bits: ByteAssembler,
    followers: Vec<u8>,
    table: CtxTable,
    order: usize,
}

impl View for IndirectModel {
    type V = IndirectState;

    closed spec fn view(&self) -> IndirectState {
        IndirectState {
            order: self.order as int,
            bits: self.bits@,
            followers: self.followers@,
            table: self.table@,
        }
    }
}

impl IndirectModel {
    /// A model that looks at histories of `order` bytes.
    pub fn new(order: usize) -> (m: Self)
        ensures
            m.wf(),
            m@ == new_indirect(order as int),
    {
        let cap: usize = if order < 4 {
            4
        } else {
            order
        };
        let m = Self {
            bits: ByteAssembler::new(cap),
            followers: vec![0u8; INDIRECT_SIZE],
            table: CtxTable::new(INDIRECT_CTX_BITS),
            order,
        };
        assert(m@ =~= new_indirect(order as int));
        m
    }

    fn slot(&self) -> (k: usize)
        ensures
            k == history_slot(self@.bits.recent, self@.order),
            k < INDIRECT_SIZE,
    {
        let bytes: &[u8] = self.bits.last(self.order);
        if bytes.len() < self.order {
            return 0;
        }
        let mut h: u64 = 0;
        let mut i: usize = 0;
        while i < bytes.len()
            invariant
                i <= bytes@.len(),
                h == rolled(bytes@.take(i as int)),
            decreases bytes@.len() - i,
        {
            proof {
                let t = bytes@.take(i + 1);
                assert(t.drop_last() =~= bytes@.take(i as int));
                lemma_rolled_step(h, bytes@[i as int]);
            }
            h = h.wrapping_mul(ROLL).wrapping_add(bytes[i] as u64);
            i = i + 1;
        }
        assert(bytes@.take(bytes@.len() as int) =~= bytes@);
        (h.wrapping_mul(ctable::MULTIPLIER) % INDIRECT_SIZE as u64) as usize
    }

    fn key(&self) -> (k: u64)
        requires
            self.wf(),
        ensures
            k == indirect_context(self@),
    {
        let follower: u8 = self.followers[self.slot()];
        let last: u8 = self.bits.last_byte();
        follower as u64 * 0x1_0000 + last as u64 * 8 + self.bits.nbits() as u64
    }
}

proof fn lemma_rolled_step(h: u64, b: u8)
    ensures
        ((h * ROLL) % (dense::WORD as int) + b) % (dense::WORD as int) == (h * ROLL + b) % (
        dense::WORD as int),
{
    let m = dense::WORD as int;
    vstd::arithmetic::div_mod::lemma_add_mod_noop(h * ROLL, b as int, m);
    vstd::arithmetic::div_mod::lemma_small_mod(b as nat, m as nat);
}

impl BitModel for IndirectModel {
    closed spec fn wf(&self) -> bool {
        &&& self.bits.wf()
        &&& self.bits@.kept == (if self.order < 4 {
            4
        } else {
            self.order as int
        })
        &&& self.followers@.len() == INDIRECT_SIZE
        &&& self.table.wf()
        &&& self.table@.len() == assembler::two_to(INDIRECT_CTX_BITS as nat)
    }

    fn predict(&self) -> (p: u16)
        ensures
            p == ctable::prob_of(ctable::under(self@.table, indirect_context(self@))),
    {
        let c: [u32; 2] = self.table.get(self.key());
        ctable::prob(c[0], c[1])
    }

    fn update(&mut self, bit: bool)
        ensures
            final(self)@ == indirect_learned(old(self)@, bit),
    {
        let k: u64 = self.key();
        let h: usize = self.slot();
        self.table.update(k, bit);
        match self.bits.push_bit(bit) {
            Some(byte) => {
                self.followers.set(h, byte);
            },
            None => {},
        }
        assert(self@ =~= indirect_learned(old(self)@, bit));
    }

    fn reset(&mut self)
        ensures
            final(self)@ == new_indirect(old(self)@.order),
    {
        self.bits.reset();
        self.followers = vec![0u8; INDIRECT_SIZE];
        self.table.reset();
        assert(self@ =~= new_indirect(old(self)@.order));
    }
}

impl Default for IndirectModel {
    fn default() -> (m: Self)
        ensures
            m.wf(),
            m@ == new_indirect(2),
    {
        Self::new(2)
    }
}

/// What the other model holds.
#[verifier::ext_equal]
pub struct DmcState {
    pub threshold: int,
    pub bits: assembler::Bits,
    pub table: Seq<ctable::Counts>,
    pub wrong: int,
}

/// A model that has seen nothing.
pub open spec fn new_dmc(threshold: int) -> DmcState {
    DmcState {
        threshold,
        bits: assembler::no_bits(8),
        table: ctable::fresh(assembler::two_to(DMC_CTX_BITS as nat)),
        wrong: 0,
    }
}

/// The byte in front of the last two, or 0.
pub open spec fn third_byte_of(s: Seq<u8>) -> u8 {
    if s.len() >= 3 {
        s[s.len() - 3]
    } else {
        0
    }
}

/// The context of the next bit: the last two bytes and the bit position. Where the
/// run of wrong guesses exceeds the threshold it is wider by one byte, which stands
/// low, so that it tells buckets apart; a mark keeps wide contexts from the others.
pub open spec fn dmc_context(s: DmcState) -> u64 {
    let before = assembler::prev_byte_of(s.bits.recent);
    let last = assembler::last_byte_of(s.bits.recent);
    if s.wrong > s.threshold {
        (0x1_0000_0000 + before * 0x8_0000 + third_byte_of(s.bits.recent) * 0x800 + last * 8
            + s.bits.len) as u64
    } else {
        (before * 0x1_0000 + last * 8 + s.bits.len) as u64
    }
}

/// Beyond the threshold a context is a wider one: it is none of those of two bytes,
/// and the byte in front of the last two tells it from others.
pub proof fn law_wider_context(s: DmcState, t: DmcState)
    requires
        0 <= s.bits.len < 8,
        0 <= t.bits.len < 8,
        s.wrong > s.threshold,
    ensures
        t.wrong <= t.threshold ==> dmc_context(s) != dmc_context(t),
        t.wrong > t.threshold && third_byte_of(s.bits.recent) != third_byte_of(t.bits.recent)
            ==> dmc_context(s) != dmc_context(t),
{
    if t.wrong > t.threshold && dmc_context(s) == dmc_context(t) {
        let q = assembler::prev_byte_of(s.bits.recent) * 0x100 + third_byte_of(s.bits.recent);
        let p = assembler::prev_byte_of(t.bits.recent) * 0x100 + third_byte_of(t.bits.recent);
        let low = assembler::last_byte_of(s.bits.recent) * 8 + s.bits.len;
        let end = assembler::last_byte_of(t.bits.recent) * 8 + t.bits.len;
        assert(dmc_context(s) == 0x1_0000_0000 + q * 0x800 + low);
        assert(dmc_context(t) == 0x1_0000_0000 + p * 0x800 + end);
        dense::lemma_digits(q, low, p, end, 0x800);
        dense::lemma_digits(
            assembler::prev_byte_of(s.bits.recent) as int,
            third_byte_of(s.bits.recent) as int,
            assembler::prev_byte_of(t.bits.recent) as int,
            third_byte_of(t.bits.recent) as int,
            0x100,
        );
    }
}

/// The probability of a one.
pub open spec fn dmc_predicted(s: DmcState) -> u16 {
    ctable::prob_of(ctable::under(s.table, dmc_context(s)))
}

/// The model with one more bit seen; the run of wrong guesses ends at a right
/// one and stays at its highest value.
pub open spec fn dmc_learned(s: DmcState, bit: bool) -> DmcState {
    DmcState {
        threshold: s.threshold,
        bits: assembler::pushed(s.bits, bit),
        table: ctable::counted(s.table, dmc_context(s), bit),
        wrong: if (dmc_predicted(s) > 2048) == bit {
            0
        } else if s.wrong < usize::MAX {
            s.wrong + 1
        } else {
            s.wrong
        },
    }
}

/// Model of the last two bytes that takes in a third one after too many wrong
/// guesses in a row.
pub struct DmcModel {
    bits: ByteAssembler,
    table: CtxTable,
    wrong_streak: usize,
    threshold: usize,
}

impl View for DmcModel {
    type V = DmcState;

    closed spec fn view(&self) -> DmcState {
        DmcState {
            threshold: self.threshold as int,
            bits: self.bits@,
            table: self.table@,
            wrong: self.wrong_streak as int,
        }
    }
}

impl DmcModel {
    /// A model with the given bound on wrong guesses in a row.
    pub fn new(threshold: usize) -> (m: Self)
        ensures
            m.wf(),
            m@ == new_dmc(threshold as int),
    {
        Self {
            bits: ByteAssembler::new(8),
            table: CtxTable::new(DMC_CTX_BITS),
            wrong_streak: 0,
            threshold,
        }
    }

    /// The number of wrong guesses in a row.
    pub fn wrong_streak(&self) -> (n: usize)
        ensures
            n == self@.wrong,
    {
        self.wrong_streak
    }

    /// The bound on wrong guesses in a row.
    pub fn threshold(&self) -> (n: usize)
        ensures
            n == self@.threshold,
    {
        self.threshold
    }

    fn key(&self) -> (k: u64)
        requires
            self.wf(),
        ensures
            k == dmc_context(self@),
    {
        let before: u8 = self.bits.prev_byte();
        let last: u8 = self.bits.last_byte();
        if self.wrong_streak > self.threshold {
            let recent: &[u8] = self.bits.last(3);
            let third: u8 = if recent.len() >= 3 {
                recent[0]
            } else {
                0
            };
            0x1_0000_0000 + before as u64 * 0x8_0000 + third as u64 * 0x800 + last as u64 * 8
                + self.bits.nbits() as u64
        } else {
            before as u64 * 0x1_0000 + last as u64 * 8 + self.bits.nbits() as u64
        }
    }
}

impl BitModel for DmcModel {
    closed spec fn wf(&self) -> bool {
        &&& self.bits.wf()
        &&& self.bits@.kept == 8
        &&& self.table.wf()
        &&& self.table@.len() == assembler::two_to(DMC_CTX_BITS as nat)
    }

    fn predict(&self) -> (p: u16)
        ensures
            p == dmc_predicted(self@),
    {
        let c: [u32; 2] = self.table.get(self.key());
        ctable::prob(c[0], c[1])
    }

    fn update(&mut self, bit: bool)
        ensures
            final(self)@ == dmc_learned(old(self)@, bit),
    {
        let k: u64 = self.key();
        let guess: bool = self.predict() > 2048;
        if guess == bit {
            self.wrong_streak = 0;
        } else {
            self.wrong_streak = self.wrong_streak.saturating_add(1);
        }
        self.bits.push_bit(bit);
        self.table.update(k, bit);
    }

    fn reset(&mut self)
        ensures
            final(self)@ == new_dmc(old(self)@.threshold),
    {
        self.bits.reset();
        self.table.reset();
        self.wrong_streak = 0;
    }
}

impl Default for DmcModel {
    fn default() -> (m: Self)
        ensures
            m.wf(),
            m@ == new_dmc(5),
    {
        Self::new(5)
    }
}

} // verus!
