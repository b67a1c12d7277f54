//! Indirect context model: a small state machine of recent bits per context.
//!
//! A state stands for a pair of counts. The first fourteen states count up to
//! four bits, the next six stand for five bits, and the last two, both balanced,
//! are where every history ends.

use crate::model::assembler;
use crate::model::ctable;
use crate::model::dense;
use crate::model::{BitModel, ByteAssembler};
use vstd::prelude::*;

verus! {

/// Number of states.
pub const NUM_STATES: usize = 22;

/// How many recent bytes are kept.
pub const KEPT: usize = 4;

/// The counts of zeros and ones that a state stands for.
pub open spec fn state_counts(s: int) -> (int, int) {
    if s < 2 {
        (s, 1 - s)
    } else if s < 5 {
        (s - 2, 4 - s)
    } else if s < 9 {
        (s - 5, 8 - s)
    } else if s < 14 {
        (s - 9, 13 - s)
    } else if s < 20 {
        (s - 14, 19 - s)
    } else if s == 20 {
        (3, 3)
    } else {
        (4, 4)
    }
}

/// The probability of a one in a state, before it is kept off zero.
pub open spec fn state_prob(s: int) -> u16 {
    let (zeros, ones) = state_counts(s);
    ((ones * ctable::MAX_PROB) / (zeros + ones)) as u16
}

/// The state that follows on a bit: up to four bits are counted one by one; with
/// five a history turns balanced, as its last bit says, but for the one of three
/// zeros and two ones.
pub open spec fn state_after(s: int, bit: bool) -> int {
    let skip: int = if bit {
        0
    } else {
        1
    };
    if s < 2 {
        s + 2 + skip
    } else if s < 5 {
        s + 3 + skip
    } else if s < 9 {
        s + 4 + skip
    } else if s < 14 {
        s + 5 + skip
    } else if s == 17 || !bit {
        20
    } else {
        21
    }
}

/// A step counts the bit for as long as the histories are counted one by one.
pub proof fn law_state_counts(s: int, bit: bool)
    requires
        0 <= s < 14,
    ensures
        state_counts(state_after(s, bit)) == (
            state_counts(s).0 + if bit {
                0int
            } else {
                1
            },
            state_counts(s).1 + if bit {
                1int
            } else {
                0
            },
        ),
{
}

/// Every state leads to a state.
pub proof fn law_states_closed(s: int, bit: bool)
    requires
        0 <= s < NUM_STATES,
    ensures
        0 <= state_after(s, bit) < NUM_STATES,
        0 < state_counts(s).0 + state_counts(s).1,
        state_prob(s) <= ctable::MAX_PROB,
{
    let (zeros, ones) = state_counts(s);
    assert(0 <= (ones * ctable::MAX_PROB) / (zeros + ones) <= ctable::MAX_PROB)
        by (nonlinear_arith)
        requires
            zeros + ones > 0,
            zeros >= 0,
            ones >= 0,
            ctable::MAX_PROB == 4095,
    ;
}

/// The probabilities and the successors of all states.
pub struct StateTable {
    pub probs: Vec<u16>,
    pub next_state: Vec<[u8; 2]>,
}

impl StateTable {
    /// The tables hold what the states stand for.
    pub open spec fn wf(&self) -> bool {
        &&& self.probs@.len() == NUM_STATES
        &&& self.next_state@.len() == NUM_STATES
        &&& forall|s: int| 0 <= s < NUM_STATES ==> #[trigger] self.probs@[s] == state_prob(s)
        &&& forall|s: int|
            0 <= s < NUM_STATES ==> #[trigger] self.next_state@[s]@[0] == state_after(s, false)
        &&& forall|s: int|
            0 <= s < NUM_STATES ==> #[trigger] self.next_state@[s]@[1] == state_after(s, true)
    }

    /// Builds the tables.
    pub fn new() -> (t: Self)
        ensures
            t.wf(),
    {
        let mut probs: Vec<u16> = Vec::new();
        let mut next_state: Vec<[u8; 2]> = Vec::new();
        let mut s: u8 = 0;
        while s < 22
            invariant
                s <= 22,
                probs@.len() == s,
                next_state@.len() == s,
                forall|j: int| 0 <= j < s ==> #[trigger] probs@[j] == state_prob(j),
                forall|j: int|
                    0 <= j < s ==> #[trigger] next_state@[j]@[0] == state_after(j, false),
                forall|j: int|
                    0 <= j < s ==> #[trigger] next_state@[j]@[1] == state_after(j, true),
            decreases 22 - s,
        {
            let (zeros, ones): (u64, u64) = if s < 2 {
                (s as u64, (1 - s) as u64)
            } else if s < 5 {
                ((s - 2) as u64, (4 - s) as u64)
            } else if s < 9 {
                ((s - 5) as u64, (8 - s) as u64)
            } else if s < 14 {
                ((s - 9) as u64, (13 - s) as u64)
            } else if s < 20 {
                ((s - 14) as u64, (19 - s) as u64)
            } else if s == 20 {
                (3, 3)
            } else {
                (4, 4)
            };
            let one: u8 = if s < 2 {
                s + 2
            } else if s < 5 {
                s + 3
            } else if s < 9 {
                s + 4
            } else if s < 14 {
                s + 5
            } else if s == 17 {
                20
            } else {
                21
            };
            let zero: u8 = if s < 14 {
                one + 1
            } else {
                20
            };
            proof {
                law_states_closed(s as int, true);
            }
            probs.push(((ones * ctable::MAX_PROB as u64) / (zeros + ones)) as u16);
            next_state.push([zero, one]);
            s = s + 1;
        }
        Self { probs, next_state }
    }
}

/// What an indirect context model holds: the bits, and the state of each context.
#[verifier::ext_equal]
pub struct IcmState {
    pub bits: assembler::Bits,
    pub states: Seq<u8>,
}

/// A model with every context in the first state.
pub open spec fn new_state(kept: int, n: int) -> IcmState {
    IcmState { bits: assembler::no_bits(kept), states: Seq::new(n as nat, |i: int| 0u8) }
}

/// The place of the next bit's context: the number of bytes, the bit position
/// and the last two bytes.
pub open spec fn slot(s: IcmState) -> int {
    let r = s.bits.recent;
    ((r.len() * 0x100_0000 + s.bits.len * 0x1_0000 + assembler::last_byte_of(r) * 0x100
        + assembler::prev_byte_of(r)) % (dense::WORD as int)) % (s.states.len() as int)
}

/// The probability of a one.
pub open spec fn predicted(s: IcmState) -> u16 {
    let p = state_prob(s.states[slot(s)] as int);
    if p < ctable::MIN_PROB {
        ctable::MIN_PROB
    } else {
        p
    }
}

/// The model with one more bit seen.
pub open spec fn learned(s: IcmState, bit: bool) -> IcmState {
    IcmState {
        bits: assembler::pushed(s.bits, bit),
        states: s.states.update(slot(s), state_after(s.states[slot(s)] as int, bit) as u8),
    }
}

/// Indirect context model.
pub struct IcmModel {
    bits: ByteAssembler,
    states: Vec<u8>,
    table: StateTable,
}

impl View for IcmModel {
    type V = IcmState;

    closed spec fn view(&self) -> IcmState {
        IcmState { bits: self.bits@, states: self.states@ }
    }
}

impl IcmModel {
    /// A model of `2^ctx_bits` contexts.
    pub fn new(ctx_bits: u32) -> (m: Self)
        requires
            ctx_bits < usize::BITS,
        ensures
            m.wf(),
            m@ == new_state(KEPT as int, assembler::two_to(ctx_bits as nat)),
            m@.bits.kept == 4,
    {
        Self::with_asm(ByteAssembler::new(KEPT), ctx_bits)
    }

    /// A model of `2^ctx_bits` contexts that goes on from the given bits.
    pub fn with_asm(bits: ByteAssembler, ctx_bits: u32) -> (m: Self)
        requires
            bits.wf(),
            bits@.kept > 0,
            ctx_bits < usize::BITS,
        ensures
            m.wf(),
            m@ == (IcmState {
                bits: bits@,
                ..new_state(KEPT as int, assembler::two_to(ctx_bits as nat))
            }),
    {
        let n: usize = assembler::power_of_two(ctx_bits);
        let m = Self { bits, states: vec![0u8; n], table: StateTable::new() };
        assert(m@.states =~= new_state(KEPT as int, assembler::two_to(ctx_bits as nat)).states);
        m
    }

    fn slot(&self) -> (k: usize)
        requires
            self.wf(),
        ensures
            k == slot(self@),
            k < self@.states.len(),
    {
        let n: u64 = self.bits.bytes_len();
        let rest: u64 = self.bits.nbits() as u64 * 0x1_0000 + self.bits.last_byte() as u64 * 0x100
            + self.bits.prev_byte() as u64;
        proof {
            vstd::arithmetic::div_mod::lemma_add_mod_noop(
                n * 0x100_0000,
                rest as int,
                dense::WORD as int,
            );
            vstd::arithmetic::div_mod::lemma_small_mod(rest as nat, dense::WORD as nat);
        }
        let key: u64 = n.wrapping_mul(0x100_0000).wrapping_add(rest);
        (key % self.states.len() as u64) as usize
    }
}

impl BitModel for IcmModel {
    closed spec fn wf(&self) -> bool {
        &&& self.bits.wf()
        &&& self.bits@.kept > 0
        &&& self.states@.len() > 0
        &&& self.table.wf()
        &&& forall|i: int| 0 <= i < self.states@.len() ==> #[trigger] self.states@[i] < NUM_STATES
    }

    fn predict(&self) -> (p: u16)
        ensures
            p == predicted(self@),
    {
        let s: u8 = self.states[self.slot()];
        proof {
            law_states_closed(s as int, true);
        }
        let p: u16 = self.table.probs[s as usize];
        if p < ctable::MIN_PROB {
            ctable::MIN_PROB
        } else {
            p
        }
    }

    fn update(&mut self, bit: bool)
        ensures
            final(self)@ == learned(old(self)@, bit),
    {
        let k: usize = self.slot();
        let s: u8 = self.states[k];
        proof {
            law_states_closed(s as int, bit);
        }
        let pair: [u8; 2] = self.table.next_state[s as usize];
        assert(self.table.next_state@[s as int]@[0] == state_after(s as int, false));
        assert(self.table.next_state@[s as int]@[1] == state_after(s as int, true));
        let next: u8 = if bit {
            pair[1]
        } else {
            pair[0]
        };
        self.states.set(k, next);
        self.bits.push_bit(bit);
    }

    fn reset(&mut self)
        ensures
            final(self)@ == new_state(old(self)@.bits.kept, old(self)@.states.len() as int),
    {
        self.bits.reset();
        let n: usize = self.states.len();
        self.states = vec![0u8; n];
        assert(self@ =~= new_state(old(self)@.bits.kept, old(self)@.states.len() as int));
    }
}

impl Default for IcmModel {
    fn default() -> (m: Self)
        ensures
            m.wf(),
            m@ == new_state(KEPT as int, assembler::two_to(21)),
            m@.bits.kept == 4,
    {
        Self::new(21)
    }
}

/// A state predicts the share of ones among the bits that it stands for, of 4095, and
/// at least one part.
pub proof fn law_state_predicts_share(s: int)
    requires
        0 <= s < 22,
    ensures
        ({
            let (zeros, ones) = state_counts(s);
            let p = state_prob(s);
            &&& zeros >= 0 && ones >= 0 && zeros + ones > 0
            &&& p * (zeros + ones) <= 4095 * ones < (p + 1) * (zeros + ones)
        }),
{
    let (zeros, ones) = state_counts(s);
    let n = zeros + ones;
    let a = ones * 4095;
    law_states_closed(s, true);
    assert(0 <= a / n <= 4095) by (nonlinear_arith)
        requires
            n > 0,
            0 <= a <= 4095 * n,
    ;
    assert((a / n) * n <= a && a < (a / n + 1) * n) by (nonlinear_arith)
        requires
            n > 0,
            0 <= a,
    ;
}

/// Behind five bits or more a history turns to one of the two balanced ones: to that of
/// three of each where the bit is a zero, or behind three zeros and two ones, else to
/// that of four of each.
pub proof fn law_long_histories_balance(s: int, bit: bool)
    requires
        14 <= s < 22,
    ensures
        state_counts(state_after(s, bit)) == if !bit || state_counts(s) == (3int, 2int) {
            (3int, 3int)
        } else {
            (4int, 4int)
        },
{
}

/// Among a multiple of 65536 contexts, the last two bytes tell contexts apart.
pub proof fn law_last_bytes_in_slot(s: IcmState, t: IcmState, m: int)
    requires
        m > 0,
        s.states.len() == 65536 * m,
        t.states.len() == 65536 * m,
        2 <= s.bits.recent.len() <= 8,
        2 <= t.bits.recent.len() <= 8,
        0 <= s.bits.len < 8,
        0 <= t.bits.len < 8,
        slot(s) == slot(t),
    ensures
        s.bits.recent.last() == t.bits.recent.last(),
        s.bits.recent[s.bits.recent.len() - 2] == t.bits.recent[t.bits.recent.len() - 2],
{
    lemma_slot_low(s, m);
    lemma_slot_low(t, m);
}

proof fn lemma_slot_low(s: IcmState, m: int)
    requires
        m > 0,
        s.states.len() == 65536 * m,
        2 <= s.bits.recent.len() <= 8,
        0 <= s.bits.len < 8,
    ensures
        slot(s) % 65536 == s.bits.recent.last() * 0x100 + s.bits.recent[s.bits.recent.len() - 2],
{
    let r = s.bits.recent;
    let low = r.last() * 0x100 + r[r.len() - 2];
    let x = r.len() * 0x100_0000 + s.bits.len * 0x1_0000 + low;
    assert(x % (dense::WORD as int) == x);
    vstd::arithmetic::div_mod::lemma_mod_mod(x, 65536, m);
    assert(x % 65536 == low);
}

} // verus!
