//! Model of the orders 0 to 8 with a learned chance of escape, and three sparse
//! contexts beside them.
//!
//! The orders are consulted from the highest one down, until one has seen both
//! bit values; a context that was not visited yet is passed over. A small state per
//! order and context follows how often it was passed over and how often it
//! answered; it corrects the chance of escape. The caller blends what was counted.

use crate::model::assembler;
use crate::model::ctable;
use crate::model::ctable::CtxTable;
use crate::model::dense;
use crate::model::ppm;
use crate::model::ByteAssembler;
use vstd::prelude::*;

verus! {

/// Address bits of each context table.
pub const CTX_BITS: u32 = 22;

/// The highest order.
pub const MAX_ORDER: usize = 8;

/// Number of orders.
pub const N_ORDERS: usize = 9;

/// Number of sparse contexts.
pub const N_SPARSE: usize = 3;

/// The highest escape state.
pub const SEE_MAX: u8 = 15;

/// Number of escape states per order.
pub const SEE_SLOTS: usize = 65536;

/// The offsets of a sparse context's bytes, 0 being the most recent byte.
pub open spec fn pattern(i: int) -> Seq<int> {
    if i == 0 {
        seq![0, 1, 3, 4]
    } else if i == 1 {
        seq![0, 1, 2, 5]
    } else {
        seq![0, 1, 2, 3]
    }
}

/// The bytes at the first `k` offsets of a pattern as a number, as far as there
/// are so many bytes.
pub open spec fn picked(recent: Seq<u8>, offsets: Seq<int>, k: int) -> int
    decreases k,
{
    if k <= 0 {
        0
    } else {
        let rest = picked(recent, offsets, k - 1);
        let offset = offsets[k - 1];
        if offset < recent.len() {
            256 * rest + recent[recent.len() - 1 - offset]
        } else {
            rest
        }
    }
}

/// The key of a sparse context.
pub open spec fn sparse_key(b: assembler::Bits, i: int) -> u64 {
    (8 * picked(b.recent, pattern(i), 4) + b.len) as u64
}

/// The hash of an order's context and the bit position, for its escape state.
pub open spec fn see_hash(ctx: u64, bit_pos: int) -> int {
    (ctable::hash(ctx) + bit_pos) % (dense::WORD as int)
}

/// The place of an order's escape state.
pub open spec fn see_slot(b: assembler::Bits, order: int) -> int {
    order * SEE_SLOTS + see_hash(dense::dense_key(b, order), b.len) % (SEE_SLOTS as int)
}

/// An escape state after an escape, or after none.
pub open spec fn see_after(state: u8, escaped: bool) -> u8 {
    if escaped {
        if state < SEE_MAX {
            (state + 1) as u8
        } else {
            SEE_MAX
        }
    } else if state > 0 {
        (state - 1) as u8
    } else {
        0
    }
}

/// What an order counted under the current context, and its escape state.
pub struct SeeStep {
    pub order: usize,
    pub zeros: u32,
    pub ones: u32,
    pub state: u8,
}

/// What the model holds.
#[verifier::ext_equal]
pub struct PpmdState {
    pub bits: assembler::Bits,
    pub orders: Seq<Seq<ctable::Counts>>,
    pub sparse: Seq<Seq<ctable::Counts>>,
    pub see: Seq<u8>,
    pub used: int,
    pub escaped: Seq<usize>,
    pub answered: Option<usize>,
}

/// A model that has seen nothing.
pub open spec fn new_state() -> PpmdState {
    PpmdState {
        bits: assembler::no_bits(MAX_ORDER as int),
        orders: ppm::fresh_tables(N_ORDERS as int, CTX_BITS),
        sparse: ppm::fresh_tables(N_SPARSE as int, CTX_BITS),
        see: Seq::new((N_ORDERS * SEE_SLOTS) as nat, |i: int| 0u8),
        used: 0,
        escaped: Seq::empty(),
        answered: None,
    }
}

/// What is consulted from an order down, the orders that are passed over, and the
/// one that answers.
#[verifier::ext_equal]
pub struct Walk {
    pub steps: Seq<SeeStep>,
    pub escaped: Seq<usize>,
    pub answered: Option<usize>,
}

/// What an order shows.
pub open spec fn step_at(s: PpmdState, order: int) -> SeeStep {
    let c = ppm::counts_at(s.bits, s.orders, order);
    SeeStep {
        order: order as usize,
        zeros: c.zeros,
        ones: c.ones,
        state: s.see[see_slot(s.bits, order)],
    }
}

/// The walk from an order down, until an order has seen both bit values.
pub open spec fn walk(s: PpmdState, order: int) -> Walk
    decreases order + 1,
{
    if order < 0 {
        Walk { steps: Seq::empty(), escaped: Seq::empty(), answered: None }
    } else {
        let c = ppm::counts_at(s.bits, s.orders, order);
        let rest = walk(s, order - 1);
        if ppm::unvisited(c) {
            Walk { escaped: seq![order as usize] + rest.escaped, ..rest }
        } else if ppm::seen_both(c) {
            Walk {
                steps: seq![step_at(s, order)],
                escaped: Seq::empty(),
                answered: Some(order as usize),
            }
        } else {
            Walk {
                steps: seq![step_at(s, order)] + rest.steps,
                escaped: seq![order as usize] + rest.escaped,
                answered: rest.answered,
            }
        }
    }
}

/// Every order from the highest one down to the one that answers is passed over
/// or answers, and no other.
pub proof fn law_walk_covers(s: PpmdState, order: int)
    requires
        0 <= order <= MAX_ORDER,
    ensures
        ({
            let w = walk(s, order);
            let low = if w.answered is Some {
                w.answered->Some_0 + 1
            } else {
                0
            };
            &&& low <= order + 1
            &&& w.escaped =~= Seq::new((order + 1 - low) as nat, |i: int| (order - i) as usize)
        }),
    decreases order,
{
    if order > 0 {
        law_walk_covers(s, order - 1);
    } else {
        assert(walk(s, -1).escaped =~= Seq::<usize>::empty());
    }
}

/// A walk depends on the bits, the tables and the escape states alone.
pub proof fn lemma_walk_of(s: PpmdState, t: PpmdState, order: int)
    requires
        s.bits == t.bits,
        s.orders == t.orders,
        s.see == t.see,
    ensures
        walk(s, order) == walk(t, order),
    decreases order + 1,
{
    if order >= 0 {
        lemma_walk_of(s, t, order - 1);
    }
}

/// The order consulted last; the highest order where none was.
pub open spec fn last_order(steps: Seq<SeeStep>) -> int {
    if steps.len() == 0 {
        MAX_ORDER as int
    } else {
        steps.last().order as int
    }
}

/// The escape states after the orders in `escaped` were passed over.
pub open spec fn passed_over(see: Seq<u8>, b: assembler::Bits, escaped: Seq<usize>) -> Seq<u8>
    decreases escaped.len(),
{
    if escaped.len() == 0 {
        see
    } else {
        let before = passed_over(see, b, escaped.drop_last());
        let k = see_slot(b, escaped.last() as int);
        before.update(k, see_after(before[k], true))
    }
}

/// The escape states after the order that answered, if one did, did not escape.
pub open spec fn confirmed(see: Seq<u8>, b: assembler::Bits, answered: Option<usize>) -> Seq<u8> {
    match answered {
        None => see,
        Some(order) => {
            let k = see_slot(b, order as int);
            see.update(k, see_after(see[k], false))
        },
    }
}

/// The sparse tables with a bit counted under the context of each.
pub open spec fn sparse_counted(
    tables: Seq<Seq<ctable::Counts>>,
    b: assembler::Bits,
    bit: bool,
) -> Seq<Seq<ctable::Counts>> {
    Seq::new(tables.len(), |i: int| ctable::counted(tables[i], sparse_key(b, i), bit))
}

/// The model with one more bit seen: counted under order 0, under the order
/// consulted last and under the sparse contexts. The orders that were passed over
/// raise their escape state, the one that answered lowers its own.
pub open spec fn learned(s: PpmdState, bit: bool) -> PpmdState {
    PpmdState {
        bits: assembler::pushed(s.bits, bit),
        orders: ppm::counted_in_two(s.bits, s.orders, s.used, bit),
        sparse: sparse_counted(s.sparse, s.bits, bit),
        see: confirmed(passed_over(s.see, s.bits, s.escaped), s.bits, s.answered),
        used: s.used,
        escaped: s.escaped,
        answered: s.answered,
    }
}

/// What was consulted: the orders, the highest one first, and what each sparse
/// context counted.
pub struct PpmdWalk {
    pub steps: Vec<SeeStep>,
    pub sparse: Vec<ctable::Counts>,
}

/// Secondary escape estimation: a state from 0, never escaped, to 15, always
/// escaped, per order and context.
pub struct SeeTable {
    states: Vec<u8>,
}

impl View for SeeTable {
    type V = Seq<u8>;

    closed spec fn view(&self) -> Seq<u8> {
        self.states@
    }
}

impl SeeTable {
    /// Every order has its states.
    pub open spec fn wf(&self) -> bool {
        self@.len() == N_ORDERS * SEE_SLOTS
    }

    /// A table in which nothing has escaped.
    pub fn new() -> (t: Self)
        ensures
            t.wf(),
            t@ == new_state().see,
    {
        let t = Self { states: vec![0u8; N_ORDERS * SEE_SLOTS] };
        assert(t@ =~= new_state().see);
        t
    }

    fn slot(order: usize, hash: u64) -> (k: usize)
        requires
            order < N_ORDERS,
        ensures
            k == order * SEE_SLOTS + hash as int % (SEE_SLOTS as int),
            k < N_ORDERS * SEE_SLOTS,
    {
        order * SEE_SLOTS + (hash % SEE_SLOTS as u64) as usize
    }

    /// The state of an order and a context hash.
    pub fn get(&self, order: usize, hash: u64) -> (s: u8)
        requires
            self.wf(),
            order < N_ORDERS,
        ensures
            s == self@[order * SEE_SLOTS + hash as int % (SEE_SLOTS as int)],
    {
        self.states[Self::slot(order, hash)]
    }

    /// Moves the state of an order and a context hash on.
    pub fn update(&mut self, order: usize, hash: u64, escaped: bool)
        requires
            old(self).wf(),
            order < N_ORDERS,
        ensures
            final(self).wf(),
            final(self)@ == old(self)@.update(
                order * SEE_SLOTS + hash as int % (SEE_SLOTS as int),
                see_after(
                    old(self)@[order * SEE_SLOTS + hash as int % (SEE_SLOTS as int)],
                    escaped,
                ),
            ),
    {
        let k: usize = Self::slot(order, hash);
        let s: u8 = self.states[k];
        let next: u8 = if escaped {
            if s < SEE_MAX {
                s + 1
            } else {
                SEE_MAX
            }
        } else if s > 0 {
            s - 1
        } else {
            0
        };
        self.states.set(k, next);
    }

    /// Whether anything has escaped.
    pub fn any_escape(&self) -> (r: bool)
        ensures
            r == exists|i: int| 0 <= i < self@.len() && #[trigger] self@[i] > 0,
    {
        let mut i: usize = 0;
        while i < self.states.len()
            invariant
                i <= self.states@.len(),
                forall|j: int| 0 <= j < i ==> #[trigger] self@[j] == 0,
            decreases self.states@.len() - i,
        {
            if self.states[i] > 0 {
                assert(self@[i as int] > 0);
                return true;
            }
            i = i + 1;
        }
        false
    }
}

/// An escape state never leaves its range.
pub proof fn law_see_range(state: u8, escaped: bool)
    requires
        state <= SEE_MAX,
    ensures
        see_after(state, escaped) <= SEE_MAX,
{
}

/// Model of the orders 0 to 8 with learned escapes.
pub struct PpmdSsm {
    orders: Vec<CtxTable>,
    sparse: Vec<CtxTable>,
    see: SeeTable,
    bits: ByteAssembler,
    last_used: usize,
    last_escaped: Vec<usize>,
    last_answered: Option<usize>,
}

impl View for PpmdSsm {
    type V = PpmdState;

    closed spec fn view(&self) -> PpmdState {
        PpmdState {
            bits: self.bits@,
            orders: ppm::table_views(self.orders@),
            sparse: ppm::table_views(self.sparse@),
            see: self.see@,
            used: self.last_used as int,
            escaped: self.last_escaped@,
            answered: self.last_answered,
        }
    }
}

/// The byte at an offset behind what was picked before.
fn pick(recent: &[u8], offset: usize, rest: u64) -> (k: u64)
    requires
        rest < 0x100_0000,
    ensures
        k == if offset < recent@.len() {
            256 * rest + recent@[recent@.len() - 1 - offset]
        } else {
            rest as int
        },
{
    if offset < recent.len() {
        256 * rest + recent[recent.len() - 1 - offset] as u64
    } else {
        rest
    }
}

impl PpmdSsm {
    /// The tables have their sizes, and what was consulted last are orders.
    pub closed spec fn wf(&self) -> bool {
        &&& self.orders@.len() == N_ORDERS
        &&& ppm::tables_wf(self.orders@, CTX_BITS)
        &&& self.sparse@.len() == N_SPARSE
        &&& ppm::tables_wf(self.sparse@, CTX_BITS)
        &&& self.see.wf()
        &&& self.bits.wf()
        &&& self.bits@.kept == MAX_ORDER
        &&& self.last_used <= MAX_ORDER
        &&& forall|i: int|
            0 <= i < self.last_escaped@.len() ==> #[trigger] self.last_escaped@[i] <= MAX_ORDER
        &&& self.last_answered matches Some(k) ==> k <= MAX_ORDER
    }

    /// A model that has seen nothing.
    pub fn new() -> (m: Self)
        ensures
            m.wf(),
            m@ == new_state(),
    {
        let m = Self {
            orders: ppm::make_tables(N_ORDERS, CTX_BITS),
            sparse: ppm::make_tables(N_SPARSE, CTX_BITS),
            see: SeeTable::new(),
            bits: ByteAssembler::new(MAX_ORDER),
            last_used: 0,
            last_escaped: Vec::new(),
            last_answered: None,
        };
        assert(m@ =~= new_state());
        m
    }

    /// The escape states.
    pub fn see(&self) -> (t: &SeeTable)
        ensures
            t@ == self@.see,
    {
        &self.see
    }

    fn sparse_ctx(&self, i: usize) -> (k: u64)
        requires
            self.wf(),
            i < N_SPARSE,
        ensures
            k == sparse_key(self@.bits, i as int),
    {
        let recent: &[u8] = self.bits.last(MAX_ORDER);
        let (third, fourth): (usize, usize) = if i == 0 {
            (3, 4)
        } else if i == 1 {
            (2, 5)
        } else {
            (2, 3)
        };
        proof {
            self.bits.lemma_part();
            assert(recent@ =~= self@.bits.recent);
            reveal_with_fuel(picked, 5);
            assert(pattern(i as int) =~= seq![0int, 1, third as int, fourth as int]);
        }
        let k0: u64 = pick(recent, 0, 0);
        let k1: u64 = pick(recent, 1, k0);
        let k2: u64 = pick(recent, third, k1);
        let k3: u64 = pick(recent, fourth, k2);
        8 * k3 + self.bits.nbits() as u64
    }

    fn see_key(&self, order: usize) -> (h: u64)
        requires
            self.wf(),
        ensures
            h == see_hash(dense::dense_key(self@.bits, order as int), self@.bits.len),
    {
        let k: u64 = dense::key(&self.bits, order);
        k.wrapping_mul(ctable::MULTIPLIER).wrapping_add(self.bits.nbits() as u64)
    }

    /// Consults the orders and the sparse contexts.
    pub fn consult(&mut self) -> (w: PpmdWalk)
        requires
            old(self).wf(),
        ensures
            final(self).wf(),
            w.steps@ == walk(old(self)@, MAX_ORDER as int).steps,
            w.sparse@.len() == N_SPARSE,
            forall|i: int|
                0 <= i < N_SPARSE ==> #[trigger] w.sparse@[i] == ctable::under(
                    old(self)@.sparse[i],
                    sparse_key(old(self)@.bits, i),
                ),
            final(self)@ == (PpmdState {
                used: last_order(w.steps@),
                escaped: walk(old(self)@, MAX_ORDER as int).escaped,
                answered: walk(old(self)@, MAX_ORDER as int).answered,
                ..old(self)@
            }),
    {
        let mut steps: Vec<SeeStep> = Vec::new();
        let mut escaped: Vec<usize> = Vec::new();
        let ghost goal = walk(self@, MAX_ORDER as int);
        let mut left: usize = N_ORDERS;
        let mut answered: Option<usize> = None;
        while left > 0 && answered.is_none()
            invariant
                *self == *old(self),
                self.wf(),
                left <= N_ORDERS,
                goal == walk(self@, MAX_ORDER as int),
                answered is Some ==> goal.steps == steps@ && goal.escaped == escaped@
                    && goal.answered == answered,
                answered is None ==> goal.steps == steps@ + walk(self@, left - 1).steps,
                answered is None ==> goal.escaped == escaped@ + walk(self@, left - 1).escaped,
                answered is None ==> goal.answered == walk(self@, left - 1).answered,
                answered matches Some(k) ==> k <= MAX_ORDER,
                steps@.len() > 0 ==> steps@.last().order <= MAX_ORDER,
                forall|i: int| 0 <= i < escaped@.len() ==> #[trigger] escaped@[i] <= MAX_ORDER,
            decreases left,
        {
            let order: usize = left - 1;
            let k: u64 = dense::key(&self.bits, order);
            let c: [u32; 2] = self.orders[order].get(k);
            assert(self@.orders[order as int] == self.orders@[order as int]@);
            let ghost s0 = steps@;
            let ghost e0 = escaped@;
            let ghost rest = walk(self@, order - 1);
            if c[0] == ctable::INIT && c[1] == ctable::INIT {
                escaped.push(order);
                assert(e0 + (seq![order] + rest.escaped) =~= escaped@ + rest.escaped);
            } else {
                let state: u8 = self.see.get(order, self.see_key(order));
                steps.push(SeeStep { order, zeros: c[0], ones: c[1], state });
                assert(steps@.last() == step_at(self@, order as int));
                assert(steps@ =~= s0 + seq![step_at(self@, order as int)]);
                if c[0] > ctable::INIT && c[1] > ctable::INIT {
                    answered = Some(order);
                    assert(e0 + Seq::<usize>::empty() =~= escaped@);
                } else {
                    escaped.push(order);
                    assert(e0 + (seq![order] + rest.escaped) =~= escaped@ + rest.escaped);
                    assert(s0 + (seq![step_at(self@, order as int)] + rest.steps) =~= steps@
                        + rest.steps);
                }
            }
            left = order;
        }
        assert(goal.steps =~= steps@);
        assert(goal.escaped =~= escaped@);
        let mut sparse: Vec<ctable::Counts> = Vec::new();
        let mut i: usize = 0;
        while i < N_SPARSE
            invariant
                *self == *old(self),
                self.wf(),
                i <= N_SPARSE,
                sparse@.len() == i,
                forall|j: int|
                    0 <= j < i ==> #[trigger] sparse@[j] == ctable::under(
                        self@.sparse[j],
                        sparse_key(self@.bits, j),
                    ),
            decreases N_SPARSE - i,
        {
            let c: [u32; 2] = self.sparse[i].get(self.sparse_ctx(i));
            assert(self@.sparse[i as int] == self.sparse@[i as int]@);
            sparse.push(ctable::Counts { zeros: c[0], ones: c[1] });
            i = i + 1;
        }
        let n: usize = steps.len();
        self.last_used = if n == 0 {
            MAX_ORDER
        } else {
            steps[n - 1].order
        };
        self.last_escaped = escaped;
        self.last_answered = answered;
        PpmdWalk { steps, sparse }
    }

    fn count_sparse(&mut self, bit: bool)
        requires
            old(self).wf(),
        ensures
            final(self).wf(),
            final(self)@ == (PpmdState {
                sparse: sparse_counted(old(self)@.sparse, old(self)@.bits, bit),
                ..old(self)@
            }),
    {
        let mut i: usize = 0;
        while i < N_SPARSE
            invariant
                i <= N_SPARSE,
                self.wf(),
                self@ == (PpmdState { sparse: self@.sparse, ..old(self)@ }),
                self@.sparse.len() == N_SPARSE,
                old(self)@.sparse.len() == N_SPARSE,
                forall|j: int|
                    0 <= j < i ==> #[trigger] self@.sparse[j] == ctable::counted(
                        old(self)@.sparse[j],
                        sparse_key(old(self)@.bits, j),
                        bit,
                    ),
                forall|j: int|
                    i <= j < N_SPARSE ==> #[trigger] self@.sparse[j] == old(self)@.sparse[j],
            decreases N_SPARSE - i,
        {
            let k: u64 = self.sparse_ctx(i);
            ppm::count_in(&mut self.sparse, i, k, bit, Ghost(CTX_BITS));
            i = i + 1;
        }
        assert(self@.sparse =~= sparse_counted(old(self)@.sparse, old(self)@.bits, bit));
    }

    fn count_escapes(&mut self)
        requires
            old(self).wf(),
        ensures
            final(self).wf(),
            final(self)@ == (PpmdState {
                see: confirmed(
                    passed_over(old(self)@.see, old(self)@.bits, old(self)@.escaped),
                    old(self)@.bits,
                    old(self)@.answered,
                ),
                ..old(self)@
            }),
    {
        let mut i: usize = 0;
        while i < self.last_escaped.len()
            invariant
                i <= self.last_escaped@.len(),
                self.wf(),
                self@ == (PpmdState { see: self@.see, ..old(self)@ }),
                self@.see == passed_over(
                    old(self)@.see,
                    old(self)@.bits,
                    old(self)@.escaped.take(i as int),
                ),
            decreases self.last_escaped@.len() - i,
        {
            let order: usize = self.last_escaped[i];
            let h: u64 = self.see_key(order);
            proof {
                let t = self.last_escaped@.take(i + 1);
                assert(t.drop_last() =~= self.last_escaped@.take(i as int));
                assert(t.last() == order);
            }
            self.see.update(order, h, true);
            i = i + 1;
        }
        assert(self.last_escaped@.take(i as int) =~= self.last_escaped@);
        match self.last_answered {
            Some(order) => {
                let h: u64 = self.see_key(order);
                self.see.update(order, h, false);
            },
            None => {},
        }
    }

    /// Counts the observed `bit`.
    pub fn update(&mut self, bit: bool)
        requires
            old(self).wf(),
        ensures
            final(self).wf(),
            final(self)@ == learned(old(self)@, bit),
    {
        ppm::count_in_two(&mut self.orders, &self.bits, self.last_used, bit, Ghost(CTX_BITS));
        self.count_escapes();
        self.count_sparse(bit);
        self.bits.push_bit(bit);
    }

    /// Forgets what was seen.
    pub fn reset(&mut self)
        requires
            old(self).wf(),
        ensures
            final(self).wf(),
            final(self)@ == new_state(),
    {
        self.bits.reset();
        ppm::reset_tables(&mut self.orders, Ghost(CTX_BITS));
        ppm::reset_tables(&mut self.sparse, Ghost(CTX_BITS));
        self.see = SeeTable::new();
        self.last_used = 0;
        self.last_escaped.clear();
        self.last_answered = None;
        assert(self@ =~= new_state());
    }
}

impl Default for PpmdSsm {
    fn default() -> (m: Self)
        ensures
            m.wf(),
            m@ == new_state(),
    {
        Self::new()
    }
}

} // verus!
