//! Model of all orders up to a highest one, in the manner of prediction by
//! partial matching.
//!
//! The orders are consulted from the highest one down, until one has seen both
//! bit values; a context that was not visited yet is passed over. What they counted
//! is blended by the caller, each order's share of ones with the prediction of the
//! orders below it, weighted by the chance of an escape to them. A bit is then
//! counted under order 0 and under the order that was consulted last, which is the
//! highest one where no context was visited yet. The orders in between stay clean.

use crate::model::assembler;
use crate::model::ctable;
use crate::model::ctable::CtxTable;
use crate::model::dense;
use crate::model::ByteAssembler;
use vstd::prelude::*;

verus! {

/// Address bits of each context table.
pub const CTX_BITS: u32 = 21;

/// What an order counted under the current context.
pub struct OrderCounts {
    pub order: usize,
    pub zeros: u32,
    pub ones: u32,
}

/// What the model holds: a table per order, and the order that was consulted last.
#[verifier::ext_equal]
pub struct PpmState {
    pub bits: assembler::Bits,
    pub tables: Seq<Seq<ctable::Counts>>,
    pub used: int,
}

/// Tables of fresh contexts, one per order.
pub open spec fn fresh_tables(n: int, bits: u32) -> Seq<Seq<ctable::Counts>> {
    Seq::new(n as nat, |i: int| ctable::fresh(assembler::two_to(bits as nat)))
}

/// A model that has seen nothing.
pub open spec fn new_state(max_order: int) -> PpmState {
    PpmState {
        bits: assembler::no_bits(
            if max_order < 1 {
                1
            } else {
                max_order
            },
        ),
        tables: fresh_tables(max_order + 1, CTX_BITS),
        used: 0,
    }
}

/// What an order counted under its context.
pub open spec fn counts_at(
    bits: assembler::Bits,
    tables: Seq<Seq<ctable::Counts>>,
    order: int,
) -> ctable::Counts {
    ctable::under(tables[order], dense::dense_key(bits, order))
}

/// Whether a context was not visited yet.
pub open spec fn unvisited(c: ctable::Counts) -> bool {
    c == ctable::even()
}

/// Whether a context has seen both bit values.
pub open spec fn seen_both(c: ctable::Counts) -> bool {
    c.zeros > ctable::INIT && c.ones > ctable::INIT
}

/// What is consulted from an order down: each order whose context was visited,
/// until one has seen both bit values.
pub open spec fn walk(s: PpmState, order: int) -> Seq<OrderCounts>
    decreases order + 1,
{
    if order < 0 {
        Seq::empty()
    } else {
        let c = counts_at(s.bits, s.tables, order);
        if unvisited(c) {
            walk(s, order - 1)
        } else {
            let here = seq![
                OrderCounts { order: order as usize, zeros: c.zeros, ones: c.ones },
            ];
            if seen_both(c) {
                here
            } else {
                here + walk(s, order - 1)
            }
        }
    }
}

/// The first order to be consulted is the highest one whose context was visited:
/// all above it escape. Where none is consulted, no context was visited.
pub proof fn law_unvisited_escape(s: PpmState, order: int)
    requires
        order <= usize::MAX,
    ensures
        forall|k: int|
            first_order(walk(s, order)) < k <= order ==> unvisited(
                #[trigger] counts_at(s.bits, s.tables, k),
            ),
        walk(s, order).len() > 0 ==> !unvisited(
            counts_at(s.bits, s.tables, walk(s, order)[0].order as int),
        ),
    decreases order + 1,
{
    if order >= 0 && unvisited(counts_at(s.bits, s.tables, order)) {
        law_unvisited_escape(s, order - 1);
    }
}

/// The first order of a walk, or -1.
pub open spec fn first_order(w: Seq<OrderCounts>) -> int {
    if w.len() == 0 {
        -1
    } else {
        w[0].order as int
    }
}

/// A walk depends on the bits and the tables alone.
pub proof fn lemma_walk_of(s: PpmState, t: PpmState, order: int)
    requires
        s.bits == t.bits,
        s.tables == t.tables,
    ensures
        walk(s, order) == walk(t, order),
    decreases order + 1,
{
    if order >= 0 {
        lemma_walk_of(s, t, order - 1);
    }
}

/// The order consulted last; the highest order, `top`, where none was.
pub open spec fn last_order(w: Seq<OrderCounts>, top: int) -> int {
    if w.len() == 0 {
        top
    } else {
        w.last().order as int
    }
}

/// The tables with a bit counted under one order.
pub open spec fn counted_at(
    bits: assembler::Bits,
    tables: Seq<Seq<ctable::Counts>>,
    order: int,
    bit: bool,
) -> Seq<Seq<ctable::Counts>> {
    tables.update(order, ctable::counted(tables[order], dense::dense_key(bits, order), bit))
}

/// The tables with a bit counted under order 0 and then under the order `used`; so
/// it counts twice under order 0 where that is the one.
pub open spec fn counted_in_two(
    bits: assembler::Bits,
    tables: Seq<Seq<ctable::Counts>>,
    used: int,
    bit: bool,
) -> Seq<Seq<ctable::Counts>> {
    counted_at(bits, counted_at(bits, tables, 0, bit), used, bit)
}

/// The model with one more bit seen: counted under order 0, and under the order
/// consulted last.
pub open spec fn learned(s: PpmState, bit: bool) -> PpmState {
    PpmState {
        bits: assembler::pushed(s.bits, bit),
        tables: counted_in_two(s.bits, s.tables, s.used, bit),
        used: s.used,
    }
}

/// Counting a bit leaves every order but 0 and the one consulted last as it was.
pub proof fn law_between_stay_clean(s: PpmState, bit: bool, order: int)
    requires
        0 < order < s.tables.len(),
        0 <= s.used < s.tables.len(),
        order != s.used,
    ensures
        learned(s, bit).tables[order] == s.tables[order],
{
}

/// The contents of tables.
pub open spec fn table_views(v: Seq<CtxTable>) -> Seq<Seq<ctable::Counts>> {
    v.map_values(|t: CtxTable| t@)
}

/// Whether all tables are in order and of one size.
pub open spec fn tables_wf(v: Seq<CtxTable>, bits: u32) -> bool {
    forall|i: int|
        0 <= i < v.len() ==> (#[trigger] v[i]).wf() && v[i]@.len() == assembler::two_to(
            bits as nat,
        )
}

/// Makes `n` fresh tables.
pub(crate) fn make_tables(n: usize, bits: u32) -> (v: Vec<CtxTable>)
    requires
        bits < usize::BITS,
    ensures
        tables_wf(v@, bits),
        v@.len() == n,
        table_views(v@) == fresh_tables(n as int, bits),
{
    let mut v: Vec<CtxTable> = Vec::new();
    let mut i: usize = 0;
    while i < n
        invariant
            i <= n,
            bits < usize::BITS,
            v@.len() == i,
            tables_wf(v@, bits),
            forall|j: int|
                0 <= j < i ==> (#[trigger] v@[j])@ == ctable::fresh(
                    assembler::two_to(bits as nat),
                ),
        decreases n - i,
    {
        v.push(CtxTable::new(bits));
        i = i + 1;
    }
    assert(table_views(v@) =~= fresh_tables(n as int, bits));
    v
}

/// Counts a bit in one of the tables.
pub(crate) fn count_in(v: &mut Vec<CtxTable>, at: usize, ctx: u64, bit: bool, Ghost(bits): Ghost<u32>)
    requires
        tables_wf(old(v)@, bits),
        at < old(v)@.len(),
    ensures
        tables_wf(final(v)@, bits),
        final(v)@.len() == old(v)@.len(),
        table_views(final(v)@) == table_views(old(v)@).update(
            at as int,
            ctable::counted(table_views(old(v)@)[at as int], ctx, bit),
        ),
{
    v[at].update(ctx, bit);
    assert(table_views(v@) =~= table_views(old(v)@).update(
        at as int,
        ctable::counted(table_views(old(v)@)[at as int], ctx, bit),
    ));
}

/// Counts a bit under order 0 and then under the order `used`.
pub(crate) fn count_in_two(
    v: &mut Vec<CtxTable>,
    b: &ByteAssembler,
    used: usize,
    bit: bool,
    Ghost(bits): Ghost<u32>,
)
    requires
        tables_wf(old(v)@, bits),
        b.wf(),
        used < old(v)@.len(),
    ensures
        tables_wf(final(v)@, bits),
        final(v)@.len() == old(v)@.len(),
        table_views(final(v)@) == counted_in_two(b@, table_views(old(v)@), used as int, bit),
{
    let first: u64 = dense::key(b, 0);
    count_in(v, 0, first, bit, Ghost(bits));
    let second: u64 = dense::key(b, used);
    count_in(v, used, second, bit, Ghost(bits));
}

/// Makes every context of every table fresh.
pub(crate) fn reset_tables(v: &mut Vec<CtxTable>, Ghost(bits): Ghost<u32>)
    requires
        tables_wf(old(v)@, bits),
    ensures
        tables_wf(final(v)@, bits),
        final(v)@.len() == old(v)@.len(),
        table_views(final(v)@) == fresh_tables(old(v)@.len() as int, bits),
{
    let n: usize = v.len();
    let mut i: usize = 0;
    while i < n
        invariant
            i <= n,
            n == v@.len(),
            n == old(v)@.len(),
            tables_wf(v@, bits),
            forall|j: int|
                0 <= j < i ==> (#[trigger] v@[j])@ == ctable::fresh(
                    assembler::two_to(bits as nat),
                ),
        decreases n - i,
    {
        v[i].reset();
        i = i + 1;
    }
    assert(table_views(v@) =~= fresh_tables(n as int, bits));
}

/// Model of the orders up to a highest one.
pub struct PpmModel {
    orders: Vec<CtxTable>,
    bits: ByteAssembler,
    max_order: usize,
    last_used: usize,
}

impl View for PpmModel {
    type V = PpmState;

    closed spec fn view(&self) -> PpmState {
        PpmState {
            bits: self.bits@,
            tables: table_views(self.orders@),
            used: self.last_used as int,
        }
    }
}

impl PpmModel {
    /// There is a table for each order, and the order consulted last is one.
    pub closed spec fn wf(&self) -> bool {
        &&& self.max_order < usize::MAX
        &&& self.orders@.len() == self.max_order + 1
        &&& tables_wf(self.orders@, CTX_BITS)
        &&& self.bits.wf()
        &&& self.bits@.kept == (if self.max_order < 1 {
            1
        } else {
            self.max_order as int
        })
        &&& self.last_used <= self.max_order
    }

    /// The highest order.
    pub closed spec fn top(&self) -> int {
        self.max_order as int
    }

    /// A model of the orders 0 to `max_order`.
    pub fn new(max_order: usize) -> (m: Self)
        requires
            max_order < usize::MAX,
        ensures
            m.wf(),
            m.top() == max_order,
            m@ == new_state(max_order as int),
    {
        let cap: usize = if max_order < 1 {
            1
        } else {
            max_order
        };
        Self {
            orders: make_tables(max_order + 1, CTX_BITS),
            bits: ByteAssembler::new(cap),
            max_order,
            last_used: 0,
        }
    }

    /// Consults the orders and returns what they counted, the highest order
    /// first.
    pub fn consult(&mut self) -> (w: Vec<OrderCounts>)
        requires
            old(self).wf(),
        ensures
            final(self).wf(),
            final(self).top() == old(self).top(),
            w@ == walk(old(self)@, old(self).top()),
            final(self)@ == (PpmState { used: last_order(w@, old(self).top()), ..old(self)@ }),
    {
        let mut w: Vec<OrderCounts> = Vec::new();
        let ghost goal = walk(self@, self.top());
        let mut left: usize = self.max_order + 1;
        let mut done: bool = false;
        while left > 0 && !done
            invariant
                *self == *old(self),
                self.wf(),
                left <= self.max_order + 1,
                goal == walk(self@, self.top()),
                done ==> goal == w@,
                !done ==> goal == w@ + walk(self@, left - 1),
                w@.len() > 0 ==> w@.last().order <= self.max_order,
            decreases left,
        {
            let order: usize = left - 1;
            let k: u64 = dense::key(&self.bits, order);
            let c: [u32; 2] = self.orders[order].get(k);
            assert(self@.tables[order as int] == self.orders@[order as int]@);
            let ghost before = w@;
            if c[0] != ctable::INIT || c[1] != ctable::INIT {
                w.push(OrderCounts { order, zeros: c[0], ones: c[1] });
                if c[0] > ctable::INIT && c[1] > ctable::INIT {
                    done = true;
                }
                assert(w@ =~= before + seq![w@.last()]);
                assert(w@ + walk(self@, order - 1) =~= before + (seq![w@.last()] + walk(
                    self@,
                    order - 1,
                )));
            }
            left = order;
        }
        assert(goal =~= w@);
        let n: usize = w.len();
        self.last_used = if n == 0 {
            self.max_order
        } else {
            w[n - 1].order
        };
        w
    }

    /// Counts the observed `bit`.
    pub fn update(&mut self, bit: bool)
        requires
            old(self).wf(),
        ensures
            final(self).wf(),
            final(self).top() == old(self).top(),
            final(self)@ == learned(old(self)@, bit),
    {
        count_in_two(&mut self.orders, &self.bits, self.last_used, bit, Ghost(CTX_BITS));
        self.bits.push_bit(bit);
    }

    /// Forgets what was seen.
    pub fn reset(&mut self)
        requires
            old(self).wf(),
        ensures
            final(self).wf(),
            final(self).top() == old(self).top(),
            final(self)@ == new_state(old(self).top()),
    {
        self.bits.reset();
        reset_tables(&mut self.orders, Ghost(CTX_BITS));
        self.last_used = 0;
    }
}

} // verus!
