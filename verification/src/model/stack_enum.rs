//! The models of a stack, as one closed type.

use crate::model::exec;
use crate::model::exec::Exec;
use crate::model::indirect_dmc;
use crate::model::indirect_dmc::IndirectModel;
use crate::model::lzp;
use crate::model::lzp::Lzp;
use crate::model::order;
use crate::model::order::OrderN;
use crate::model::ppm;
use crate::model::ppm::{OrderCounts, PpmModel};
use crate::model::ppmd_ssm;
use crate::model::ppmd_ssm::{PpmdSsm, PpmdWalk, SeeStep};
use crate::model::sparse;
use crate::model::sparse::Sparse;
use crate::model::word;
use crate::model::word::WordModel;
use crate::model::{ctable, BitModel};
use vstd::prelude::*;

verus! {

/// One model of a stack.
pub enum StackModel {
    Order(OrderN),
    Sparse(Sparse),
    Exec(Exec),
    Lzp(Lzp),
    Ppmd(PpmdSsm),
    Word(WordModel),
    Ppm(PpmModel),
    Indirect(IndirectModel),
}

/// What a model says of the next bit: the probability of a one, or the counts
/// that are yet to be blended into one.
pub enum Forecast {
    Ready(u16),
    Orders(Vec<OrderCounts>),
    Escapes(PpmdWalk),
}

/// The probability that a model without a blend gives to a one.
pub open spec fn ready(m: StackModel) -> Option<u16> {
    match m {
        StackModel::Order(m) => Some(
            ctable::prob_of(ctable::under(m@.table, order::context(m@))),
        ),
        StackModel::Sparse(m) => Some(
            ctable::prob_of(ctable::under(m@.table, sparse::context(m@))),
        ),
        StackModel::Exec(m) => Some(exec::predicted(m@)),
        StackModel::Lzp(m) => Some(
            lzp::expected_bit(
                lzp::expected_byte(m.links(), m.reach(), m.seen()),
                m.bit_index(),
            ),
        ),
        StackModel::Word(m) => Some(
            ctable::prob_of(ctable::under(m@.table, word::context(m@.bits, m@.words))),
        ),
        StackModel::Indirect(m) => Some(
            ctable::prob_of(ctable::under(m@.table, indirect_dmc::indirect_context(m@))),
        ),
        StackModel::Ppmd(_) => None,
        StackModel::Ppm(_) => None,
    }
}

/// A forecast as contracts speak of it.
#[verifier::ext_equal]
pub enum Outlook {
    Ready(u16),
    Orders(Seq<OrderCounts>),
    Escapes(Seq<SeeStep>, Seq<ctable::Counts>),
}

impl View for Forecast {
    type V = Outlook;

    open spec fn view(&self) -> Outlook {
        match *self {
            Forecast::Ready(p) => Outlook::Ready(p),
            Forecast::Orders(w) => Outlook::Orders(w@),
            Forecast::Escapes(w) => Outlook::Escapes(w.steps@, w.sparse@),
        }
    }
}

/// What a model says of the next bit.
pub open spec fn outlook(m: StackModel) -> Outlook {
    match m {
        StackModel::Ppmd(x) => Outlook::Escapes(
            ppmd_ssm::walk(x@, ppmd_ssm::MAX_ORDER as int).steps,
            Seq::new(
                ppmd_ssm::N_SPARSE as nat,
                |i: int| ctable::under(x@.sparse[i], ppmd_ssm::sparse_key(x@.bits, i)),
            ),
        ),
        StackModel::Ppm(x) => Outlook::Orders(ppm::walk(x@, x.top())),
        _ => Outlook::Ready(ready(m)->Some_0),
    }
}

/// A model of one context says the probability that its counts there give; the match
/// model goes by the byte that it expects, 3584 or 512 of 4096, and even odds without.
pub proof fn law_forecasts(m: StackModel)
    ensures
        match m {
            StackModel::Order(x) => outlook(m) == Outlook::Ready(
                ctable::prob_of(ctable::under(x@.table, order::context(x@))),
            ),
            StackModel::Sparse(x) => outlook(m) == Outlook::Ready(
                ctable::prob_of(ctable::under(x@.table, sparse::context(x@))),
            ),
            StackModel::Exec(x) => x@.bits.recent.len() > 0 ==> outlook(m) == Outlook::Ready(
                ctable::prob_of(ctable::under(x@.table, exec::context(x@))),
            ),
            StackModel::Word(x) => outlook(m) == Outlook::Ready(
                ctable::prob_of(ctable::under(x@.table, word::context(x@.bits, x@.words))),
            ),
            StackModel::Indirect(x) => outlook(m) == Outlook::Ready(
                ctable::prob_of(ctable::under(x@.table, indirect_dmc::indirect_context(x@))),
            ),
            StackModel::Lzp(x) => match lzp::expected_byte(x.links(), x.reach(), x.seen()) {
                None => outlook(m) == Outlook::Ready(2048),
                Some(b) => outlook(m) == Outlook::Ready(
                    if lzp::bit_from_top(b, x.bit_index()) {
                        3584
                    } else {
                        512
                    },
                ),
            },
            StackModel::Ppm(x) => outlook(m) == Outlook::Orders(ppm::walk(x@, x.top())),
            StackModel::Ppmd(x) => outlook(m) matches Outlook::Escapes(steps, rest) && steps
                == ppmd_ssm::walk(x@, 8).steps && rest.len() == 3,
        },
{
}

/// Whether `b` is `a` after it was asked: what it counted stays, and a model of
/// several orders keeps in mind which it consulted.
pub open spec fn asked(a: StackModel, b: StackModel) -> bool {
    match (a, b) {
        (StackModel::Ppmd(x), StackModel::Ppmd(y)) => {
            let w = ppmd_ssm::walk(x@, ppmd_ssm::MAX_ORDER as int);
            y@ == (ppmd_ssm::PpmdState {
                used: ppmd_ssm::last_order(w.steps),
                escaped: w.escaped,
                answered: w.answered,
                ..x@
            })
        },
        (StackModel::Ppm(x), StackModel::Ppm(y)) => y.top() == x.top() && y@ == (ppm::PpmState {
            used: ppm::last_order(ppm::walk(x@, x.top()), x.top()),
            ..x@
        }),
        _ => b == a,
    }
}

/// A prediction is repeatable: asking a model does not change what it says.
pub proof fn law_repeatable(a: StackModel, b: StackModel)
    requires
        asked(a, b),
    ensures
        outlook(a) == outlook(b),
{
    match (a, b) {
        (StackModel::Ppmd(x), StackModel::Ppmd(y)) => {
            ppmd_ssm::lemma_walk_of(x@, y@, ppmd_ssm::MAX_ORDER as int);
            assert(outlook(a) =~= outlook(b));
        },
        (StackModel::Ppm(x), StackModel::Ppm(y)) => {
            ppm::lemma_walk_of(x@, y@, x.top());
        },
        _ => {},
    }
}

/// A model that has forgotten everything says what every other of its kind that
/// has seen nothing says.
pub proof fn law_reset_like_new(a: StackModel, b: StackModel, c: StackModel)
    requires
        forgot(a, b),
        forgot(a, c),
    ensures
        outlook(b) == outlook(c),
{
    match (b, c) {
        (StackModel::Ppmd(x), StackModel::Ppmd(y)) => {
            assert(outlook(b) =~= outlook(c));
        },
        (StackModel::Lzp(x), StackModel::Lzp(y)) => {},
        _ => {},
    }
}

/// A prediction that needs no blend is a probability.
pub proof fn law_outlook_range(m: StackModel)
    ensures
        outlook(m) matches Outlook::Ready(p) ==> 1 <= p <= 4095,
{
    match m {
        StackModel::Order(x) => {
            ctable::law_prob_range(ctable::under(x@.table, order::context(x@)));
        },
        StackModel::Sparse(x) => {
            ctable::law_prob_range(ctable::under(x@.table, sparse::context(x@)));
        },
        StackModel::Exec(x) => {
            ctable::law_prob_range(ctable::under(x@.table, exec::context(x@)));
        },
        StackModel::Word(x) => {
            ctable::law_prob_range(ctable::under(x@.table, word::context(x@.bits, x@.words)));
        },
        StackModel::Indirect(x) => {
            ctable::law_prob_range(
                ctable::under(x@.table, indirect_dmc::indirect_context(x@)),
            );
        },
        _ => {},
    }
}

/// Whether `b` is what `a` becomes with one more bit seen.
pub open spec fn follows(a: StackModel, b: StackModel, bit: bool) -> bool {
    match (a, b) {
        (StackModel::Order(x), StackModel::Order(y)) => y@ == order::learned(x@, bit),
        (StackModel::Sparse(x), StackModel::Sparse(y)) => y@ == sparse::learned(x@, bit),
        (StackModel::Exec(x), StackModel::Exec(y)) => y@ == exec::learned(x@, bit),
        (StackModel::Lzp(x), StackModel::Lzp(y)) => lzp::follows(x, y, bit),
        (StackModel::Ppmd(x), StackModel::Ppmd(y)) => y@ == ppmd_ssm::learned(x@, bit),
        (StackModel::Word(x), StackModel::Word(y)) => y@ == word::learned(x@, bit),
        (StackModel::Ppm(x), StackModel::Ppm(y)) => y@ == ppm::learned(x@, bit) && y.top()
            == x.top(),
        (StackModel::Indirect(x), StackModel::Indirect(y)) => y@ == indirect_dmc::indirect_learned(
            x@,
            bit,
        ),
        _ => false,
    }
}

/// Whether `b` is `a` with everything forgotten.
pub open spec fn forgot(a: StackModel, b: StackModel) -> bool {
    match (a, b) {
        (StackModel::Order(x), StackModel::Order(y)) => y@ == order::new_state(x@.order),
        (StackModel::Sparse(_), StackModel::Sparse(y)) => y@ == sparse::new_state(),
        (StackModel::Exec(_), StackModel::Exec(y)) => y@ == exec::new_state(),
        (StackModel::Lzp(x), StackModel::Lzp(y)) => lzp::is_new(y, x.reach()),
        (StackModel::Ppmd(_), StackModel::Ppmd(y)) => y@ == ppmd_ssm::new_state(),
        (StackModel::Word(_), StackModel::Word(y)) => y@ == word::new_state(),
        (StackModel::Ppm(x), StackModel::Ppm(y)) => y@ == ppm::new_state(x.top()) && y.top()
            == x.top(),
        (StackModel::Indirect(x), StackModel::Indirect(y)) => y@ == indirect_dmc::new_indirect(
            x@.order,
        ),
        _ => false,
    }
}

impl StackModel {
    /// The model's state is consistent.
    pub open spec fn wf(&self) -> bool {
        match *self {
            StackModel::Order(m) => m.wf(),
            StackModel::Sparse(m) => m.wf(),
            StackModel::Exec(m) => m.wf(),
            StackModel::Lzp(m) => m.wf(),
            StackModel::Ppmd(m) => m.wf(),
            StackModel::Word(m) => m.wf(),
            StackModel::Ppm(m) => m.wf(),
            StackModel::Indirect(m) => m.wf(),
        }
    }

    /// What the model says of the next bit.
    pub fn predict(&mut self) -> (f: Forecast)
        requires
            old(self).wf(),
        ensures
            final(self).wf(),
            f@ == outlook(*old(self)),
            asked(*old(self), *final(self)),
            f@ matches Outlook::Ready(p) ==> 1 <= p <= 4095,
    {
        match self {
            StackModel::Order(m) => Forecast::Ready(m.predict()),
            StackModel::Sparse(m) => Forecast::Ready(m.predict()),
            StackModel::Exec(m) => Forecast::Ready(m.predict()),
            StackModel::Lzp(m) => Forecast::Ready(m.predict()),
            StackModel::Ppmd(m) => {
                let ghost before = m@;
                let w = m.consult();
                assert(w.sparse@ =~= Seq::new(
                    ppmd_ssm::N_SPARSE as nat,
                    |i: int| ctable::under(before.sparse[i], ppmd_ssm::sparse_key(before.bits, i)),
                ));
                Forecast::Escapes(w)
            },
            StackModel::Word(m) => Forecast::Ready(m.predict()),
            StackModel::Ppm(m) => Forecast::Orders(m.consult()),
            StackModel::Indirect(m) => Forecast::Ready(m.predict()),
        }
    }

    /// Adapts to the observed `bit`.
    pub fn update(&mut self, bit: bool)
        requires
            old(self).wf(),
        ensures
            final(self).wf(),
            follows(*old(self), *final(self), bit),
    {
        match self {
            StackModel::Order(m) => m.update(bit),
            StackModel::Sparse(m) => m.update(bit),
            StackModel::Exec(m) => m.update(bit),
            StackModel::Lzp(m) => m.update(bit),
            StackModel::Ppmd(m) => m.update(bit),
            StackModel::Word(m) => m.update(bit),
            StackModel::Ppm(m) => m.update(bit),
            StackModel::Indirect(m) => m.update(bit),
        }
    }

    /// Looks at a block before it is coded; no model of the stack needs to.
    pub fn prepare_block(&mut self, _block: &[u8])
        ensures
            *final(self) == *old(self),
    {
    }

    /// Forgets what was seen.
    pub fn reset(&mut self)
        requires
            old(self).wf(),
        ensures
            final(self).wf(),
            forgot(*old(self), *final(self)),
    {
        match self {
            StackModel::Order(m) => m.reset(),
            StackModel::Sparse(m) => m.reset(),
            StackModel::Exec(m) => m.reset(),
            StackModel::Lzp(m) => m.reset(),
            StackModel::Ppmd(m) => m.reset(),
            StackModel::Word(m) => m.reset(),
            StackModel::Ppm(m) => m.reset(),
            StackModel::Indirect(m) => m.reset(),
        }
    }
}

} // verus!
