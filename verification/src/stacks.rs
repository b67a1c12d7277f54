//! Which models make up the stack for a kind of block.

use crate::classify::BlockKind;
use crate::model::exec;
use crate::model::exec::Exec;
use crate::model::lzp;
use crate::model::lzp::Lzp;
use crate::model::mixer;
use crate::model::mixer::LogisticMixer;
use crate::model::order;
use crate::model::order::OrderN;
use crate::model::ppm;
use crate::model::ppm::PpmModel;
use crate::model::ppmd_ssm;
use crate::model::ppmd_ssm::PpmdSsm;
use crate::model::sparse;
use crate::model::sparse::Sparse;
use crate::model::stack_enum::StackModel;
use crate::model::word;
use crate::model::word::WordModel;
use crate::model::BitModel;
use vstd::prelude::*;

verus! {

/// A model of a stack, by name.
pub enum Part {
    Order(int),
    Sparse,
    Exec,
    Lzp,
    Ppmd,
    Word,
    Ppm(int),
}

/// Whether a model is a new one of the given name.
pub open spec fn is_new(m: StackModel, p: Part) -> bool {
    match (m, p) {
        (StackModel::Order(m), Part::Order(n)) => m.wf() && m@ == order::new_state(n),
        (StackModel::Sparse(m), Part::Sparse) => m.wf() && m@ == sparse::new_state(),
        (StackModel::Exec(m), Part::Exec) => m.wf() && m@ == exec::new_state(),
        (StackModel::Lzp(m), Part::Lzp) => m.wf() && lzp::is_new(m, lzp::DEFAULT_WINDOW as int),
        (StackModel::Ppmd(m), Part::Ppmd) => m.wf() && m@ == ppmd_ssm::new_state(),
        (StackModel::Word(m), Part::Word) => m.wf() && m@ == word::new_state(),
        (StackModel::Ppm(m), Part::Ppm(n)) => m.wf() && m.top() == n && m@ == ppm::new_state(n),
        _ => false,
    }
}

/// Whether models are new ones of the given names, in their order.
pub open spec fn made_of(models: Seq<StackModel>, parts: Seq<Part>) -> bool {
    &&& models.len() == parts.len()
    &&& forall|i: int| 0 <= i < parts.len() ==> is_new(#[trigger] models[i], parts[i])
}

/// The stack of a kind of block. A random block is stored and needs none.
pub open spec fn stack_of(kind: BlockKind) -> Seq<Part> {
    let orders = seq![Part::Order(0), Part::Order(1), Part::Order(2), Part::Sparse];
    match kind {
        BlockKind::Random => Seq::empty(),
        BlockKind::Text => orders + seq![Part::Exec, Part::Lzp, Part::Ppmd, Part::Word],
        BlockKind::Binary => orders + seq![Part::Exec, Part::Lzp, Part::Ppm(3)],
        BlockKind::Exec => orders + seq![Part::Lzp, Part::Ppm(3)],
    }
}

/// The place of the match model in the stack of a kind of block.
pub open spec fn match_model(kind: BlockKind) -> Option<usize> {
    match kind {
        BlockKind::Random => None,
        BlockKind::Text => Some(5),
        BlockKind::Binary => Some(5),
        BlockKind::Exec => Some(4),
    }
}

/// The place of the match model holds the match model; a stack without models has
/// none.
pub proof fn law_match_model(kind: BlockKind)
    ensures
        match match_model(kind) {
            Some(i) => i < stack_of(kind).len() && stack_of(kind)[i as int] == Part::Lzp,
            None => stack_of(kind).len() == 0,
        },
{
}

/// A stack never holds more models than a mixer can fuse.
pub proof fn law_stack_fits_mixer(kind: BlockKind)
    ensures
        stack_of(kind).len() <= mixer::MAX_MODELS,
{
}

/// Every stack has the orders 0 to 2, the sparse model and the match model. Text has
/// the words and the orders with learned escapes besides, binary data and code all
/// orders up to 3, and text and binary data the model of neighbouring bytes.
pub proof fn law_what_stacks_hold(kind: BlockKind)
    requires
        kind != BlockKind::Random,
    ensures
        ({
            let s = stack_of(kind);
            let text = kind == BlockKind::Text;
            &&& s.contains(Part::Order(0)) && s.contains(Part::Order(1)) && s.contains(
                Part::Order(2),
            )
            &&& s.contains(Part::Sparse) && s.contains(Part::Lzp)
            &&& text ==> s.contains(Part::Word) && s.contains(Part::Ppmd) && s.len() == 8
            &&& !text ==> s.contains(Part::Ppm(3))
            &&& kind != BlockKind::Exec ==> s.contains(Part::Exec)
            &&& kind == BlockKind::Binary ==> s.len() == 7
            &&& kind == BlockKind::Exec ==> s.len() == 6
        }),
{
    let s = stack_of(kind);
    assert(s[0] == Part::Order(0) && s[1] == Part::Order(1) && s[2] == Part::Order(2) && s[3]
        == Part::Sparse);
    if kind == BlockKind::Text {
        assert(s[4] == Part::Exec && s[5] == Part::Lzp && s[6] == Part::Ppmd && s[7]
            == Part::Word);
    } else if kind == BlockKind::Binary {
        assert(s[4] == Part::Exec && s[5] == Part::Lzp && s[6] == Part::Ppm(3));
    } else {
        assert(s[4] == Part::Lzp && s[5] == Part::Ppm(3));
    }
}

fn dense_part() -> (models: Vec<StackModel>)
    ensures
        made_of(
            models@,
            seq![Part::Order(0), Part::Order(1), Part::Order(2), Part::Sparse],
        ),
{
    vec![
        StackModel::Order(OrderN::new(0)),
        StackModel::Order(OrderN::new(1)),
        StackModel::Order(OrderN::new(2)),
        StackModel::Sparse(Sparse::new()),
    ]
}

/// Builds the stack of a kind of block, and says where its match model is.
pub fn build_stack_for_kind(kind: BlockKind) -> (r: (Vec<StackModel>, Option<usize>))
    ensures
        made_of(r.0@, stack_of(kind)),
        r.1 == match_model(kind),
{
    match kind {
        BlockKind::Random => (Vec::new(), None),
        BlockKind::Text => {
            let mut models: Vec<StackModel> = dense_part();
            models.push(StackModel::Exec(Exec::new()));
            models.push(StackModel::Lzp(Lzp::new()));
            models.push(StackModel::Ppmd(PpmdSsm::new()));
            models.push(StackModel::Word(WordModel::new()));
            (models, Some(5))
        },
        BlockKind::Binary => {
            let mut models: Vec<StackModel> = dense_part();
            models.push(StackModel::Exec(Exec::new()));
            models.push(StackModel::Lzp(Lzp::new()));
            models.push(StackModel::Ppm(PpmModel::new(3)));
            (models, Some(5))
        },
        BlockKind::Exec => {
            let mut models: Vec<StackModel> = dense_part();
            models.push(StackModel::Lzp(Lzp::new()));
            models.push(StackModel::Ppm(PpmModel::new(3)));
            (models, Some(4))
        },
    }
}

/// Builds the stack for binary data.
pub fn build_full_stack() -> (r: (Vec<StackModel>, Option<usize>))
    ensures
        made_of(r.0@, stack_of(BlockKind::Binary)),
        r.1 == match_model(BlockKind::Binary),
{
    build_stack_for_kind(BlockKind::Binary)
}

/// The stack for binary data.
pub struct BaselineBuilder;

/// A stack of one model of all orders up to a highest one.
pub struct PpmBuilder {
    pub max_order: usize,
}

/// The stack for binary data with the order-3 model at its end.
pub struct HybridPpm3Builder;

impl BaselineBuilder {
    /// The models, and a mixer for them.
    pub fn build() -> (r: (Vec<StackModel>, LogisticMixer))
        ensures
            made_of(r.0@, stack_of(BlockKind::Binary)),
            r.1.wf(),
            r.1@ == mixer::unit(r.0@.len() as int),
    {
        let (models, _) = build_full_stack();
        let weights = LogisticMixer::new(models.len());
        (models, weights)
    }
}

impl PpmBuilder {
    /// A builder for the orders 0 to `max_order`.
    pub fn new(max_order: usize) -> (b: Self)
        ensures
            b.max_order == max_order,
    {
        Self { max_order }
    }

    /// The models, and a mixer for them.
    pub fn build(&self) -> (r: (Vec<StackModel>, LogisticMixer))
        requires
            self.max_order < usize::MAX,
        ensures
            made_of(r.0@, seq![Part::Ppm(self.max_order as int)]),
            r.1.wf(),
            r.1@ == mixer::unit(r.0@.len() as int),
    {
        let models: Vec<StackModel> = vec![StackModel::Ppm(PpmModel::new(self.max_order))];
        let weights = LogisticMixer::new(models.len());
        (models, weights)
    }
}

/// The parts of the hybrid stack.
pub open spec fn hybrid_parts() -> Seq<Part> {
    seq![
        Part::Order(0),
        Part::Order(1),
        Part::Order(2),
        Part::Sparse,
        Part::Lzp,
        Part::Exec,
        Part::Ppm(3),
    ]
}

impl HybridPpm3Builder {
    /// The models, and a mixer for them.
    pub fn build() -> (r: (Vec<StackModel>, LogisticMixer))
        ensures
            made_of(r.0@, hybrid_parts()),
            r.1.wf(),
            r.1@ == mixer::unit(r.0@.len() as int),
    {
        let mut models: Vec<StackModel> = dense_part();
        models.push(StackModel::Lzp(Lzp::new()));
        models.push(StackModel::Exec(Exec::new()));
        models.push(StackModel::Ppm(PpmModel::new(3)));
        let weights = LogisticMixer::new(models.len());
        (models, weights)
    }
}

} // verus!
