//! Dictionary of frequent byte pairs, built as the bytes come.

use vstd::prelude::*;

verus! {

/// How often a pair must be seen to get a symbol.
pub const PROMOTE_AT: u32 = 4;

/// The lowest byte that stands for a pair.
pub const DICT_SYMBOL_BASE: u8 = 0x80;

/// How many pairs can get a symbol.
pub const MAX_DICT_SIZE: usize = 2048;

/// Number of byte pairs.
pub const ALL_PAIRS: usize = 65536;

/// The number of a pair.
pub open spec fn pair_number(pair: Seq<u8>) -> int {
    pair[0] * 256 + pair[1]
}

/// A pair and its symbol.
pub struct DictEntry {
    pub pair: [u8; 2],
    pub id: u16,
}

/// What a dictionary holds: how often each pair was seen, the symbol of each,
/// and the pairs with a symbol in the order in which they got it.
#[verifier::ext_equal]
pub struct Pairs {
    pub counts: Seq<u32>,
    pub ids: Seq<Option<u16>>,
    pub entries: Seq<DictEntry>,
}

/// A dictionary that has seen nothing.
pub open spec fn no_pairs() -> Pairs {
    Pairs {
        counts: Seq::new(ALL_PAIRS as nat, |i: int| 0u32),
        ids: Seq::new(ALL_PAIRS as nat, |i: int| None),
        entries: Seq::empty(),
    }
}

/// The dictionary with one more occurrence of a pair. A count stays at its
/// highest value. A pair that has been seen often enough gets the next symbol. A
/// full dictionary records nothing more.
pub open spec fn recorded(p: Pairs, pair: [u8; 2]) -> Pairs {
    let n = pair_number(pair@);
    let count = if p.counts[n] < u32::MAX {
        (p.counts[n] + 1) as u32
    } else {
        p.counts[n]
    };
    let id = p.entries.len() as u16;
    let counts = p.counts.update(n, count);
    if p.entries.len() >= MAX_DICT_SIZE {
        p
    } else if count >= PROMOTE_AT && p.ids[n] is None {
        Pairs {
            counts,
            ids: p.ids.update(n, Some(id)),
            entries: p.entries.push(DictEntry { pair, id }),
        }
    } else {
        Pairs { counts, ..p }
    }
}

/// The pair that first got a symbol, from the `k`-th on.
pub open spec fn first_with(entries: Seq<DictEntry>, id: u16, k: int) -> Option<[u8; 2]>
    decreases entries.len() - k,
{
    if k < 0 || k >= entries.len() {
        None
    } else if entries[k].id == id {
        Some(entries[k].pair)
    } else {
        first_with(entries, id, k + 1)
    }
}

/// Whether the parts of a dictionary agree: the pairs that were seen often
/// enough are those with a symbol, the entries list them, and their symbols
/// count up.
pub open spec fn consistent(p: Pairs) -> bool {
    &&& p.counts.len() == ALL_PAIRS
    &&& p.ids.len() == ALL_PAIRS
    &&& forall|n: int|
        0 <= n < ALL_PAIRS ==> (#[trigger] p.ids[n] is Some <==> p.counts[n] >= PROMOTE_AT)
    &&& p.entries.len() <= MAX_DICT_SIZE
    &&& forall|k: int| 0 <= k < p.entries.len() ==> #[trigger] p.entries[k].id == k
    &&& forall|n: int|
        0 <= n < ALL_PAIRS && #[trigger] p.ids[n] is Some ==> exists|k: int|
            0 <= k < p.entries.len() && #[trigger] p.entries[k].id == p.ids[n].unwrap()
                && pair_number(p.entries[k].pair@) == n
}

/// What was recorded keeps the parts in agreement.
pub proof fn law_recorded_consistent(p: Pairs, pair: [u8; 2])
    requires
        consistent(p),
    ensures
        consistent(recorded(p, pair)),
{
    let n = pair_number(pair@);
    let q = recorded(p, pair);
    assert(0 <= n < ALL_PAIRS);
    assert forall|m: int| 0 <= m < ALL_PAIRS && #[trigger] q.ids[m] is Some implies exists|k: int|
        0 <= k < q.entries.len() && #[trigger] q.entries[k].id == q.ids[m].unwrap() && pair_number(
            q.entries[k].pair@,
        ) == m by {
        if p.ids[m] is Some {
            let k = choose|k: int|
                0 <= k < p.entries.len() && #[trigger] p.entries[k].id == p.ids[m].unwrap()
                    && pair_number(p.entries[k].pair@) == m;
            assert(q.entries[k] == p.entries[k]);
            assert(q.entries[k].id == q.ids[m].unwrap());
        } else {
            let k = p.entries.len() as int;
            assert(m == n);
            assert(q.entries[k].id == q.ids[m].unwrap());
        }
    }
}

/// A symbol leads back to the pair that it stands for.
pub proof fn law_symbol_leads_back(p: Pairs, n: int)
    requires
        consistent(p),
        0 <= n < ALL_PAIRS,
        p.ids[n] is Some,
    ensures
        first_with(p.entries, p.ids[n].unwrap(), 0) matches Some(pair) && pair_number(pair@) == n,
{
    let k = choose|k: int|
        0 <= k < p.entries.len() && #[trigger] p.entries[k].id == p.ids[n].unwrap() && pair_number(
            p.entries[k].pair@,
        ) == n;
    lemma_first_with(p, k, 0);
}

proof fn lemma_first_with(p: Pairs, k: int, from: int)
    requires
        consistent(p),
        0 <= from <= k < p.entries.len(),
    ensures
        first_with(p.entries, p.entries[k].id, from) == Some(p.entries[k].pair),
    decreases k - from,
{
    if from < k {
        assert(p.entries[from].id == from);
        assert(p.entries[k].id == k);
        lemma_first_with(p, k, from + 1);
    }
}

/// Dictionary of frequent byte pairs.
pub struct BytePairDict {
    pair_counts: Vec<u32>,
    pair_to_id: Vec<Option<u16>>,
    id_to_pair: Vec<DictEntry>,
    next_id: u16,
}

impl View for BytePairDict {
    type V = Pairs;

    closed spec fn view(&self) -> Pairs {
        Pairs {
            counts: self.pair_counts@,
            ids: self.pair_to_id@,
            entries: self.id_to_pair@,
        }
    }
}

fn number_of(pair: [u8; 2]) -> (n: usize)
    ensures
        n == pair_number(pair@),
        n < ALL_PAIRS,
{
    pair[0] as usize * 256 + pair[1] as usize
}

impl BytePairDict {
    /// The parts agree, and the next symbol follows the last one.
    pub closed spec fn wf(&self) -> bool {
        &&& consistent(self@)
        &&& self.next_id == self.id_to_pair@.len()
    }

    /// The parts of a dictionary agree.
    pub proof fn law_parts_agree(&self)
        requires
            self.wf(),
        ensures
            consistent(self@),
    {
    }

    /// A dictionary that has seen nothing.
    pub fn new() -> (d: Self)
        ensures
            d.wf(),
            d@ == no_pairs(),
    {
        let mut ids: Vec<Option<u16>> = Vec::new();
        let mut i: usize = 0;
        while i < ALL_PAIRS
            invariant
                i <= ALL_PAIRS,
                ids@.len() == i,
                forall|j: int| 0 <= j < i ==> #[trigger] ids@[j] is None,
            decreases ALL_PAIRS - i,
        {
            ids.push(None);
            i = i + 1;
        }
        let d = Self {
            pair_counts: vec![0u32; ALL_PAIRS],
            pair_to_id: ids,
            id_to_pair: Vec::new(),
            next_id: 0,
        };
        assert(d@ =~= no_pairs());
        d
    }

    /// Records one more occurrence of `pair`.
    pub fn record_pair(&mut self, pair: [u8; 2])
        requires
            old(self).wf(),
        ensures
            final(self).wf(),
            final(self)@ == recorded(old(self)@, pair),
    {
        proof {
            law_recorded_consistent(self@, pair);
        }
        if self.id_to_pair.len() >= MAX_DICT_SIZE {
            return;
        }
        let n: usize = number_of(pair);
        let count: u32 = self.pair_counts[n].saturating_add(1);
        self.pair_counts.set(n, count);
        if count >= PROMOTE_AT && self.pair_to_id[n].is_none() {
            let id: u16 = self.next_id;
            self.pair_to_id.set(n, Some(id));
            self.id_to_pair.push(DictEntry { pair, id });
            self.next_id = id + 1;
        }
        assert(self@ =~= recorded(old(self)@, pair));
    }

    /// The symbol of a pair, if it has one.
    pub fn lookup(&self, pair: [u8; 2]) -> (r: Option<u16>)
        requires
            self.wf(),
        ensures
            r == self@.ids[pair_number(pair@)],
    {
        self.pair_to_id[number_of(pair)]
    }

    /// Whether a byte stands for a pair.
    pub fn is_symbol(b: u8) -> (r: bool)
        ensures
            r == (b >= DICT_SYMBOL_BASE),
    {
        b >= DICT_SYMBOL_BASE
    }

    /// The pair that first got a symbol.
    pub fn reverse_lookup(&self, id: u16) -> (r: Option<[u8; 2]>)
        ensures
            r == first_with(self@.entries, id, 0),
    {
        let mut k: usize = 0;
        while k < self.id_to_pair.len()
            invariant
                k <= self.id_to_pair@.len(),
                first_with(self@.entries, id, 0) == first_with(self@.entries, id, k as int),
            decreases self.id_to_pair@.len() - k,
        {
            if self.id_to_pair[k].id == id {
                return Some(self.id_to_pair[k].pair);
            }
            k = k + 1;
        }
        None
    }

    /// The number of pairs with a symbol.
    pub fn len(&self) -> (n: usize)
        ensures
            n == self@.entries.len(),
    {
        self.id_to_pair.len()
    }

    /// Forgets everything.
    pub fn reset(&mut self)
        ensures
            final(self).wf(),
            final(self)@ == no_pairs(),
    {
        *self = Self::new();
    }
}

} // verus!
