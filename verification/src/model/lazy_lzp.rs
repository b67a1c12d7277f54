//! Match finder that keeps the last four places behind each four-byte context,
//! and the bit predictor that is built on it.

use crate::bytes;
use crate::model::assembler;
use crate::model::lzp;
use crate::model::{BitModel, ByteAssembler};
use vstd::prelude::*;

verus! {

/// The shortest match that counts.
pub const MIN_MATCH: usize = 4;

/// Number of chains.
pub const TABLE_SIZE: usize = 262144;

/// Number of places in a chain.
pub const CHAIN_DEPTH: usize = 4;

/// How many bytes of history are kept.
pub const HISTORY: usize = 1048576;

/// What the finder holds.
#[verifier::ext_equal]
pub struct LazyState {
    pub chains: Seq<Seq<u32>>,
    pub bits: assembler::Bits,
    pub history: Seq<u8>,
    pub bit_index: int,
}

/// A chain without a place.
pub open spec fn no_chain() -> Seq<u32> {
    Seq::new(CHAIN_DEPTH as nat, |i: int| 0u32)
}

/// A finder that has seen nothing.
pub open spec fn new_state() -> LazyState {
    LazyState {
        chains: Seq::new(TABLE_SIZE as nat, |i: int| no_chain()),
        bits: assembler::no_bits(8),
        history: Seq::empty(),
        bit_index: 0,
    }
}

/// The chain of the context in front of `pos`.
pub open spec fn context_at(d: Seq<u8>, pos: int) -> int {
    if pos < 4 {
        0
    } else {
        bytes::un_le32(d, pos - 4) % (TABLE_SIZE as int)
    }
}

/// A chain with a new place in front; the oldest one leaves.
pub open spec fn in_front(chain: Seq<u32>, pos: int) -> Seq<u32> {
    seq![pos as u32, chain[0], chain[1], chain[2]]
}

/// The chains with `pos` in front of the chain of its context.
pub open spec fn chained(t: Seq<Seq<u32>>, d: Seq<u8>, pos: int) -> Seq<Seq<u32>> {
    let c = context_at(d, pos);
    t.update(c, in_front(t[c], pos))
}

/// What a place of a chain is worth at `pos`: the place and how many bytes
/// agree, or zeros.
pub open spec fn candidate(place: u32, d: Seq<u8>, pos: int) -> (int, int) {
    if place == 0 || place >= pos {
        (0, 0)
    } else {
        (place as int, lzp::agreement(d, pos, place as int, 0))
    }
}

/// The best of the places of a chain from the `i`-th on: the one in front of
/// which the most bytes agree with the end of the history.
pub open spec fn chosen(h: Seq<u8>, chain: Seq<u32>, i: int, best: lzp::Candidate) -> lzp::Candidate
    decreases CHAIN_DEPTH - i,
{
    if i >= CHAIN_DEPTH {
        best
    } else {
        let p = chain[i] as int;
        let len = confirmed(h, p);
        if len <= best.len {
            chosen(h, chain, i + 1, best)
        } else {
            chosen(h, chain, i + 1, lzp::Candidate { len, place: p })
        }
    }
}

/// How many bytes in front of a place agree with the end of the history; none
/// where the place is none.
pub open spec fn confirmed(h: Seq<u8>, p: int) -> int {
    if p < 4 || p >= h.len() {
        0
    } else {
        lzp::shared(h, h.len() as int, p, 0)
    }
}

/// The byte that is expected behind a history.
pub open spec fn expected_byte(t: Seq<Seq<u32>>, h: Seq<u8>) -> Option<u8> {
    if h.len() < MIN_MATCH + 1 {
        None
    } else {
        let best = chosen(
            h,
            t[context_at(h, h.len() as int)],
            0,
            lzp::Candidate { len: 0, place: 0 },
        );
        if best.len >= MIN_MATCH {
            Some(h[best.place])
        } else {
            None
        }
    }
}

proof fn lemma_chosen(h: Seq<u8>, chain: Seq<u32>, i: int, best: lzp::Candidate)
    requires
        0 <= i <= CHAIN_DEPTH,
        chain.len() == CHAIN_DEPTH,
        best.len > 0 ==> exists|j: int|
            0 <= j < CHAIN_DEPTH && best.place == #[trigger] chain[j] && best.len == confirmed(
                h,
                best.place,
            ),
    ensures
        ({
            let r = chosen(h, chain, i, best);
            &&& best.len <= r.len
            &&& r.len > 0 ==> exists|j: int|
                0 <= j < CHAIN_DEPTH && r.place == #[trigger] chain[j] && r.len == confirmed(
                    h,
                    r.place,
                )
            &&& forall|j: int|
                i <= j < CHAIN_DEPTH ==> confirmed(h, #[trigger] chain[j] as int) <= r.len
        }),
    decreases CHAIN_DEPTH - i,
{
    if i < CHAIN_DEPTH {
        let p = chain[i] as int;
        let len = confirmed(h, p);
        if len <= best.len {
            lemma_chosen(h, chain, i + 1, best);
        } else {
            lemma_chosen(h, chain, i + 1, lzp::Candidate { len, place: p });
        }
    }
}

/// An expected byte follows the place of the chain with the longest confirmed
/// match: at least four bytes in front of it agree with the end of the history, and
/// in front of no other place do more. There is no expected byte only where no
/// place has four.
pub proof fn law_longest_confirmed(t: Seq<Seq<u32>>, h: Seq<u8>)
    requires
        h.len() >= MIN_MATCH + 1,
        t[context_at(h, h.len() as int)].len() == CHAIN_DEPTH,
    ensures
        ({
            let chain = t[context_at(h, h.len() as int)];
            match expected_byte(t, h) {
                Some(b) => exists|j: int|
                    0 <= j < CHAIN_DEPTH && b == h[#[trigger] chain[j] as int] && confirmed(
                        h,
                        chain[j] as int,
                    ) >= MIN_MATCH && forall|k: int|
                        0 <= k < CHAIN_DEPTH ==> confirmed(h, #[trigger] chain[k] as int)
                            <= confirmed(h, chain[j] as int),
                None => forall|k: int|
                    0 <= k < CHAIN_DEPTH ==> confirmed(h, #[trigger] chain[k] as int) < MIN_MATCH,
            }
        }),
{
    lemma_chosen(
        h,
        t[context_at(h, h.len() as int)],
        0,
        lzp::Candidate { len: 0, place: 0 },
    );
}

/// The finder with one more bit seen. A completed byte joins the history, and
/// the end of the history joins its chain.
pub open spec fn learned(s: LazyState, bit: bool) -> LazyState {
    match assembler::completed(s.bits, bit) {
        None => LazyState {
            bits: assembler::pushed(s.bits, bit),
            bit_index: s.bits.len + 1,
            ..s
        },
        Some(byte) => {
            let h = assembler::last_of(s.history.push(byte), HISTORY as int);
            LazyState {
                chains: if h.len() >= 4 {
                    chained(s.chains, h, h.len() as int)
                } else {
                    s.chains
                },
                bits: assembler::pushed(s.bits, bit),
                history: h,
                bit_index: 0,
            }
        },
    }
}

/// Match finder with short chains.
pub struct LazyLzp {
    table: Vec<[u32; 4]>,
    bits: ByteAssembler,
    history: Vec<u8>,
    bit_pos: u8,
}

impl View for LazyLzp {
    type V = LazyState;

    closed spec fn view(&self) -> LazyState {
        LazyState {
            chains: self.table@.map_values(|c: [u32; 4]| c@),
            bits: self.bits@,
            history: self.history@,
            bit_index: self.bit_pos as int,
        }
    }
}

impl LazyLzp {
    /// A finder that has seen nothing.
    pub fn new() -> (m: Self)
        ensures
            m.wf(),
            m@ == new_state(),
    {
        let m = Self {
            table: vec![[0u32; 4]; TABLE_SIZE],
            bits: ByteAssembler::new(8),
            history: Vec::new(),
            bit_pos: 0,
        };
        assert forall|i: int| 0 <= i < TABLE_SIZE implies #[trigger] m@.chains[i] == no_chain() by {
            assert(m@.chains[i] =~= no_chain());
        }
        assert(m@.chains =~= new_state().chains);
        m
    }

    fn context(data: &[u8], pos: usize) -> (c: usize)
        requires
            pos <= data@.len(),
        ensures
            c == context_at(data@, pos as int),
            c < TABLE_SIZE,
    {
        if pos < 4 {
            return 0;
        }
        let h: u32 = bytes::get_u32(data, pos - 4);
        (h % TABLE_SIZE as u32) as usize
    }

    fn agreement(data: &[u8], pos: usize, p: usize) -> (len: usize)
        requires
            p < pos <= data@.len(),
        ensures
            len == lzp::agreement(data@, pos as int, p as int, 0),
            len <= 256,
    {
        let n: usize = data.len();
        let mut len: usize = 0;
        while len <= 255 && len < n - pos && data[pos + len] == data[p + len]
            invariant
                n == data@.len(),
                p < pos <= n,
                len <= 256,
                pos + len <= n,
                lzp::agreement(data@, pos as int, p as int, 0) == lzp::agreement(
                    data@,
                    pos as int,
                    p as int,
                    len as int,
                ),
            decreases 256 - len,
        {
            len = len + 1;
        }
        len
    }

    /// What each place of the chain of `pos` is worth there: the place and how
    /// many bytes agree.
    pub fn find_candidates(&self, data: &[u8], pos: usize) -> (r: [(usize, usize); 4])
        requires
            self.wf(),
        ensures
            pos < 4 || pos >= data@.len() ==> forall|i: int|
                0 <= i < CHAIN_DEPTH ==> #[trigger] r@[i] == (0usize, 0usize),
            4 <= pos < data@.len() ==> forall|i: int|
                0 <= i < CHAIN_DEPTH ==> (#[trigger] r@[i]).0 == candidate(
                    self@.chains[context_at(data@, pos as int)][i],
                    data@,
                    pos as int,
                ).0 && r@[i].1 == candidate(
                    self@.chains[context_at(data@, pos as int)][i],
                    data@,
                    pos as int,
                ).1,
    {
        let mut found: [(usize, usize); 4] = [(0, 0), (0, 0), (0, 0), (0, 0)];
        if pos < 4 || pos >= data.len() {
            return found;
        }
        let chain: [u32; 4] = self.table[Self::context(data, pos)];
        let ghost c = context_at(data@, pos as int);
        assert(self@.chains[c] == chain@);
        let mut i: usize = 0;
        while i < 4
            invariant
                i <= 4,
                4 <= pos < data@.len(),
                forall|j: int|
                    0 <= j < i ==> (#[trigger] found@[j]).0 == candidate(
                        chain@[j],
                        data@,
                        pos as int,
                    ).0 && found@[j].1 == candidate(chain@[j], data@, pos as int).1,
            decreases 4 - i,
        {
            let place: u32 = chain[i];
            if place != 0 && (place as usize) < pos {
                let len: usize = Self::agreement(data, pos, place as usize);
                found[i] = (place as usize, len);
            } else {
                found[i] = (0, 0);
            }
            i = i + 1;
        }
        found
    }

    fn matched_byte(&self) -> (r: Option<u8>)
        requires
            self.wf(),
        ensures
            r == expected_byte(self@.chains, self@.history),
    {
        let n: usize = self.history.len();
        if n < MIN_MATCH + 1 {
            return None;
        }
        let h: &[u8] = self.history.as_slice();
        let chain: [u32; 4] = self.table[Self::context(h, n)];
        assert(self@.chains[context_at(h@, n as int)] == chain@);
        let mut best: usize = 0;
        let mut place: usize = 0;
        let mut i: usize = 0;
        let ghost goal = chosen(h@, chain@, 0, lzp::Candidate { len: 0, place: 0 });
        while i < 4
            invariant
                i <= 4,
                n == h@.len(),
                n >= 5,
                place < n,
                best <= 256,
                goal == chosen(
                    h@,
                    chain@,
                    i as int,
                    lzp::Candidate { len: best as int, place: place as int },
                ),
            decreases 4 - i,
        {
            let p: usize = chain[i] as usize;
            if p >= 4 && p < n {
                let len: usize = lzp::shared_len(h, n, p);
                if len > best {
                    best = len;
                    place = p;
                }
            }
            i = i + 1;
        }
        if best >= MIN_MATCH {
            Some(self.history[place])
        } else {
            None
        }
    }

    fn put_in_front(&mut self, c: usize, pos: usize)
        requires
            old(self).wf(),
            c < TABLE_SIZE,
        ensures
            final(self).wf(),
            final(self)@ == (LazyState {
                chains: old(self)@.chains.update(
                    c as int,
                    in_front(old(self)@.chains[c as int], pos as int),
                ),
                ..old(self)@
            }),
    {
        let chain: [u32; 4] = self.table[c];
        self.table.set(c, [pos as u32, chain[0], chain[1], chain[2]]);
        proof {
            assert(self.table@[c as int]@ =~= in_front(chain@, pos as int));
            assert(self@.chains =~= old(self)@.chains.update(
                c as int,
                in_front(old(self)@.chains[c as int], pos as int),
            ));
        }
    }

    /// Puts `pos` in front of the chain of its context.
    pub fn train(&mut self, data: &[u8], pos: usize)
        requires
            old(self).wf(),
        ensures
            final(self).wf(),
            final(self)@ == (if 4 <= pos < data@.len() {
                LazyState { chains: chained(old(self)@.chains, data@, pos as int), ..old(self)@ }
            } else {
                old(self)@
            }),
    {
        if pos < 4 || pos >= data.len() {
            return;
        }
        let c: usize = Self::context(data, pos);
        self.put_in_front(c, pos);
    }
}

impl BitModel for LazyLzp {
    closed spec fn wf(&self) -> bool {
        &&& self.table@.len() == TABLE_SIZE
        &&& self.bits.wf()
        &&& self.bits@.kept == 8
        &&& self.history@.len() <= HISTORY
        &&& self.bit_pos < 8
    }

    fn predict(&self) -> (p: u16)
        ensures
            p == lzp::expected_bit(
                expected_byte(self@.chains, self@.history),
                self@.bit_index,
            ),
    {
        match self.matched_byte() {
            None => 2048,
            Some(b) => if lzp::read_bit_from_top(b, self.bit_pos) {
                3584
            } else {
                512
            },
        }
    }

    fn update(&mut self, bit: bool)
        ensures
            final(self)@ == learned(old(self)@, bit),
    {
        match self.bits.push_bit(bit) {
            Some(byte) => {
                if self.history.len() == HISTORY {
                    self.history.remove(0);
                }
                self.history.push(byte);
                assert(self.history@ =~= assembler::last_of(
                    old(self).history@.push(byte),
                    HISTORY as int,
                ));
                self.bit_pos = 0;
                let n: usize = self.history.len();
                if n >= 4 {
                    let c: usize = Self::context(self.history.as_slice(), n);
                    self.put_in_front(c, n);
                }
            },
            None => {
                self.bit_pos = self.bits.nbits();
            },
        }
        assert(self@ =~= learned(old(self)@, bit));
    }

    fn reset(&mut self)
        ensures
            final(self)@ == new_state(),
    {
        let fresh: LazyLzp = LazyLzp::new();
        self.table = fresh.table;
        self.bits.reset();
        self.history.clear();
        self.bit_pos = 0;
    }
}

impl Default for LazyLzp {
    fn default() -> (m: Self)
        ensures
            m.wf(),
            m@ == new_state(),
    {
        Self::new()
    }
}

} // verus!
