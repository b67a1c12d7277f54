//! Which orders answer, what an escape leaves behind, when a pair gets its symbol, and
//! what the models expect behind a history that came up before.

use crate::model::assembler;
use crate::model::ctable;
use crate::model::dense;
use crate::model::indirect_dmc;
use crate::model::lazy_lzp;
use crate::model::lzp;
use crate::model::pairs;
use crate::model::ppm;
use crate::model::ppmd_ssm;
use crate::model::word;
use vstd::prelude::*;

verus! {

/// Whether an order has seen both bit values: more than 32 counts of each.
pub open spec fn knows_both(s: ppmd_ssm::PpmdState, order: int) -> bool {
    let c = ppm::counts_at(s.bits, s.orders, order);
    c.zeros > 32 && c.ones > 32
}

/// The order that answers is the highest one, up to `top`, that has seen both bit
/// values; none answers only where none has.
pub proof fn law_highest_order_answers(s: ppmd_ssm::PpmdState, top: int)
    requires
        -1 <= top <= 8,
    ensures
        match ppmd_ssm::walk(s, top).answered {
            Some(k) => 0 <= k <= top && knows_both(s, k as int) && forall|j: int|
                k < j <= top ==> !#[trigger] knows_both(s, j),
            None => forall|j: int| 0 <= j <= top ==> !#[trigger] knows_both(s, j),
        },
    decreases top + 1,
{
    if top >= 0 {
        law_highest_order_answers(s, top - 1);
        let w = ppmd_ssm::walk(s, top);
        if knows_both(s, top) {
            assert(w.answered == Some(top as usize));
        } else {
            assert(w.answered == ppmd_ssm::walk(s, top - 1).answered);
        }
    }
}

/// The first thing consulted is the highest order whose context was visited, with
/// what it counted.
pub proof fn law_highest_visited_first(s: ppmd_ssm::PpmdState, top: int)
    requires
        0 <= top <= 8,
        ppm::counts_at(s.bits, s.orders, top).zeros != 32 || ppm::counts_at(
            s.bits,
            s.orders,
            top,
        ).ones != 32,
    ensures
        ({
            let w = ppmd_ssm::walk(s, top);
            let c = ppm::counts_at(s.bits, s.orders, top);
            &&& w.steps.len() > 0
            &&& w.steps[0].order == top
            &&& w.steps[0].zeros == c.zeros
            &&& w.steps[0].ones == c.ones
        }),
{
}

/// An escape raises a state by one, up to 15, and an answer lowers it by one, down
/// to 0; so states lie in that range, and an escape and an answer cancel out.
pub proof fn law_escape_states(state: u8)
    requires
        state <= 15,
    ensures
        state < 15 ==> ppmd_ssm::see_after(state, true) == state + 1,
        state == 15 ==> ppmd_ssm::see_after(state, true) == 15,
        state > 0 ==> ppmd_ssm::see_after(state, false) == state - 1,
        state == 0 ==> ppmd_ssm::see_after(state, false) == 0,
        state < 15 ==> ppmd_ssm::see_after(ppmd_ssm::see_after(state, true), false) == state,
{
}

proof fn lemma_escape_slot(b: assembler::Bits, order: int)
    requires
        0 <= order < 9,
    ensures
        ppmd_ssm::see_slot(b, order) / 65536 == order,
        0 <= ppmd_ssm::see_slot(b, order) < 9 * 65536,
{
    let h = ppmd_ssm::see_hash(dense::dense_key(b, order), b.len) % 65536;
    assert(ppmd_ssm::see_slot(b, order) == order * 65536 + h);
}

proof fn lemma_passed_over(see: Seq<u8>, b: assembler::Bits, escaped: Seq<usize>, k: int)
    requires
        see.len() == 9 * 65536,
        forall|i: int| 0 <= i < escaped.len() ==> #[trigger] escaped[i] < 9,
        forall|i: int, j: int|
            0 <= i < j < escaped.len() ==> #[trigger] escaped[i] != #[trigger] escaped[j],
        0 <= k < 9,
    ensures
        ({
            let after = ppmd_ssm::passed_over(see, b, escaped);
            let at = ppmd_ssm::see_slot(b, k);
            &&& after.len() == see.len()
            &&& escaped.contains(k as usize) ==> after[at] == ppmd_ssm::see_after(see[at], true)
            &&& !escaped.contains(k as usize) ==> after[at] == see[at]
        }),
    decreases escaped.len(),
{
    if escaped.len() > 0 {
        let front = escaped.drop_last();
        let last = escaped.last();
        assert(last == escaped[escaped.len() - 1]);
        lemma_passed_over(see, b, front, k);
        lemma_passed_over(see, b, front, last as int);
        lemma_escape_slot(b, k);
        lemma_escape_slot(b, last as int);
        assert(!front.contains(last));
        if escaped.contains(k as usize) && k != last {
            let i = choose|i: int| 0 <= i < escaped.len() && escaped[i] == k as usize;
            assert(front[i] == k as usize);
        }
        if front.contains(k as usize) {
            let i = choose|i: int| 0 <= i < front.len() && front[i] == k as usize;
            assert(escaped[i] == k as usize);
        }
        if k == last {
            assert(escaped[escaped.len() - 1] == k as usize);
        }
    }
}

/// With a bit, each order that was passed over raises its escape state by one, up to
/// 15, the one that answered lowers its own by one, down to 0, and the others keep
/// theirs; each sparse context counts the bit.
pub proof fn law_escapes_are_learned(s: ppmd_ssm::PpmdState, bit: bool, k: int)
    requires
        s.see.len() == 9 * 65536,
        forall|i: int| 0 <= i < s.escaped.len() ==> #[trigger] s.escaped[i] < 9,
        forall|i: int, j: int|
            0 <= i < j < s.escaped.len() ==> #[trigger] s.escaped[i] != #[trigger] s.escaped[j],
        s.answered matches Some(a) ==> a < 9 && !s.escaped.contains(a),
        0 <= k < 9,
        s.see[ppmd_ssm::see_slot(s.bits, k)] <= 15,
    ensures
        ({
            let after = ppmd_ssm::learned(s, bit);
            let at = ppmd_ssm::see_slot(s.bits, k);
            let state = s.see[at];
            after.see[at] == if s.escaped.contains(k as usize) {
                if state < 15 {
                    state + 1
                } else {
                    15
                }
            } else if s.answered == Some(k as usize) {
                if state > 0 {
                    state - 1
                } else {
                    0
                }
            } else {
                state as int
            }
        }),
        forall|i: int|
            0 <= i < s.sparse.len() ==> #[trigger] ppmd_ssm::learned(s, bit).sparse[i]
                == ctable::counted(s.sparse[i], ppmd_ssm::sparse_key(s.bits, i), bit),
{
    lemma_passed_over(s.see, s.bits, s.escaped, k);
    lemma_escape_slot(s.bits, k);
    if s.answered is Some {
        let a = s.answered->Some_0 as int;
        lemma_passed_over(s.see, s.bits, s.escaped, a);
        lemma_escape_slot(s.bits, a);
    }
}

proof fn lemma_skipping_key(s: assembler::Bits, i: int, a: int, b: int)
    requires
        s.recent.len() == 8,
        0 <= s.len < 8,
        i == 0 && a == 4 && b == 3 || i == 1 && a == 5 && b == 2 || i == 2 && a == 5 && b == 4,
    ensures
        ppmd_ssm::sparse_key(s, i) == (((s.recent[7] * 0x100 + s.recent[6]) * 0x100 + s.recent[a])
            * 0x100 + s.recent[b]) * 8 + s.len,
{
    let o = ppmd_ssm::pattern(i);
    assert(o[0] == 0 && o[1] == 1 && o[2] == 7 - a && o[3] == 7 - b);
    assert(ppmd_ssm::picked(s.recent, o, 0) == 0);
    assert(ppmd_ssm::picked(s.recent, o, 1) == s.recent[7]);
    assert(ppmd_ssm::picked(s.recent, o, 2) == s.recent[7] * 0x100 + s.recent[6]);
    assert(ppmd_ssm::picked(s.recent, o, 3) == (s.recent[7] * 0x100 + s.recent[6]) * 0x100
        + s.recent[a]);
    assert(ppmd_ssm::picked(s.recent, o, 4) == ((s.recent[7] * 0x100 + s.recent[6]) * 0x100
        + s.recent[a]) * 0x100 + s.recent[b]);
}

proof fn lemma_skipping_context(s: assembler::Bits, t: assembler::Bits, i: int, a: int, b: int)
    requires
        s.recent.len() == 8,
        t.recent.len() == 8,
        0 <= s.len < 8,
        0 <= t.len < 8,
        i == 0 && a == 4 && b == 3 || i == 1 && a == 5 && b == 2 || i == 2 && a == 5 && b == 4,
    ensures
        ppmd_ssm::sparse_key(s, i) == ppmd_ssm::sparse_key(t, i) <==> s.len == t.len && s.recent[7]
            == t.recent[7] && s.recent[6] == t.recent[6] && s.recent[a] == t.recent[a]
            && s.recent[b] == t.recent[b],
{
    lemma_skipping_key(s, i, a, b);
    lemma_skipping_key(t, i, a, b);
    if ppmd_ssm::sparse_key(s, i) == ppmd_ssm::sparse_key(t, i) {
        let x = s.recent[7] * 0x100 + s.recent[6];
        let y = t.recent[7] * 0x100 + t.recent[6];
        let v = x * 0x100 + s.recent[a];
        let w = y * 0x100 + t.recent[a];
        dense::lemma_digits(v * 0x100 + s.recent[b], s.len, w * 0x100 + t.recent[b], t.len, 8);
        dense::lemma_digits(v, s.recent[b] as int, w, t.recent[b] as int, 0x100);
        dense::lemma_digits(x, s.recent[a] as int, y, t.recent[a] as int, 0x100);
        dense::lemma_digits(
            s.recent[7] as int,
            s.recent[6] as int,
            t.recent[7] as int,
            t.recent[6] as int,
            0x100,
        );
    }
}

/// The sparse contexts of a full history: two have the last two bytes, one of the
/// bytes behind them skipped or not; two histories share one exactly if they agree
/// in those bytes and in the bit position.
pub proof fn law_skipping_contexts(s: assembler::Bits, t: assembler::Bits)
    requires
        s.recent.len() == 8,
        t.recent.len() == 8,
        0 <= s.len < 8,
        0 <= t.len < 8,
    ensures
        ({
            let near = s.len == t.len && s.recent[7] == t.recent[7] && s.recent[6] == t.recent[6];
            &&& ppmd_ssm::sparse_key(s, 0) == ppmd_ssm::sparse_key(t, 0) <==> near && s.recent[4]
                == t.recent[4] && s.recent[3] == t.recent[3]
            &&& ppmd_ssm::sparse_key(s, 1) == ppmd_ssm::sparse_key(t, 1) <==> near && s.recent[5]
                == t.recent[5] && s.recent[2] == t.recent[2]
            &&& ppmd_ssm::sparse_key(s, 2) == ppmd_ssm::sparse_key(t, 2) <==> near && s.recent[5]
                == t.recent[5] && s.recent[4] == t.recent[4]
        }),
{
    lemma_skipping_context(s, t, 0, 4, 3);
    lemma_skipping_context(s, t, 1, 5, 2);
    lemma_skipping_context(s, t, 2, 5, 4);
}

/// A dictionary behind `n` occurrences of a pair.
pub open spec fn seen_pair(p: pairs::Pairs, pair: [u8; 2], n: nat) -> pairs::Pairs
    decreases n,
{
    if n == 0 {
        p
    } else {
        pairs::recorded(seen_pair(p, pair, (n - 1) as nat), pair)
    }
}

proof fn lemma_recorded(p: pairs::Pairs, pair: [u8; 2], k: int)
    requires
        p.counts.len() == 65536,
        p.ids.len() == 65536,
        p.entries.len() < 2048,
        k == pair@[0] * 256 + pair@[1],
        p.counts[k] < 4,
        p.ids[k] is None,
    ensures
        ({
            let q = pairs::recorded(p, pair);
            &&& q.counts == p.counts.update(k, (p.counts[k] + 1) as u32)
            &&& p.counts[k] < 3 ==> q.ids == p.ids && q.entries == p.entries
            &&& p.counts[k] == 3 ==> q.ids == p.ids.update(k, Some(p.entries.len() as u16))
                && q.entries.len() == p.entries.len() + 1 && q.entries.last().pair == pair
        }),
{
    assert(pairs::pair_number(pair@) == k);
}

/// A pair that was not seen before gets its symbol at the fourth occurrence, the next
/// one in order, and not earlier; the other pairs stay as they are. There are up to
/// 2048 symbols.
pub proof fn law_fourth_occurrence_counts(p: pairs::Pairs, pair: [u8; 2])
    requires
        pairs::consistent(p),
        p.entries.len() < 2048,
        p.counts[pair@[0] * 256 + pair@[1]] == 0,
    ensures
        ({
            let k = pair@[0] * 256 + pair@[1];
            let three = seen_pair(p, pair, 3);
            let four = seen_pair(p, pair, 4);
            &&& three.ids[k] is None
            &&& three.entries == p.entries
            &&& four.ids[k] == Some(p.entries.len() as u16)
            &&& four.entries.len() == p.entries.len() + 1
            &&& four.entries.last().pair == pair
            &&& forall|j: int| 0 <= j < 65536 && j != k ==> #[trigger] four.ids[j] == p.ids[j]
        }),
{
    let k = pair@[0] * 256 + pair@[1];
    assert(0 <= k < 65536);
    assert(p.ids[k] is Some <==> p.counts[k] >= pairs::PROMOTE_AT);
    let one = pairs::recorded(p, pair);
    let two = pairs::recorded(one, pair);
    let three = pairs::recorded(two, pair);
    let four = pairs::recorded(three, pair);
    lemma_recorded(p, pair, k);
    lemma_recorded(one, pair, k);
    lemma_recorded(two, pair, k);
    lemma_recorded(three, pair, k);
    reveal_with_fuel(seen_pair, 5);
    assert(seen_pair(p, pair, 1) == one);
    assert(seen_pair(p, pair, 2) == two);
    assert(seen_pair(p, pair, 3) == three);
    assert(seen_pair(p, pair, 4) == four);
}

/// A full dictionary records nothing more.
pub proof fn law_full_dictionary(p: pairs::Pairs, pair: [u8; 2])
    requires
        p.entries.len() >= 2048,
    ensures
        pairs::recorded(p, pair) == p,
{
}

/// Within the threshold, two contexts of the model with a widening context are one
/// exactly if the last two bytes and the bit position agree; beyond it, exactly if
/// the last three and the bit position do.
pub proof fn law_dmc_context(s: indirect_dmc::DmcState, t: indirect_dmc::DmcState)
    requires
        0 <= s.bits.len < 8,
        0 <= t.bits.len < 8,
        s.bits.recent.len() >= 3,
        t.bits.recent.len() >= 3,
        s.wrong > s.threshold <==> t.wrong > t.threshold,
    ensures
        ({
            let n = s.bits.recent.len();
            let m = t.bits.recent.len();
            let two = s.bits.len == t.bits.len && s.bits.recent[n - 1] == t.bits.recent[m - 1]
                && s.bits.recent[n - 2] == t.bits.recent[m - 2];
            let three = two && s.bits.recent[n - 3] == t.bits.recent[m - 3];
            indirect_dmc::dmc_context(s) == indirect_dmc::dmc_context(t) <==> if s.wrong
                > s.threshold {
                three
            } else {
                two
            }
        }),
{
    let n = s.bits.recent.len();
    let m = t.bits.recent.len();
    let (x, y, z) = (s.bits.recent[n - 1], s.bits.recent[n - 2], s.bits.recent[n - 3]);
    let (u, v, w) = (t.bits.recent[m - 1], t.bits.recent[m - 2], t.bits.recent[m - 3]);
    let low = x * 8 + s.bits.len;
    let end = u * 8 + t.bits.len;
    if indirect_dmc::dmc_context(s) == indirect_dmc::dmc_context(t) {
        if s.wrong > s.threshold {
            assert(indirect_dmc::dmc_context(s) == 0x1_0000_0000 + (y * 0x100 + z) * 0x800 + low);
            assert(indirect_dmc::dmc_context(t) == 0x1_0000_0000 + (v * 0x100 + w) * 0x800 + end);
            dense::lemma_digits(y * 0x100 + z, low, v * 0x100 + w, end, 0x800);
            dense::lemma_digits(y as int, z as int, v as int, w as int, 0x100);
        } else {
            assert(indirect_dmc::dmc_context(s) == y * 0x1_0000 + low);
            assert(indirect_dmc::dmc_context(t) == v * 0x1_0000 + end);
            dense::lemma_digits(y as int, low, v as int, end, 0x1_0000);
        }
        dense::lemma_digits(x as int, s.bits.len, u as int, t.bits.len, 8);
    }
}

/// A guess is right where the likelier value came, a one only above even odds. A
/// right guess ends a run of wrong ones; a wrong one makes it longer by one.
pub proof fn law_wrong_guesses(s: indirect_dmc::DmcState, bit: bool)
    requires
        0 <= s.wrong < 0xFFFF,
    ensures
        ({
            let p = ctable::prob_of(ctable::under(s.table, indirect_dmc::dmc_context(s)));
            let after = indirect_dmc::dmc_learned(s, bit);
            &&& p > 2048 && bit || p <= 2048 && !bit ==> after.wrong == 0
            &&& p > 2048 && !bit || p <= 2048 && bit ==> after.wrong == s.wrong + 1
            &&& after.table == ctable::counted(s.table, indirect_dmc::dmc_context(s), bit)
        }),
{
}

/// The indirect model tells apart what last followed the history, the last byte and
/// the bit position.
pub proof fn law_indirect_context(
    s: indirect_dmc::IndirectState,
    t: indirect_dmc::IndirectState,
)
    requires
        0 <= s.bits.len < 8,
        0 <= t.bits.len < 8,
        s.bits.recent.len() >= 1,
        t.bits.recent.len() >= 1,
    ensures
        indirect_dmc::indirect_context(s) == indirect_dmc::indirect_context(t) <==> s.bits.len
            == t.bits.len && s.bits.recent.last() == t.bits.recent.last()
            && s.followers[indirect_dmc::history_slot(s.bits.recent, s.order)]
            == t.followers[indirect_dmc::history_slot(t.bits.recent, t.order)],
{
    let x = s.bits.recent.last();
    let u = t.bits.recent.last();
    let a = s.followers[indirect_dmc::history_slot(s.bits.recent, s.order)];
    let b = t.followers[indirect_dmc::history_slot(t.bits.recent, t.order)];
    if indirect_dmc::indirect_context(s) == indirect_dmc::indirect_context(t) {
        dense::lemma_digits(
            a as int,
            x * 8 + s.bits.len,
            b as int,
            u * 8 + t.bits.len,
            0x1_0000,
        );
        dense::lemma_digits(x as int, s.bits.len, u as int, t.bits.len, 8);
    }
}

/// Histories that end in the same two bytes have one follower in a model of order 2.
pub proof fn law_same_history_same_follower(s: Seq<u8>, t: Seq<u8>)
    requires
        s.len() >= 2,
        t.len() >= 2,
        s[s.len() - 1] == t[t.len() - 1],
        s[s.len() - 2] == t[t.len() - 2],
    ensures
        indirect_dmc::history_slot(s, 2) == indirect_dmc::history_slot(t, 2),
{
    let a = assembler::last_of(s, 2);
    let b = assembler::last_of(t, 2);
    assert(a[0] == b[0] && a[1] == b[1]);
    assert(a =~= b);
}

/// The hash of two bytes is 131 times the first one and the second.
pub proof fn law_history_hash(s: Seq<u8>)
    requires
        s.len() == 2,
    ensures
        indirect_dmc::rolled(s) == 131 * s[0] + s[1],
{
    reveal_with_fuel(indirect_dmc::rolled, 4);
    let a = s.drop_last();
    assert(a.drop_last() =~= Seq::<u8>::empty());
    assert(a.last() == s[0]);
    assert(indirect_dmc::rolled(a) == s[0] as u64);
    assert((131 * s[0] + s[1]) % (dense::WORD as int) == 131 * s[0] + s[1]);
}

/// The indirect model counts each bit under the context in front of it.
pub proof fn law_indirect_counts(s: indirect_dmc::IndirectState, bit: bool)
    ensures
        indirect_dmc::indirect_learned(s, bit).table == ctable::counted(
            s.table,
            indirect_dmc::indirect_context(s),
            bit,
        ),
        indirect_dmc::indirect_learned(s, bit).bits == assembler::pushed(s.bits, bit),
{
}

/// A completed byte is recorded as a pair with the byte before it, and spells a word.
pub proof fn law_pairs_are_recorded(s: word::WordState, bit: bool, last: u8, byte: u8)
    requires
        s.prev == Some(last),
        assembler::completed(s.bits, bit) == Some(byte),
    ensures
        word::learned(s, bit).pairs == pairs::recorded(s.pairs, [last, byte]),
        word::learned(s, bit).prev == Some(byte),
        word::learned(s, bit).words == word::spelled(s.words, s.current, byte).0,
        word::learned(s, bit).current == word::spelled(s.words, s.current, byte).1,
{
}

/// A pair with a symbol is replaced by 128 and the symbol, where its second byte is a
/// small letter, a digit or a space; a pair without one is not.
pub proof fn law_symbol_replaces_pair(s: word::WordState, last: u8, b: u8)
    requires
        s.prev == Some(last),
        0x61 <= b <= 0x7A || 0x30 <= b <= 0x39 || b == 0x20,
    ensures
        word::substitute(s, b) == match s.pairs.ids[last * 256 + b] {
            Some(id) => Some(128 + id),
            None => None,
        },
{
}

/// The match model keeps the last 4 MiB, the new byte at their end.
pub proof fn law_last_bytes_are_kept(h: Seq<u8>, b: u8)
    requires
        h.len() <= 0x40_0000,
    ensures
        lzp::remembered(h, b) == if h.len() < 0x40_0000 {
            h.push(b)
        } else {
            h.drop_first().push(b)
        },
{
    assert(h.push(b).skip(1) =~= h.drop_first().push(b) || h.len() == 0);
}

proof fn lemma_shared_reaches(h: Seq<u8>, a: int, b: int, k: int, n: int)
    requires
        0 <= k <= n <= 256,
        n <= a,
        n <= b,
        a <= h.len(),
        b <= h.len(),
        forall|j: int| 0 <= j < n ==> #[trigger] h[a - 1 - j] == h[b - 1 - j],
    ensures
        lzp::shared(h, a, b, k) >= n,
    decreases n - k,
{
    if k < n {
        assert(h[a - 1 - k] == h[b - 1 - k]);
        lemma_shared_reaches(h, a, b, k + 1, n);
    } else {
        lemma_shared_grows(h, a, b, k);
    }
}

proof fn lemma_shared_grows(h: Seq<u8>, a: int, b: int, k: int)
    requires
        0 <= k <= 256,
    ensures
        lzp::shared(h, a, b, k) >= k,
    decreases 256 - k,
{
    if !(k > 255 || k >= a || k >= b || h[a - 1 - k] != h[b - 1 - k]) {
        lemma_shared_grows(h, a, b, k + 1);
    }
}

/// Where the last four bytes of a history, or more, stood in front of a place of their
/// chain before, some byte is expected, and it followed a place in front of which at
/// least as many bytes agree.
pub proof fn law_repeat_is_expected(t: Seq<Seq<u32>>, h: Seq<u8>, j: int, n: int)
    requires
        h.len() >= 5,
        4 <= n <= 256,
        0 <= j < 4,
        ({
            let chain = t[lazy_lzp::context_at(h, h.len() as int)];
            &&& chain.len() == 4
            &&& n <= chain[j] < h.len()
            &&& forall|k: int|
                0 <= k < n ==> #[trigger] h[h.len() - 1 - k] == h[chain[j] as int - 1 - k]
        }),
    ensures
        ({
            let chain = t[lazy_lzp::context_at(h, h.len() as int)];
            lazy_lzp::expected_byte(t, h) matches Some(b) && exists|i: int|
                0 <= i < 4 && b == h[#[trigger] chain[i] as int] && lzp::shared(
                    h,
                    h.len() as int,
                    chain[i] as int,
                    0,
                ) >= n
        }),
{
    let chain = t[lazy_lzp::context_at(h, h.len() as int)];
    lazy_lzp::law_longest_confirmed(t, h);
    lemma_shared_reaches(h, h.len() as int, chain[j] as int, 0, n);
    assert(lazy_lzp::confirmed(h, chain[j] as int) >= n);
    let b = lazy_lzp::expected_byte(t, h)->Some_0;
    let i = choose|i: int|
        0 <= i < lazy_lzp::CHAIN_DEPTH && b == h[#[trigger] chain[i] as int]
            && lazy_lzp::confirmed(h, chain[i] as int) >= lazy_lzp::MIN_MATCH && forall|k: int|
            0 <= k < lazy_lzp::CHAIN_DEPTH ==> lazy_lzp::confirmed(h, #[trigger] chain[k] as int)
                <= lazy_lzp::confirmed(h, chain[i] as int);
    assert(lazy_lzp::confirmed(h, chain[i] as int) >= lazy_lzp::confirmed(h, chain[j] as int));
}

proof fn lemma_agreement_counts(d: Seq<u8>, pos: int, p: int, k: int, n: int)
    requires
        0 <= k <= n <= 256,
        0 <= p < pos,
        pos + n <= d.len(),
        forall|j: int| 0 <= j < n ==> #[trigger] d[pos + j] == d[p + j],
        n == 256 || pos + n == d.len() || d[pos + n] != d[p + n],
    ensures
        lzp::agreement(d, pos, p, k) == n,
    decreases n - k,
{
    if k < n {
        assert(d[pos + k] == d[p + k]);
        lemma_agreement_counts(d, pos, p, k + 1, n);
    }
}

/// A place of a chain that lies before `pos`, however far, is a candidate with as many
/// bytes as agree from both on, up to 256; place 0 and later ones are none.
pub proof fn law_candidates(d: Seq<u8>, pos: int, place: u32, n: int)
    requires
        0 < place < pos,
        0 <= n <= 256,
        pos + n <= d.len(),
        forall|j: int| 0 <= j < n ==> #[trigger] d[pos + j] == d[place + j],
        n == 256 || pos + n == d.len() || d[pos + n] != d[place + n],
    ensures
        lazy_lzp::candidate(place, d, pos) == (place as int, n),
        lazy_lzp::candidate(0, d, pos) == (0int, 0int),
{
    lemma_agreement_counts(d, pos, place as int, 0, n);
}

/// Two places with the same four bytes in front of them have one chain, and of a chain
/// the last four places are kept, the latest one first.
pub proof fn law_latest_places(t: Seq<Seq<u32>>, d: Seq<u8>, p: int, q: int)
    requires
        4 <= p <= d.len() <= u32::MAX,
        4 <= q <= d.len(),
        d[p - 4] == d[q - 4],
        d[p - 3] == d[q - 3],
        d[p - 2] == d[q - 2],
        d[p - 1] == d[q - 1],
        t.len() == 262144,
    ensures
        ({
            let c = lazy_lzp::context_at(d, q);
            let after = lazy_lzp::chained(t, d, p);
            &&& 0 <= c < 262144
            &&& after[c].len() == 4
            &&& after[c][0] == p
            &&& after[c][1] == t[c][0]
            &&& after[c][2] == t[c][1]
            &&& after[c][3] == t[c][2]
        }),
{
    assert(lazy_lzp::context_at(d, q) == lazy_lzp::context_at(d, p));
}

/// The match finder keeps the last mebibyte, the completed byte at its end.
pub proof fn law_last_mebibyte_is_kept(s: lazy_lzp::LazyState, bit: bool, byte: u8)
    requires
        assembler::completed(s.bits, bit) == Some(byte),
        s.history.len() <= 0x10_0000,
    ensures
        ({
            let h = lazy_lzp::learned(s, bit).history;
            h == if s.history.len() < 0x10_0000 {
                s.history.push(byte)
            } else {
                s.history.drop_first().push(byte)
            }
        }),
{
    assert(s.history.push(byte).skip(1) =~= s.history.drop_first().push(byte)
        || s.history.len() == 0);
}

/// An expected byte says seven to one for its bit, from the most significant one on;
/// without one the odds are even.
pub proof fn law_expected_bit(
    b7: bool,
    b6: bool,
    b5: bool,
    b4: bool,
    b3: bool,
    b2: bool,
    b1: bool,
    b0: bool,
    byte: u8,
    k: int,
)
    requires
        0 <= k < 8,
        byte == (if b7 { 128int } else { 0 }) + (if b6 { 64int } else { 0 }) + (if b5 { 32int } else {
            0
        }) + (if b4 { 16int } else { 0 }) + (if b3 { 8int } else { 0 }) + (if b2 { 4int } else { 0 })
            + (if b1 { 2int } else { 0 }) + (if b0 { 1int } else { 0 }),
    ensures
        lzp::expected_bit(None, k) == 2048,
        lzp::expected_bit(Some(byte), k) == if k == 0 && b7 || k == 1 && b6 || k == 2 && b5 || k == 3
            && b4 || k == 4 && b3 || k == 5 && b2 || k == 6 && b1 || k == 7 && b0 {
            3584u16
        } else {
            512
        },
{
    reveal_with_fuel(assembler::two_to, 9);
    assert(assembler::two_to(7) == 128 && assembler::two_to(6) == 64 && assembler::two_to(5) == 32
        && assembler::two_to(4) == 16 && assembler::two_to(3) == 8 && assembler::two_to(2) == 4
        && assembler::two_to(1) == 2 && assembler::two_to(0) == 1);
    let v = byte as int;
    assert(v / 128 % 2 == if b7 { 1int } else { 0 });
    assert(v / 64 % 2 == if b6 { 1int } else { 0 });
    assert(v / 32 % 2 == if b5 { 1int } else { 0 });
    assert(v / 16 % 2 == if b4 { 1int } else { 0 });
    assert(v / 8 % 2 == if b3 { 1int } else { 0 });
    assert(v / 4 % 2 == if b2 { 1int } else { 0 });
    assert(v / 2 % 2 == if b1 { 1int } else { 0 });
    assert(v / 1 % 2 == if b0 { 1int } else { 0 });
    assert((7 - k) as nat == 7 - k);
    if k < 4 {
        assert(k == 0 || k == 1 || k == 2 || k == 3);
    } else {
        assert(k == 4 || k == 5 || k == 6 || k == 7);
    }
}

} // verus!
