//! What bit counts come to after bits were seen, and which histories the contexts of
//! the models tell apart.

use crate::model::assembler;
use crate::model::ctable;
use crate::model::dense;
use crate::model::exec;
use crate::model::indirect_dmc;
use crate::model::mixer;
use crate::model::order;
use crate::model::ppm;
use crate::model::ppmd_ssm;
use crate::model::sparse;
use crate::model::word;
use vstd::prelude::*;

verus! {

/// A table behind `zeros` bits 0 and then `ones` bits 1 in one context.
pub open spec fn seen_under(t: Seq<ctable::Counts>, ctx: u64, zeros: nat, ones: nat) -> Seq<
    ctable::Counts,
>
    decreases zeros + ones,
{
    if ones > 0 {
        ctable::counted(seen_under(t, ctx, zeros, (ones - 1) as nat), ctx, true)
    } else if zeros > 0 {
        ctable::counted(seen_under(t, ctx, (zeros - 1) as nat, 0), ctx, false)
    } else {
        t
    }
}

/// A context of a fresh table that saw so many zeros and so many ones counts each bit
/// once, on top of 32 of each value, and predicts the share of ones in that, of
/// 4095.
pub proof fn law_bits_are_counted(n: int, ctx: u64, zeros: nat, ones: nat)
    requires
        0 < n,
        zeros + ones < 0x1000_0000,
    ensures
        ({
            let c = ctable::under(seen_under(ctable::fresh(n), ctx, zeros, ones), ctx);
            let p = ctable::prob_of(c);
            &&& c.zeros == 32 + zeros
            &&& c.ones == 32 + ones
            &&& p > 1 ==> p * (64 + zeros + ones) <= 4095 * (32 + ones)
            &&& 4095 * (32 + ones) < (p + 1) * (64 + zeros + ones)
        }),
    decreases zeros + ones,
{
    lemma_seen_len(ctable::fresh(n), ctx, zeros, ones);
    assert(0 <= ctable::slot_of(ctx, n) < n);
    if ones > 0 {
        law_bits_are_counted(n, ctx, zeros, (ones - 1) as nat);
        lemma_seen_len(ctable::fresh(n), ctx, zeros, (ones - 1) as nat);
    } else if zeros > 0 {
        law_bits_are_counted(n, ctx, (zeros - 1) as nat, 0);
        lemma_seen_len(ctable::fresh(n), ctx, (zeros - 1) as nat, 0);
    }
    let c = ctable::under(seen_under(ctable::fresh(n), ctx, zeros, ones), ctx);
    assert(c.zeros == 32 + zeros && c.ones == 32 + ones);
    let total: int = 64 + zeros as int + ones as int;
    let a: int = 4095 * (32 + ones as int);
    assert(c.ones * 4095 == a);
    assert(0 <= a / total <= 4095) by (nonlinear_arith)
        requires
            0 < total,
            0 <= a <= 4095 * total,
    ;
    assert((a / total) * total <= a && a < (a / total + 1) * total) by (nonlinear_arith)
        requires
            0 < total,
            0 <= a,
    ;
    let p = ctable::prob_of(c);
    if a / total < 1 {
        assert(p == 1);
        let q = a / total;
        assert(q == 0);
        assert(a < total) by (nonlinear_arith)
            requires
                q == 0,
                a < (q + 1) * total,
        ;
        assert((p + 1) * total == 2 * total) by (nonlinear_arith)
            requires
                p == 1,
        ;
    } else {
        assert(p == a / total);
    }
}

proof fn lemma_seen_len(t: Seq<ctable::Counts>, ctx: u64, zeros: nat, ones: nat)
    requires
        t.len() > 0,
    ensures
        seen_under(t, ctx, zeros, ones).len() == t.len(),
    decreases zeros + ones,
{
    assert(0 <= ctable::slot_of(ctx, t.len() as int) < t.len());
    if ones > 0 {
        lemma_seen_len(t, ctx, zeros, (ones - 1) as nat);
    } else if zeros > 0 {
        lemma_seen_len(t, ctx, (zeros - 1) as nat, 0);
    }
}

/// A bit that is counted in one bucket leaves the contexts of the others as they are.
pub proof fn law_other_contexts_stay(t: Seq<ctable::Counts>, ctx: u64, bit: bool, other: u64)
    requires
        t.len() > 0,
        ctable::slot_of(other, t.len() as int) != ctable::slot_of(ctx, t.len() as int),
    ensures
        ctable::under(ctable::counted(t, ctx, bit), other) == ctable::under(t, other),
{
    assert(0 <= ctable::slot_of(other, t.len() as int) < t.len());
    assert(0 <= ctable::slot_of(ctx, t.len() as int) < t.len());
}

/// Eight bits in a row are the byte that they spell, the most significant one first,
/// behind the bytes before it.
pub proof fn law_eight_bits_are_a_byte(
    b: assembler::Bits,
    b7: bool,
    b6: bool,
    b5: bool,
    b4: bool,
    b3: bool,
    b2: bool,
    b1: bool,
    b0: bool,
    byte: u8,
)
    requires
        b.len == 0,
        b.part == 0,
        b.recent.len() <= b.kept,
        byte == (if b7 { 128int } else { 0 }) + (if b6 { 64int } else { 0 }) + (if b5 { 32int } else {
            0
        }) + (if b4 { 16int } else { 0 }) + (if b3 { 8int } else { 0 }) + (if b2 { 4int } else { 0 })
            + (if b1 { 2int } else { 0 }) + (if b0 { 1int } else { 0 }),
    ensures
        ({
            let c4 = assembler::pushed(
                assembler::pushed(assembler::pushed(assembler::pushed(b, b7), b6), b5),
                b4,
            );
            let c8 = assembler::pushed(
                assembler::pushed(assembler::pushed(assembler::pushed(c4, b3), b2), b1),
                b0,
            );
            &&& c8.len == 0
            &&& c8.part == 0
            &&& b.recent.len() < b.kept ==> c8.recent == b.recent.push(byte)
            &&& 0 < b.recent.len() == b.kept ==> c8.recent == b.recent.drop_first().push(byte)
        }),
{
}

proof fn lemma_big_endian_range(s: Seq<u8>)
    requires
        s.len() <= 7,
    ensures
        0 <= dense::big_endian(s) < 0x100_0000_0000_0000,
        s.len() <= 6 ==> dense::big_endian(s) < 0x1_0000_0000_0000,
        s.len() <= 5 ==> dense::big_endian(s) < 0x100_0000_0000,
        s.len() <= 4 ==> dense::big_endian(s) < 0x1_0000_0000,
        s.len() <= 3 ==> dense::big_endian(s) < 0x100_0000,
        s.len() <= 2 ==> dense::big_endian(s) < 0x1_0000,
        s.len() <= 1 ==> dense::big_endian(s) < 0x100,
        s.len() == 0 ==> dense::big_endian(s) == 0,
    decreases s.len(),
{
    if s.len() > 0 {
        lemma_big_endian_range(s.drop_last());
    }
}

proof fn lemma_big_endian_tells(s: Seq<u8>, t: Seq<u8>)
    requires
        s.len() == t.len(),
        dense::big_endian(s) == dense::big_endian(t),
    ensures
        s == t,
    decreases s.len(),
{
    if s.len() > 0 {
        lemma_big_endian_tells(s.drop_last(), t.drop_last());
        assert(s =~= s.drop_last().push(s.last()));
        assert(t =~= t.drop_last().push(t.last()));
    } else {
        assert(s =~= t);
    }
}

/// The context of an order-N model is the last N bytes and the bit position: behind
/// at least N bytes, two histories share a context exactly if they agree there.
pub proof fn law_order_context(s: order::OrderState, t: order::OrderState, n: int)
    requires
        0 <= n <= 7,
        s.order == n,
        t.order == n,
        0 <= s.bits.len < 8,
        0 <= t.bits.len < 8,
        s.bits.recent.len() >= n,
        t.bits.recent.len() >= n,
    ensures
        order::context(s) == order::context(t) <==> s.bits.len == t.bits.len && (forall|k: int|
            1 <= k <= n ==> #[trigger] s.bits.recent[s.bits.recent.len() - k]
                == t.bits.recent[t.bits.recent.len() - k]),
{
    let a = assembler::last_of(s.bits.recent, n);
    let b = assembler::last_of(t.bits.recent, n);
    lemma_big_endian_range(a);
    lemma_big_endian_range(b);
    let same = s.bits.len == t.bits.len && (forall|k: int|
        1 <= k <= n ==> #[trigger] s.bits.recent[s.bits.recent.len() - k]
            == t.bits.recent[t.bits.recent.len() - k]);
    if order::context(s) == order::context(t) {
        lemma_big_endian_tells(a, b);
        assert forall|k: int| 1 <= k <= n implies #[trigger] s.bits.recent[s.bits.recent.len() - k]
            == t.bits.recent[t.bits.recent.len() - k] by {
            assert(a[n - k] == b[n - k]);
        }
    }
    if same {
        assert forall|j: int| 0 <= j < n implies a[j] == b[j] by {
            let k = n - j;
            assert(s.bits.recent[s.bits.recent.len() - k] == t.bits.recent[t.bits.recent.len()
                - k]);
        }
        assert(a =~= b);
    }
}

/// The context of the sparse model behind eight bytes: the last byte, the one before
/// it and the fifth from the end, and nothing else.
pub proof fn law_sparse_context(s: sparse::SparseState, t: sparse::SparseState)
    requires
        s.bits.recent.len() == 8,
        t.bits.recent.len() == 8,
    ensures
        sparse::context(s) == sparse::context(t) <==> s.bits.recent[7] == t.bits.recent[7]
            && s.bits.recent[6] == t.bits.recent[6] && s.bits.recent[3] == t.bits.recent[3],
{
    let r = s.bits.recent;
    let q = t.bits.recent;
    if sparse::context(s) == sparse::context(t) {
        let x = 8 * 0x100_0000 + r[7];
        let y = 8 * 0x100_0000 + q[7];
        assert(sparse::context(s) == (x * 0x100 + r[3]) * 0x100 + r[6]);
        assert(sparse::context(t) == (y * 0x100 + q[3]) * 0x100 + q[6]);
        dense::lemma_digits(x * 0x100 + r[3], r[6] as int, y * 0x100 + q[3], q[6] as int, 0x100);
        dense::lemma_digits(x, r[3] as int, y, q[3] as int, 0x100);
    }
}

/// The context of the executable model is the last two bytes, and nothing else; it
/// predicts as that context was seen.
pub proof fn law_exec_context(s: exec::ExecState, t: exec::ExecState)
    requires
        s.bits.recent.len() >= 2,
        t.bits.recent.len() >= 2,
    ensures
        exec::context(s) == exec::context(t) <==> s.bits.recent.last() == t.bits.recent.last()
            && s.bits.recent[s.bits.recent.len() - 2] == t.bits.recent[t.bits.recent.len() - 2],
        exec::predicted(s) == ctable::prob_of(ctable::under(s.table, exec::context(s))),
{
    let x = s.bits.recent.last();
    let y = s.bits.recent[s.bits.recent.len() - 2];
    let u = t.bits.recent.last();
    let v = t.bits.recent[t.bits.recent.len() - 2];
    if exec::context(s) == exec::context(t) {
        dense::lemma_digits(y as int, (x - y) % 256, v as int, (u - v) % 256, 0x100);
    }
}

/// Each of the models counts a bit under the context in front of it, and has the bit
/// behind it.
pub proof fn law_counted_in_context(
    a: order::OrderState,
    b: sparse::SparseState,
    c: exec::ExecState,
    d: word::WordState,
    bit: bool,
)
    ensures
        order::learned(a, bit).table == ctable::counted(a.table, order::context(a), bit),
        order::learned(a, bit).bits == assembler::pushed(a.bits, bit),
        sparse::learned(b, bit).table == ctable::counted(b.table, sparse::context(b), bit),
        sparse::learned(b, bit).bits == assembler::pushed(b.bits, bit),
        exec::learned(c, bit).table == ctable::counted(c.table, exec::context(c), bit),
        exec::learned(c, bit).bits == assembler::pushed(c.bits, bit),
        word::learned(d, bit).table == ctable::counted(
            d.table,
            word::context(d.bits, d.words),
            bit,
        ),
        word::learned(d, bit).bits == assembler::pushed(d.bits, bit),
{
}

/// The words and the word in progress behind some bytes.
pub open spec fn spelled_by(words: Seq<Seq<u8>>, text: Seq<u8>) -> (Seq<Seq<u8>>, Seq<u8>)
    decreases text.len(),
{
    if text.len() == 0 {
        (words, Seq::empty())
    } else {
        let (w, current) = spelled_by(words, text.drop_last());
        word::spelled(w, current, text.last())
    }
}

proof fn lemma_in_progress(words: Seq<Seq<u8>>, w: Seq<u8>)
    requires
        w.len() <= 64,
        forall|i: int|
            0 <= i < w.len() ==> 0x61 <= #[trigger] w[i] <= 0x7A || 0x41 <= w[i] <= 0x5A,
    ensures
        spelled_by(words, w) == (words, w),
    decreases w.len(),
{
    if w.len() > 0 {
        lemma_in_progress(words, w.drop_last());
        assert(w =~= w.drop_last().push(w.last()));
        assert(w.last() == w[w.len() - 1]);
    }
}

/// A run of up to 64 letters is a word once a space follows it: it is the most recent
/// one, and of more than eight the oldest is dropped.
pub proof fn law_word_is_completed(words: Seq<Seq<u8>>, w: Seq<u8>)
    requires
        0 < w.len() <= 64,
        words.len() <= 8,
        forall|i: int|
            0 <= i < w.len() ==> 0x61 <= #[trigger] w[i] <= 0x7A || 0x41 <= w[i] <= 0x5A,
    ensures
        spelled_by(words, w.push(0x20u8)) == (
            if words.len() == 8 {
                words.drop_first().push(w)
            } else {
                words.push(w)
            },
            Seq::<u8>::empty(),
        ),
{
    lemma_in_progress(words, w);
    assert(w.push(0x20u8).drop_last() =~= w);
    assert(w.push(0x20u8).last() == 0x20u8);
    assert(words.skip(1) =~= words.drop_first() || words.len() == 0);
}

/// Behind one and the same last word, the word model tells apart bit positions and
/// the last two bytes.
pub proof fn law_word_context(s: assembler::Bits, t: assembler::Bits, words: Seq<Seq<u8>>)
    requires
        0 <= s.len < 8,
        0 <= t.len < 8,
        s.recent.len() >= 2,
        t.recent.len() >= 2,
    ensures
        word::context(s, words) == word::context(t, words) <==> s.len == t.len
            && s.recent.last() == t.recent.last() && s.recent[s.recent.len() - 2]
            == t.recent[t.recent.len() - 2],
{
    let hash = if words.len() == 0 {
        0u32
    } else {
        word::hash_of(words.last())
    };
    let x = (s.len * 0x100) as u32;
    let y = (t.len * 0x100) as u32;
    assert(hash ^ x == hash ^ y ==> x == y) by (bit_vector);
}

/// Two last words with different hashes have different contexts.
pub proof fn law_word_hash_in_context(
    s: assembler::Bits,
    words1: Seq<Seq<u8>>,
    words2: Seq<Seq<u8>>,
)
    requires
        0 <= s.len < 8,
        words1.len() > 0,
        words2.len() > 0,
        word::hash_of(words1.last()) != word::hash_of(words2.last()),
    ensures
        word::context(s, words1) != word::context(s, words2),
{
    let g = word::hash_of(words1.last());
    let h = word::hash_of(words2.last());
    let x = (s.len * 0x100) as u32;
    assert(g ^ x == h ^ x ==> g == h) by (bit_vector);
}

/// An order takes part in the walk of the order-N model exactly if its context was
/// visited and no visited context of a higher order had seen both bit values; more
/// than 32 counts say that a value was seen.
pub proof fn law_consulted_orders(s: ppm::PpmState, top: int, k: int)
    requires
        0 <= k <= top <= usize::MAX,
    ensures
        (exists|i: int|
            0 <= i < ppm::walk(s, top).len() && (#[trigger] ppm::walk(s, top)[i]).order == k) <==> ({
            let c = ppm::counts_at(s.bits, s.tables, k);
            !(c.zeros == 32 && c.ones == 32) && forall|j: int|
                k < j <= top ==> {
                    let h = #[trigger] ppm::counts_at(s.bits, s.tables, j);
                    !(h.zeros > 32 && h.ones > 32)
                }
        }),
    decreases top,
{
    let c = ppm::counts_at(s.bits, s.tables, top);
    let w = ppm::walk(s, top);
    lemma_walk_orders(s, top - 1);
    if top == k {
        if ppm::unvisited(c) {
            assert forall|i: int| 0 <= i < w.len() implies (#[trigger] w[i]).order != k by {
                assert(w == ppm::walk(s, top - 1));
            }
        } else {
            assert(w[0].order == k);
        }
    } else {
        law_consulted_orders(s, top - 1, k);
        let v = ppm::walk(s, top - 1);
        if ppm::unvisited(c) {
            assert(w == v);
        } else if ppm::seen_both(c) {
            assert(w.len() == 1 && w[0].order == top);
        } else {
            assert forall|i: int| 0 <= i < v.len() implies #[trigger] w[i + 1] == v[i] by {
            }
            if exists|i: int| 0 <= i < v.len() && (#[trigger] v[i]).order == k {
                let i = choose|i: int| 0 <= i < v.len() && (#[trigger] v[i]).order == k;
                assert(w[i + 1].order == k);
            }
            if exists|i: int| 0 <= i < w.len() && (#[trigger] w[i]).order == k {
                let i = choose|i: int| 0 <= i < w.len() && (#[trigger] w[i]).order == k;
                assert(i > 0);
                assert(w[i] == v[i - 1]);
            }
        }
    }
}

proof fn lemma_walk_orders(s: ppm::PpmState, top: int)
    requires
        top <= usize::MAX,
    ensures
        forall|i: int|
            0 <= i < ppm::walk(s, top).len() ==> (#[trigger] ppm::walk(s, top)[i]).order <= top,
    decreases top + 1,
{
    if top >= 0 {
        lemma_walk_orders(s, top - 1);
        let w = ppm::walk(s, top);
        let v = ppm::walk(s, top - 1);
        assert forall|i: int| 0 <= i < w.len() implies (#[trigger] w[i]).order <= top by {
            let c = ppm::counts_at(s.bits, s.tables, top);
            if ppm::unvisited(c) {
                assert(w[i] == v[i]);
            } else if i > 0 {
                assert(w[i] == v[i - 1]);
            }
        }
    }
}

/// A bit counts once under each of order 0 and the order consulted last, and twice
/// under order 0 where that is the one.
pub proof fn law_ppm_counts(s: ppm::PpmState, bit: bool)
    requires
        0 <= s.used < s.tables.len(),
        s.tables[0].len() > 0,
        s.tables[s.used].len() > 0,
        ppm::counts_at(s.bits, s.tables, 0).zeros < 0xFFFF_0000,
        ppm::counts_at(s.bits, s.tables, 0).ones < 0xFFFF_0000,
        ppm::counts_at(s.bits, s.tables, s.used).zeros < 0xFFFF_0000,
        ppm::counts_at(s.bits, s.tables, s.used).ones < 0xFFFF_0000,
    ensures
        ({
            let after = ppm::learned(s, bit).tables;
            let c = ppm::counts_at(s.bits, after, s.used);
            let b = ppm::counts_at(s.bits, s.tables, s.used);
            let c0 = ppm::counts_at(s.bits, after, 0);
            let b0 = ppm::counts_at(s.bits, s.tables, 0);
            let n: int = if s.used == 0 {
                2
            } else {
                1
            };
            &&& bit ==> c.ones == b.ones + n && c.zeros == b.zeros && c0.ones == b0.ones + n
                && c0.zeros == b0.zeros
            &&& !bit ==> c.zeros == b.zeros + n && c.ones == b.ones && c0.zeros == b0.zeros + n
                && c0.ones == b0.ones
        }),
{
    let k0 = dense::dense_key(s.bits, 0);
    let k = dense::dense_key(s.bits, s.used);
    assert(0 <= ctable::slot_of(k0, s.tables[0].len() as int) < s.tables[0].len());
    assert(0 <= ctable::slot_of(k, s.tables[s.used].len() as int) < s.tables[s.used].len());
    let mid = ppm::counted_at(s.bits, s.tables, 0, bit);
    assert(mid[0] == ctable::counted(s.tables[0], k0, bit));
}

/// What a model says counts as its weight at the bit position does: a weight that is
/// larger by `step` there adds that times the logit of its model.
pub proof fn law_position_weight_counts(
    w: mixer::Weights,
    v: mixer::Weights,
    logits: Seq<i16>,
    b: int,
    i: int,
    step: int,
    n: int,
)
    requires
        0 <= i,
        v.base == w.base,
        forall|j: int| j != i ==> #[trigger] v.at[j] == w.at[j],
        v.at[i][b] == w.at[i][b] + step,
    ensures
        mixer::weighted(v, logits, b, n) == mixer::weighted(w, logits, b, n) + if i < n {
            step * logits[i]
        } else {
            0
        },
    decreases n,
{
    if n > 0 {
        law_position_weight_counts(w, v, logits, b, i, step, n - 1);
        if n - 1 == i {
            let x = w.base[i] + w.at[i][b];
            let y = logits[i] as int;
            assert((x + step) * y == x * y + step * y) by (nonlinear_arith);
        } else {
            assert(v.at[n - 1] == w.at[n - 1]);
        }
    }
}

/// The same holds of the weight that a model has at every bit position.
pub proof fn law_common_weight_counts(
    w: mixer::Weights,
    v: mixer::Weights,
    logits: Seq<i16>,
    b: int,
    i: int,
    step: int,
    n: int,
)
    requires
        0 <= i,
        v.at == w.at,
        forall|j: int| j != i ==> #[trigger] v.base[j] == w.base[j],
        v.base[i] == w.base[i] + step,
    ensures
        mixer::weighted(v, logits, b, n) == mixer::weighted(w, logits, b, n) + if i < n {
            step * logits[i]
        } else {
            0
        },
    decreases n,
{
    if n > 0 {
        law_common_weight_counts(w, v, logits, b, i, step, n - 1);
        if n - 1 == i {
            let x = w.base[i] + w.at[i][b];
            let y = logits[i] as int;
            assert((x + step) * y == x * y + step * y) by (nonlinear_arith);
        } else {
            assert(v.base[n - 1] == w.base[n - 1]);
        }
    }
}

/// A step moves the weight of its model, everywhere and once more at the bit position;
/// the other positions and the models without a step stay. New weights are 65536.
pub proof fn law_weights_move(w: mixer::Weights, steps: Seq<i32>, b: int, i: int, at: int)
    requires
        0 <= i < w.base.len(),
        w.at.len() == w.base.len(),
        w.at[i].len() == 8,
        0 <= b < 8,
        0 <= at < 8,
        i < steps.len() ==> -0x7FFF_0000 <= w.base[i] + steps[i] <= 0x7FFF_0000,
        i < steps.len() ==> -0x7FFF_0000 <= w.at[i][b] + steps[i] <= 0x7FFF_0000,
    ensures
        ({
            let after = mixer::moved(w, steps, b);
            let step: int = if i < steps.len() {
                steps[i] as int
            } else {
                0
            };
            &&& after.base[i] == w.base[i] + step
            &&& after.at[i][at] == w.at[i][at] + if at == b {
                step
            } else {
                0
            }
            &&& mixer::unit(w.base.len() as int).base[i] == 65536
            &&& mixer::unit(w.base.len() as int).at[i][at] == 0
        }),
{
}

proof fn lemma_two_to_add(n: nat, k: nat)
    ensures
        assembler::two_to(n + k) == assembler::two_to(n) * assembler::two_to(k),
    decreases k,
{
    if k > 0 {
        lemma_two_to_add(n, (k - 1) as nat);
        let a = assembler::two_to(n);
        let b = assembler::two_to((k - 1) as nat);
        assert(2 * (a * b) == a * (2 * b)) by (nonlinear_arith);
    } else {
        assert(assembler::two_to(n) * 1 == assembler::two_to(n));
    }
}

proof fn lemma_powers()
    ensures
        assembler::two_to(18) == 0x4_0000,
        assembler::two_to(19) == 0x8_0000,
        assembler::two_to(20) == 0x10_0000,
        assembler::two_to(21) == 0x20_0000,
        assembler::two_to(22) == 0x40_0000,
{
    assert(assembler::two_to(6) == 64) by {
        reveal_with_fuel(assembler::two_to, 7);
    }
    lemma_two_to_add(6, 6);
    lemma_two_to_add(12, 6);
    assert(assembler::two_to(18) == 0x4_0000);
    assert(assembler::two_to(19) == 2 * assembler::two_to(18));
    assert(assembler::two_to(20) == 2 * assembler::two_to(19));
    assert(assembler::two_to(21) == 2 * assembler::two_to(20));
    assert(assembler::two_to(22) == 2 * assembler::two_to(21));
}

/// How many contexts the models have room for, and how many bytes they keep.
pub proof fn law_room(n: int)
    requires
        1 <= n <= 8,
    ensures
        order::new_state(n).table.len() == 0x20_0000,
        order::new_state(n).bits.kept == n,
        sparse::new_state().table.len() == 0x20_0000,
        sparse::new_state().bits.kept == 8,
        exec::new_state().table.len() == 0x10_0000,
        exec::new_state().bits.kept == 2,
        word::new_state().table.len() == 0x8_0000,
        word::new_state().bits.kept == 8,
        ppm::new_state(n).tables.len() == n + 1,
        ppm::new_state(n).tables[n].len() == 0x20_0000,
        ppm::new_state(n).bits.kept == n,
        ppmd_ssm::new_state().orders.len() == 9,
        ppmd_ssm::new_state().orders[n].len() == 0x40_0000,
        ppmd_ssm::new_state().sparse.len() == 3,
        ppmd_ssm::new_state().see.len() == 9 * 65536,
        ppmd_ssm::new_state().bits.kept == 8,
        indirect_dmc::new_indirect(n).followers.len() == 0x10_0000,
        indirect_dmc::new_indirect(n).table.len() == 0x4_0000,
        indirect_dmc::new_dmc(n).table.len() == 0x10_0000,
        indirect_dmc::new_dmc(n).bits.kept == 8,
{
    lemma_powers();
}

/// A word's hash is 2166136261 without a byte; each byte is mixed in by an exclusive
/// or, and the result is multiplied by 16777619 modulo two to the power of 32.
pub proof fn law_word_hash(w: Seq<u8>, b: u8)
    ensures
        word::hash_of(Seq::empty()) == 2166136261,
        word::hash_of(w.push(b)) == ((word::hash_of(w) ^ (b as u32)) * 16777619) % 0x1_0000_0000,
{
    assert(w.push(b).drop_last() =~= w);
}

/// The bucket of a context is its product with an odd number, modulo two to the power
/// of 64 and then modulo the number of buckets.
pub proof fn law_bucket(ctx: u64, n: int)
    requires
        n > 0,
    ensures
        ctable::slot_of(ctx, n) == (ctx * 0x9E37_79B9_1AB3_57C5) % 0x1_0000_0000_0000_0000 % n,
{
}

} // verus!
