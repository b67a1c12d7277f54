//! Byte-level PPM-style entropy codec (the "fast" path).
//!
//! Per byte: a deterministic context selection, one 256-way distribution built
//! from the winning count row, one rANS symbol. The contexts are order 0 (one
//! row), order 1 (256 rows) and hashed order 2. The selector looks at the
//! statistics of the contexts only, never at the symbol, so that the encoder
//! and the decoder agree without escapes.

use crate::bytes;
use crate::entropy::byterans;
use crate::entropy::byterans::{RansByteDecoder, RansByteEncoder, BYTE_L, BYTE_SCALE};
use crate::error;
use crate::error::{Fault, RcnError};
use vstd::prelude::*;

verus! {

/// Hashed order-2 contexts.
pub const ORDER2_CTX: usize = 4096;

/// Hashed order-2 contexts for small blocks.
pub const ORDER2_CTX_SMALL: usize = 1024;

/// Blocks from this length on use the larger order-2 table.
pub const BIG_BLOCK: usize = 262144;

/// A row is halved when one of its counts exceeds this.
pub const COUNT_CAP: u16 = 256;

/// The total an order-1 context needs before it is eligible.
pub const MIN_T1: u32 = 2;

/// The total an order-2 context needs before it is eligible.
pub const MIN_T2: u32 = 4;

/// Frequency mass above the one slot that every symbol has.
pub const BUDGET: u32 = 3840;

/// A row of 256 counts, none above the cap.
pub open spec fn row_ok(row: Seq<u16>) -> bool {
    row.len() == 256 && forall|i: int| 0 <= i < 256 ==> row[i] <= COUNT_CAP
}

/// How many of the first `k` counts of a row are not zero.
pub open spec fn row_distinct(row: Seq<u16>, k: int) -> int
    decreases k,
{
    if k <= 0 {
        0
    } else {
        row_distinct(row, k - 1) + if row[k - 1] > 0 {
            1int
        } else {
            0
        }
    }
}

/// The row after byte `b` was counted; the whole row is halved when the count
/// of `b` exceeds the cap.
pub open spec fn bump_row(row: Seq<u16>, b: int) -> Seq<u16> {
    let r = row.update(b, (row[b] + 1) as u16);
    if r[b] > COUNT_CAP {
        Seq::new(256, |i: int| (r[i] / 2) as u16)
    } else {
        r
    }
}

/// The 32-bit fixed-point reciprocal of a row total; that of 1 is 0.
pub open spec fn reciprocal(t: int) -> int {
    (4294967296int / t) % 4294967296
}

/// The total of a row as the distribution uses it, at least 1.
pub open spec fn row_scale(row: Seq<u16>) -> int {
    if bytes::sum_to(row, 256) == 0 {
        1
    } else {
        bytes::sum_to(row, 256)
    }
}

/// The sum of the 12-bit probabilities of the symbols below `k`.
pub open spec fn prob_sum(row: Seq<u16>, k: int) -> int
    decreases k,
{
    if k <= 0 {
        0
    } else {
        prob_sum(row, k - 1) + (row[k - 1] * reciprocal(row_scale(row))) / 1048576
    }
}

/// The cumulative frequency of the symbols below `s`: one slot each, and the
/// rounded part of the budget. The last symbol absorbs what is left.
pub open spec fn row_cum(row: Seq<u16>, s: int) -> int {
    if s >= 256 {
        BYTE_SCALE as int
    } else {
        s + (prob_sum(row, s) * BUDGET + 2048) / 4096
    }
}

/// The frequency of symbol `s`.
pub open spec fn row_freq(row: Seq<u16>, s: int) -> int {
    row_cum(row, s + 1) - row_cum(row, s)
}

/// The symbol whose cumulative range contains `cdf`.
pub open spec fn row_symbol(row: Seq<u16>, cdf: int) -> int {
    choose|s: int| 0 <= s < 256 && #[trigger] row_cum(row, s) <= cdf < row_cum(row, s + 1)
}

/// The hash of a pair of bytes into 4096 contexts.
pub open spec fn pair_hash(a: u8, b: u8) -> int {
    ((a + 256 * b) * 0x9E3779B1) % 4294967296 / 1048576
}

/// The order whose context is best concentrated.
pub open spec fn picked(t1: int, d1: int, t2: int, d2: int) -> Order {
    if t2 >= MIN_T2 && (t1 < MIN_T1 || t2 * (d1 + 1) >= t1 * (d2 + 1)) {
        Order::Order2
    } else if t1 >= MIN_T1 {
        Order::Order1
    } else {
        Order::Order0
    }
}

/// The context orders.
#[derive(Debug, Clone, Copy, PartialEq, Eq, Structural)]
pub enum Order {
    Order0,
    Order1,
    Order2,
}

/// The adaptive state that the encoder and the decoder share: the count rows of
/// the three orders and the two bytes before the current one.
#[verifier::ext_equal]
pub struct ByteModel {
    pub o0: Seq<Seq<u16>>,
    pub o1: Seq<Seq<u16>>,
    pub o2: Seq<Seq<u16>>,
    pub p_1: u8,
    pub p_2: u8,
}

impl ByteModel {
    /// The state before the first byte of a block of `n` bytes.
    pub open spec fn init(n: int) -> ByteModel {
        let zero = Seq::new(256, |i: int| 0u16);
        ByteModel {
            o0: Seq::new(1, |c: int| zero),
            o1: Seq::new(256, |c: int| zero),
            o2: Seq::new(order2_rows(n) as nat, |c: int| zero),
            p_1: 0,
            p_2: 0,
        }
    }

    /// The order-1 context.
    pub open spec fn c1(self) -> int {
        self.p_1 as int
    }

    /// The order-2 context.
    pub open spec fn c2(self) -> int {
        pair_hash(self.p_1, self.p_2) % (self.o2.len() as int)
    }

    /// The order that codes the next byte.
    pub open spec fn order(self) -> Order {
        let r1 = self.o1[self.c1()];
        let r2 = self.o2[self.c2()];
        picked(
            bytes::sum_to(r1, 256),
            row_distinct(r1, 256),
            bytes::sum_to(r2, 256),
            row_distinct(r2, 256),
        )
    }

    /// The row that codes the next byte.
    pub open spec fn row(self) -> Seq<u16> {
        match self.order() {
            Order::Order0 => self.o0[0],
            Order::Order1 => self.o1[self.c1()],
            Order::Order2 => self.o2[self.c2()],
        }
    }

    /// The state after byte `b`.
    pub open spec fn step(self, b: u8) -> ByteModel {
        ByteModel {
            o0: self.o0.update(0, bump_row(self.o0[0], b as int)),
            o1: self.o1.update(self.c1(), bump_row(self.o1[self.c1()], b as int)),
            o2: self.o2.update(self.c2(), bump_row(self.o2[self.c2()], b as int)),
            p_1: b,
            p_2: self.p_1,
        }
    }

    /// The tables have their sizes and every row is valid.
    pub open spec fn wf(self) -> bool {
        &&& self.o0.len() == 1
        &&& self.o1.len() == 256
        &&& self.o2.len() == ORDER2_CTX || self.o2.len() == ORDER2_CTX_SMALL
        &&& rows_ok(self.o0)
        &&& rows_ok(self.o1)
        &&& rows_ok(self.o2)
    }
}

/// Every row is valid.
pub open spec fn rows_ok(rows: Seq<Seq<u16>>) -> bool {
    forall|c: int| 0 <= c < rows.len() ==> row_ok(#[trigger] rows[c])
}

/// The number of order-2 rows for a block of `n` bytes.
pub open spec fn order2_rows(n: int) -> int {
    if n >= BIG_BLOCK {
        ORDER2_CTX as int
    } else {
        ORDER2_CTX_SMALL as int
    }
}

/// The rANS intervals of the bytes of `data`, coded from state `m` on.
pub open spec fn block_syms(m: ByteModel, data: Seq<u8>) -> Seq<(u32, u32)>
    decreases data.len(),
{
    if data.len() == 0 {
        Seq::empty()
    } else {
        let row = m.row();
        let b = data[0] as int;
        seq![(row_freq(row, b) as u32, row_cum(row, b) as u32)] + block_syms(
            m.step(data[0]),
            data.drop_first(),
        )
    }
}

/// The stream for a block.
pub open spec fn block_stream(data: Seq<u8>) -> Seq<u8> {
    byterans::rans_stream(block_syms(ByteModel::init(data.len() as int), data))
}

/// The `n` bytes that a decoder reads from the states `m` and `s` on.
pub open spec fn block_bytes(m: ByteModel, s: byterans::RansState, n: int) -> Seq<u8>
    decreases n,
{
    if n <= 0 {
        Seq::empty()
    } else {
        let row = m.row();
        let sym = row_symbol(row, byterans::state_cdf(s));
        seq![sym as u8] + block_bytes(
            m.step(sym as u8),
            byterans::rans_advance(s, row_freq(row, sym), row_cum(row, sym)),
            n - 1,
        )
    }
}

/// What a stream decodes to as a block of `n` bytes. A stream is corrupt if it
/// does not hold a state or if its state is not normalized.
pub open spec fn block_decoded(comp: Seq<u8>, n: int) -> Result<Seq<u8>, Fault> {
    if comp.len() < 4 {
        Err(Fault::CorruptBlock("short rANS stream"@))
    } else if bytes::un_le32(comp, 0) < BYTE_L {
        Err(Fault::CorruptBlock("bad rANS state"@))
    } else {
        Ok(
            block_bytes(
                ByteModel::init(n),
                byterans::RansState { x: bytes::un_le32(comp, 0), rest: comp.skip(4) },
                n,
            ),
        )
    }
}

proof fn lemma_prob_step(c: int, t: int)
    requires
        1 <= t,
        0 <= c <= t,
    ensures
        0 <= reciprocal(t),
        reciprocal(t) * t <= 4294967296,
        0 <= (c * reciprocal(t)) / 1048576,
        ((c * reciprocal(t)) / 1048576) * 1048576 <= c * reciprocal(t),
        c * reciprocal(t) <= 4294967296,
{
    let q = 4294967296int / t;
    assert(q * t <= 4294967296 && q >= 0) by (nonlinear_arith)
        requires
            q == 4294967296int / t,
            t >= 1,
    ;
    let inv = reciprocal(t);
    assert(0 <= inv <= q);
    assert(inv * t <= q * t) by (nonlinear_arith)
        requires
            inv <= q,
            t >= 1,
    ;
    assert(0 <= c * inv && c * inv <= inv * t) by (nonlinear_arith)
        requires
            0 <= c <= t,
            0 <= inv,
    ;
}

/// The probabilities of the symbols below `k` sum to at most the total's part.
proof fn lemma_prob_sum(row: Seq<u16>, k: int)
    requires
        row_ok(row),
        0 <= k <= 256,
    ensures
        0 <= prob_sum(row, k),
        prob_sum(row, k) * 1048576 <= bytes::sum_to(row, k) * reciprocal(row_scale(row)),
        prob_sum(row, k) <= 4096,
    decreases k,
{
    let t = row_scale(row);
    let inv = reciprocal(t);
    bytes::lemma_sum_to_bound(row, 256);
    bytes::lemma_sum_to_mono(row, k, 256);
    bytes::lemma_sum_to_bound(row, k);
    lemma_prob_step(bytes::sum_to(row, k), t);
    if k > 0 {
        lemma_prob_sum(row, k - 1);
        let c = row[k - 1] as int;
        bytes::lemma_sum_to_bound(row, k - 1);
        lemma_prob_step(c, t);
        let s = bytes::sum_to(row, k - 1);
        assert((s + c) * inv == s * inv + c * inv) by (nonlinear_arith);
    }
}

/// Cumulative frequencies rise by at least one per symbol and end at the scale.
pub proof fn law_row_cum(row: Seq<u16>, s: int)
    requires
        row_ok(row),
        0 <= s < 256,
    ensures
        0 <= row_cum(row, s),
        row_cum(row, s) + 1 <= row_cum(row, s + 1),
        row_cum(row, s + 1) <= BYTE_SCALE,
        byterans::valid_interval(row_freq(row, s), row_cum(row, s)),
{
    lemma_prob_sum(row, s);
    lemma_prob_sum(row, s + 1);
    let t = row_scale(row);
    bytes::lemma_sum_to_bound(row, 256);
    bytes::lemma_sum_to_mono(row, s + 1, 256);
    bytes::lemma_sum_to_bound(row, s);
    lemma_prob_step(row[s] as int, t);
}

proof fn lemma_row_cum_mono(row: Seq<u16>, i: int, j: int)
    requires
        row_ok(row),
        0 <= i <= j <= 256,
    ensures
        row_cum(row, i) <= row_cum(row, j),
    decreases j - i,
{
    if i < j {
        lemma_row_cum_mono(row, i, j - 1);
        law_row_cum(row, j - 1);
    }
}

/// Exactly one symbol's range contains a given position.
proof fn lemma_row_symbol(row: Seq<u16>, cdf: int, s: int)
    requires
        row_ok(row),
        0 <= s < 256,
        row_cum(row, s) <= cdf < row_cum(row, s + 1),
    ensures
        row_symbol(row, cdf) == s,
{
    let t = row_symbol(row, cdf);
    assert(0 <= t < 256 && row_cum(row, t) <= cdf < row_cum(row, t + 1));
    if t < s {
        lemma_row_cum_mono(row, t + 1, s);
    } else if s < t {
        lemma_row_cum_mono(row, s + 1, t);
    }
}

proof fn lemma_bump_ok(row: Seq<u16>, b: int)
    requires
        row_ok(row),
        0 <= b < 256,
    ensures
        row_ok(bump_row(row, b)),
{
}

proof fn lemma_wf_init(n: int)
    ensures
        ByteModel::init(n).wf(),
{
}

proof fn lemma_wf_step(m: ByteModel, b: u8)
    requires
        m.wf(),
    ensures
        m.step(b).wf(),
        row_ok(m.row()),
        0 <= m.c2() < m.o2.len(),
{
    lemma_bump_ok(m.o0[0], b as int);
    lemma_bump_ok(m.o1[m.c1()], b as int);
    assert(0 <= m.c2() < m.o2.len());
    lemma_bump_ok(m.o2[m.c2()], b as int);
    assert(rows_ok(m.step(b).o0));
    assert(rows_ok(m.step(b).o1));
    assert(rows_ok(m.step(b).o2));
}

/// The intervals of a block are valid, and decoding them against the same
/// adaptive state gives the block.
#[verifier::rlimit(40)]
#[verifier::spinoff_prover]
proof fn lemma_block_bytes(m: ByteModel, data: Seq<u8>)
    requires
        m.wf(),
    ensures
        byterans::valid_syms(block_syms(m, data)),
        block_syms(m, data).len() == data.len(),
        block_bytes(m, byterans::rans_encode(block_syms(m, data)), data.len() as int) == data,
    decreases data.len(),
{
    let syms = block_syms(m, data);
    if data.len() > 0 {
        let b = data[0];
        let row = m.row();
        lemma_wf_step(m, b);
        law_row_cum(row, b as int);
        let tail = block_syms(m.step(b), data.drop_first());
        lemma_block_bytes(m.step(b), data.drop_first());
        assert(syms.drop_first() =~= tail);
        assert forall|i: int| 0 <= i < syms.len() implies byterans::valid_interval(
            (#[trigger] syms[i]).0 as int,
            syms[i].1 as int,
        ) by {
            if i > 0 {
                assert(syms[i] == tail[i - 1]);
            }
        }
        byterans::law_rans_round_trip(syms);
        lemma_row_symbol(row, byterans::state_cdf(byterans::rans_encode(syms)), b as int);
        assert(seq![b] + data.drop_first() =~= data);
    } else {
        assert(data =~= Seq::<u8>::empty());
    }
}

/// Decompressing the stream of a block gives the block back.
#[verifier::rlimit(40)]
#[verifier::spinoff_prover]
pub proof fn law_block_round_trip(data: Seq<u8>)
    ensures
        block_decoded(block_stream(data), data.len() as int) == Ok::<Seq<u8>, Fault>(data),
{
    let m = ByteModel::init(data.len() as int);
    lemma_wf_init(data.len() as int);
    lemma_block_bytes(m, data);
    byterans::lemma_stream_parts(block_syms(m, data));
    byterans::lemma_encode_range(block_syms(m, data));
}

proof fn lemma_block_bytes_len(m: ByteModel, s: byterans::RansState, n: int)
    requires
        0 <= n,
    ensures
        block_bytes(m, s, n).len() == n,
    decreases n,
{
    if n > 0 {
        let row = m.row();
        let sym = row_symbol(row, byterans::state_cdf(s));
        lemma_block_bytes_len(
            m.step(sym as u8),
            byterans::rans_advance(s, row_freq(row, sym), row_cum(row, sym)),
            n - 1,
        );
    }
}

/// A decoded block has as many bytes as asked for.
pub proof fn lemma_block_decoded_len(comp: Seq<u8>, n: int)
    requires
        0 <= n,
    ensures
        block_decoded(comp, n) matches Ok(d) ==> d.len() == n,
{
    if comp.len() >= 4 {
        lemma_block_bytes_len(
            ByteModel::init(n),
            byterans::RansState { x: bytes::un_le32(comp, 0), rest: comp.skip(4) },
            n,
        );
    }
}

/// The stream of a block takes at most two bytes for a byte, and four more.
#[verifier::rlimit(40)]
#[verifier::spinoff_prover]
pub proof fn lemma_block_stream_len(data: Seq<u8>)
    ensures
        block_stream(data).len() <= 2 * data.len() + 4,
{
    let m = ByteModel::init(data.len() as int);
    lemma_wf_init(data.len() as int);
    lemma_block_bytes(m, data);
    byterans::lemma_rest_len(block_syms(m, data));
}

/// The state once `data` is seen from state `m` on.
pub open spec fn after(m: ByteModel, data: Seq<u8>) -> ByteModel
    decreases data.len(),
{
    if data.len() == 0 {
        m
    } else {
        after(m, data.drop_last()).step(data.last())
    }
}

/// The byte in front of place `i`, or 0.
pub open spec fn byte_in_front(data: Seq<u8>, i: int) -> u8 {
    if 1 <= i <= data.len() {
        data[i - 1]
    } else {
        0
    }
}

/// The row of a pair of bytes, the later one first, among 4096 for a block of 256 KiB
/// or more and 1024 for a shorter one.
pub open spec fn pair_row(last: u8, before: u8, n: int) -> int {
    ((last + 256 * before) * 0x9E3779B1) % 0x1_0000_0000 / 0x10_0000 % if n >= 0x4_0000 {
        4096
    } else {
        1024int
    }
}

/// The bytes of `data` that stood behind `y`, in turn; in front of the first byte
/// stands 0.
pub open spec fn behind_byte(data: Seq<u8>, y: u8) -> Seq<u8>
    decreases data.len(),
{
    if data.len() == 0 {
        Seq::empty()
    } else {
        let before = behind_byte(data.drop_last(), y);
        if byte_in_front(data, data.len() - 1) == y {
            before.push(data.last())
        } else {
            before
        }
    }
}

/// The bytes of `data` that stood behind a pair of bytes with row `h`, in turn.
pub open spec fn behind_pair(data: Seq<u8>, h: int, n: int) -> Seq<u8>
    decreases data.len(),
{
    if data.len() == 0 {
        Seq::empty()
    } else {
        let before = behind_pair(data.drop_last(), h, n);
        let i = data.len() - 1;
        if pair_row(byte_in_front(data, i), byte_in_front(data, i - 1), n) == h {
            before.push(data.last())
        } else {
            before
        }
    }
}

/// How often `b` occurs in `s`.
pub open spec fn times(s: Seq<u8>, b: u8) -> int
    decreases s.len(),
{
    if s.len() == 0 {
        0
    } else {
        times(s.drop_last(), b) + if s.last() == b {
            1int
        } else {
            0
        }
    }
}

/// The row of counts once the bytes of `s` are counted in turn.
pub open spec fn counts_of(s: Seq<u8>) -> Seq<u16>
    decreases s.len(),
{
    if s.len() == 0 {
        Seq::new(256, |i: int| 0u16)
    } else {
        bump_row(counts_of(s.drop_last()), s.last() as int)
    }
}

/// Counting a byte adds one to its count and leaves the others; where its count was
/// 256 already, all counts are halved and its own is 128.
pub proof fn law_bump(row: Seq<u16>, b: int, i: int)
    requires
        row_ok(row),
        0 <= b < 256,
        0 <= i < 256,
    ensures
        row[b] < 256 ==> bump_row(row, b)[i] == row[i] + if i == b {
            1int
        } else {
            0
        },
        row[b] == 256 ==> bump_row(row, b)[i] == if i == b {
            128int
        } else {
            row[i] as int / 2
        },
{
}

proof fn lemma_counts_ok(s: Seq<u8>)
    ensures
        row_ok(counts_of(s)),
    decreases s.len(),
{
    if s.len() > 0 {
        lemma_counts_ok(s.drop_last());
        lemma_bump_ok(counts_of(s.drop_last()), s.last() as int);
    }
}

proof fn lemma_times_bound(s: Seq<u8>, b: u8)
    ensures
        0 <= times(s, b) <= s.len(),
    decreases s.len(),
{
    if s.len() > 0 {
        lemma_times_bound(s.drop_last(), b);
    }
}

/// Where no byte occurs more than 256 times, a row holds how often each one occurred.
pub proof fn law_counts_are_exact(s: Seq<u8>, b: u8)
    requires
        forall|x: u8| #[trigger] times(s, x) <= 256,
    ensures
        counts_of(s)[b as int] == times(s, b),
    decreases s.len(),
{
    if s.len() > 0 {
        let t = s.drop_last();
        assert forall|x: u8| #[trigger] times(t, x) <= 256 by {
            assert(times(s, x) <= 256);
        }
        law_counts_are_exact(t, b);
        law_counts_are_exact(t, s.last());
        assert(times(s, s.last()) <= 256);
        lemma_counts_ok(t);
        law_bump(counts_of(t), s.last() as int, b as int);
    }
}

proof fn lemma_rows_after(n: int, data: Seq<u8>)
    ensures
        after(ByteModel::init(n), data).wf(),
        after(ByteModel::init(n), data).o2.len() == order2_rows(n),
    decreases data.len(),
{
    lemma_wf_init(n);
    if data.len() > 0 {
        lemma_rows_after(n, data.drop_last());
        lemma_wf_step(after(ByteModel::init(n), data.drop_last()), data.last());
    }
}

/// Behind any bytes the contexts of the next byte are those in front of it: order 1
/// the row of the last byte, order 2 that of the last two.
pub proof fn law_contexts(n: int, data: Seq<u8>)
    ensures
        after(ByteModel::init(n), data).c1() == byte_in_front(data, data.len() as int),
        after(ByteModel::init(n), data).c2() == pair_row(
            byte_in_front(data, data.len() as int),
            byte_in_front(data, data.len() - 1),
            n,
        ),
    decreases data.len(),
{
    lemma_rows_after(n, data);
    if data.len() > 0 {
        let t = data.drop_last();
        law_contexts(n, t);
        if t.len() > 0 {
            assert(byte_in_front(t, t.len() as int) == byte_in_front(data, data.len() - 1));
        }
    }
}

/// Every row holds the counts of exactly the bytes that stood behind its context so
/// far: the one of order 0 all of them, the order-1 row of `y` those behind `y`, an
/// order-2 row those behind its pairs.
pub proof fn law_rows_hold_followers(n: int, data: Seq<u8>)
    ensures
        after(ByteModel::init(n), data).o0[0] == counts_of(data),
        forall|y: u8|
            after(ByteModel::init(n), data).o1[y as int] == counts_of(
                #[trigger] behind_byte(data, y),
            ),
        forall|h: int|
            0 <= h < after(ByteModel::init(n), data).o2.len() ==> after(
                ByteModel::init(n),
                data,
            ).o2[h] == counts_of(#[trigger] behind_pair(data, h, n)),
    decreases data.len(),
{
    let m = after(ByteModel::init(n), data);
    lemma_rows_after(n, data);
    if data.len() > 0 {
        let t = data.drop_last();
        let k = after(ByteModel::init(n), t);
        law_rows_hold_followers(n, t);
        law_contexts(n, t);
        lemma_rows_after(n, t);
        let i = data.len() - 1;
        assert(byte_in_front(t, i) == byte_in_front(data, i));
        assert(byte_in_front(t, i - 1) == byte_in_front(data, i - 1));
        assert forall|y: u8| m.o1[y as int] == counts_of(#[trigger] behind_byte(data, y)) by {
            let before = behind_byte(t, y);
            assert(k.o1[y as int] == counts_of(before));
            assert(before.push(data.last()).drop_last() =~= before);
        }
        assert forall|h: int| 0 <= h < m.o2.len() implies m.o2[h] == counts_of(
            #[trigger] behind_pair(data, h, n),
        ) by {
            let before = behind_pair(t, h, n);
            assert(k.o2[h] == counts_of(before));
            assert(before.push(data.last()).drop_last() =~= before);
        }
    }
}

proof fn lemma_after_front(m: ByteModel, data: Seq<u8>)
    requires
        data.len() > 0,
    ensures
        after(m, data) == after(m.step(data[0]), data.drop_first()),
    decreases data.len(),
{
    let t = data.drop_first();
    if t.len() > 0 {
        lemma_after_front(m, data.drop_last());
        assert(data.drop_last().drop_first() =~= t.drop_last());
    } else {
        assert(data.drop_last() =~= t);
        assert(after(m, t) == m);
    }
}

/// Byte `i` of a block is coded with its interval in the row that the bytes in front
/// of it lead to.
pub proof fn law_coded_by_its_row(m: ByteModel, data: Seq<u8>, i: int)
    requires
        0 <= i < data.len(),
    ensures
        block_syms(m, data).len() == data.len(),
        block_syms(m, data)[i] == (
            row_freq(after(m, data.take(i)).row(), data[i] as int) as u32,
            row_cum(after(m, data.take(i)).row(), data[i] as int) as u32,
        ),
    decreases data.len(),
{
    let rest = data.drop_first();
    if i > 0 {
        law_coded_by_its_row(m.step(data[0]), rest, i - 1);
        lemma_after_front(m, data.take(i));
        assert(data.take(i).drop_first() =~= rest.take(i - 1));
    } else {
        assert(data.take(0) =~= Seq::<u8>::empty());
        if rest.len() > 0 {
            law_coded_by_its_row(m.step(data[0]), rest, 0);
        }
    }
}

/// The row that codes the next byte is that of order 2 where it has seen four bytes
/// or more and its counts are as concentrated as those of order 1, or order 1 has seen
/// fewer than two; else that of order 1 where it has seen two or more; else that of
/// order 0.
pub proof fn law_row_choice(m: ByteModel)
    ensures
        ({
            let one = m.o1[m.c1()];
            let two = m.o2[m.c2()];
            let t1 = bytes::sum_to(one, 256);
            let t2 = bytes::sum_to(two, 256);
            let d1 = row_distinct(one, 256);
            let d2 = row_distinct(two, 256);
            &&& t1 < 2 && t2 < 4 ==> m.row() == m.o0[0]
            &&& t1 >= 2 && t2 < 4 ==> m.row() == one
            &&& t1 < 2 && t2 >= 4 ==> m.row() == two
            &&& t1 >= 2 && t2 >= 4 && t2 * (d1 + 1) >= t1 * (d2 + 1) ==> m.row() == two
            &&& t1 >= 2 && t2 >= 4 && t2 * (d1 + 1) < t1 * (d2 + 1) ==> m.row() == one
        }),
{
}

/// The frequency of a symbol follows its share of the row, of 4096 less one for each
/// symbol: it is less than three below 3840 times its count over the total.
pub proof fn law_freq_follows_count(row: Seq<u16>, s: int)
    requires
        row_ok(row),
        0 <= s < 256,
        bytes::sum_to(row, 256) >= 2,
    ensures
        row_freq(row, s) >= 1,
        (row_freq(row, s) + 2) * bytes::sum_to(row, 256) >= 3840 * row[s],
{
    let t = bytes::sum_to(row, 256);
    let c = row[s] as int;
    let inv = reciprocal(t);
    let p = (c * inv) / 1048576;
    bytes::lemma_sum_to_bound(row, 256);
    lemma_row_bounds(row, 256);
    law_row_cum(row, s);
    lemma_prob_sum(row, s);
    lemma_prob_sum(row, s + 1);
    let q = 4294967296int / t;
    assert(2 <= q < 4294967296 && q * t > 4294967296 - t) by (nonlinear_arith)
        requires
            q == 4294967296int / t,
            2 <= t <= 65536,
    ;
    assert(inv == q);
    assert(c * (q * t) >= c * (4294967296 - t)) by (nonlinear_arith)
        requires
            0 <= c,
            q * t > 4294967296 - t,
    ;
    assert(c * inv * t == c * (q * t)) by (nonlinear_arith)
        requires
            inv == q,
    ;
    assert(c * (4294967296 - t) == 4294967296 * c - c * t) by (nonlinear_arith);
    assert(c * t <= 256 * t) by (nonlinear_arith)
        requires
            c <= 256,
            0 <= t,
    ;
    assert(p * 1048576 > c * inv - 1048576);
    assert((p * 1048576 + 1048576) * t > c * inv * t) by (nonlinear_arith)
        requires
            p * 1048576 + 1048576 > c * inv,
            t > 0,
    ;
    assert((p * 1048576 + 1048576) * t == 1048576 * ((p + 1) * t)) by (nonlinear_arith);
    assert((p + 1) * t == p * t + t) by (nonlinear_arith);
    assert((p + 2) * t == p * t + 2 * t) by (nonlinear_arith);
    assert((p + 2) * t >= 4096 * c);
    let f = row_freq(row, s);
    let big = prob_sum(row, s);
    assert(prob_sum(row, s + 1) == big + p);
    assert(4096 * f > 3840 * p) by {
        let a = big * 3840 + 2048;
        let b = (big + p) * 3840 + 2048;
        assert(b / 4096 - a / 4096 >= (b - a) / 4096);
        assert(row_cum(row, s + 1) >= s + 1 + b / 4096);
        assert(b - a == 3840 * p);
    }
    assert((4096 * f) * t >= 3840 * (p * t)) by (nonlinear_arith)
        requires
            4096 * f >= 3840 * p,
            t > 0,
    ;
    assert((4096 * f) * t == 4096 * (f * t)) by (nonlinear_arith);
    assert((f + 2) * t == f * t + 2 * t) by (nonlinear_arith);
}

/// Hashes a pair of bytes into 4096 contexts.
pub fn hash2(a: u8, b: u8) -> (h: usize)
    ensures
        h == pair_hash(a, b),
        h < ORDER2_CTX,
{
    let x: u64 = a as u64 + 256 * (b as u64);
    ((x * 0x9E3779B1u64) % 4294967296 / 1048576) as usize
}

/// Picks the highest order whose context is at least as concentrated as the
/// lower one.
pub fn pick_order(t1: u32, d1: u32, t2: u32, d2: u32) -> (o: Order)
    ensures
        o == picked(t1 as int, d1 as int, t2 as int, d2 as int),
{
    proof {
        assert(t2 * (d1 + 1) <= 4294967295 * 4294967296) by (nonlinear_arith)
            requires
                0 <= t2 <= 4294967295,
                0 <= d1 <= 4294967295,
        ;
        assert(t1 * (d2 + 1) <= 4294967295 * 4294967296) by (nonlinear_arith)
            requires
                0 <= t1 <= 4294967295,
                0 <= d2 <= 4294967295,
        ;
    }
    if t2 >= MIN_T2 && (t1 < MIN_T1 || (t2 as u64) * (d1 as u64 + 1) >= (t1 as u64) * (d2 as u64
        + 1)) {
        Order::Order2
    } else if t1 >= MIN_T1 {
        Order::Order1
    } else {
        Order::Order0
    }
}

/// A symbol with its frequency interval.
#[derive(Debug, Clone, Copy)]
pub struct WalkResult {
    pub sym: u8,
    pub freq: u32,
    pub cum: u32,
}

/// Count rows of a number of contexts, with the total and the number of
/// distinct symbols of each.
pub struct ByteCountModel {
    counts: Vec<u16>,
    num_ctx: usize,
    totals: Vec<u32>,
    distinct: Vec<u32>,
}

spec fn row_at(counts: Seq<u16>, c: int) -> Seq<u16> {
    counts.subrange(256 * c, 256 * c + 256)
}

impl View for ByteCountModel {
    type V = Seq<Seq<u16>>;

    /// The count rows.
    closed spec fn view(&self) -> Seq<Seq<u16>> {
        Seq::new(self.num_ctx as nat, |c: int| row_at(self.counts@, c))
    }
}

proof fn lemma_sum_eq(a: Seq<u16>, b: Seq<u16>, k: int)
    requires
        0 <= k,
        forall|i: int| 0 <= i < k ==> a[i] == b[i],
    ensures
        bytes::sum_to(a, k) == bytes::sum_to(b, k),
        row_distinct(a, k) == row_distinct(b, k),
    decreases k,
{
    if k > 0 {
        lemma_sum_eq(a, b, k - 1);
    }
}

proof fn lemma_row_bounds(row: Seq<u16>, k: int)
    requires
        row_ok(row),
        0 <= k <= 256,
    ensures
        0 <= bytes::sum_to(row, k) <= 256 * k,
        0 <= row_distinct(row, k) <= k,
    decreases k,
{
    if k > 0 {
        lemma_row_bounds(row, k - 1);
    }
}

/// Adding one to count `b` adds one to the sum, and to the number of distinct
/// symbols where the count was zero.
proof fn lemma_sum_bump(row: Seq<u16>, b: int, k: int)
    requires
        row_ok(row),
        0 <= b < 256,
        0 <= k <= 256,
    ensures
        bytes::sum_to(row.update(b, (row[b] + 1) as u16), k) == bytes::sum_to(row, k) + if b < k {
            1int
        } else {
            0
        },
        row_distinct(row.update(b, (row[b] + 1) as u16), k) == row_distinct(row, k) + if b < k
            && row[b] == 0 {
            1int
        } else {
            0
        },
    decreases k,
{
    if k > 0 {
        lemma_sum_bump(row, b, k - 1);
    }
}

impl ByteCountModel {
    /// The rows are valid and the statistics agree with them.
    pub closed spec fn wf(&self) -> bool {
        &&& self.num_ctx * 256 == self.counts@.len()
        &&& self.totals@.len() == self.num_ctx
        &&& self.distinct@.len() == self.num_ctx
        &&& rows_ok(self@)
        &&& forall|c: int|
            0 <= c < self.num_ctx ==> (#[trigger] self.totals@[c]) == bytes::sum_to(self@[c], 256)
        &&& forall|c: int|
            0 <= c < self.num_ctx ==> (#[trigger] self.distinct@[c]) == row_distinct(self@[c], 256)
    }

    /// The rows of a model are valid.
    pub proof fn law_rows_ok(&self)
        requires
            self.wf(),
        ensures
            rows_ok(self@),
    {
    }

    /// Rows of zeros for `num_ctx` contexts.
    pub fn new(num_ctx: usize) -> (m: Self)
        requires
            num_ctx * 256 <= usize::MAX,
        ensures
            m.wf(),
            m@ == Seq::new(num_ctx as nat, |c: int| Seq::new(256, |i: int| 0u16)),
    {
        let m = Self {
            counts: vec![0u16; num_ctx * 256],
            num_ctx,
            totals: vec![0u32; num_ctx],
            distinct: vec![0u32; num_ctx],
        };
        proof {
            let zero = Seq::new(256, |i: int| 0u16);
            lemma_zero_row(256);
            assert forall|c: int| 0 <= c < num_ctx implies #[trigger] m@[c] == zero by {
                assert(256 * c + 256 <= 256 * num_ctx);
                assert(row_at(m.counts@, c) =~= zero);
            }
            assert(m@ =~= Seq::new(num_ctx as nat, |c: int| zero));
        }
        m
    }

    /// The sum of the counts of a context.
    pub fn total(&self, ctx: usize) -> (t: u32)
        requires
            self.wf(),
            ctx < self@.len(),
        ensures
            t == bytes::sum_to(self@[ctx as int], 256),
    {
        self.totals[ctx]
    }

    /// The number of symbols with a count in a context.
    pub fn distinct(&self, ctx: usize) -> (d: u32)
        requires
            self.wf(),
            ctx < self@.len(),
        ensures
            d == row_distinct(self@[ctx as int], 256),
    {
        self.distinct[ctx]
    }

    /// Walks the distribution of a context once.
    ///
    /// With a `target` byte it captures that byte's interval; with a position
    /// `cdf` it finds the byte whose interval contains it.
    pub fn walk_dist(&self, ctx: usize, target: Option<u8>, cdf: Option<u32>) -> (r: WalkResult)
        requires
            self.wf(),
            ctx < self@.len(),
            target is Some <==> cdf is None,
            cdf matches Some(c) ==> c < BYTE_SCALE,
        ensures
            target matches Some(b) ==> r.sym == b,
            cdf matches Some(c) ==> r.cum <= c < r.cum + r.freq,
            r.freq == row_freq(self@[ctx as int], r.sym as int),
            r.cum == row_cum(self@[ctx as int], r.sym as int),
    {
        let ghost row = self@[ctx as int];
        assert(ctx * 256 + 256 <= self.counts.len());
        let base: usize = ctx * 256;
        proof {
            assert(row_ok(row));
            bytes::lemma_sum_to_bound(row, 256);
            lemma_row_bounds(row, 256);
        }
        let t: u64 = if self.totals[ctx] == 0 {
            1
        } else {
            self.totals[ctx] as u64
        };
        let inv: u64 = (4294967296u64 / t) % 4294967296u64;
        assert(inv == reciprocal(row_scale(row)));
        let mut acc: u64 = 0;
        let mut cum: u32 = 0;
        let mut s: usize = 0;
        while s < 255
            invariant
                s <= 255,
                base == 256 * ctx,
                base + 256 <= self.counts@.len(),
                row == row_at(self.counts@, ctx as int),
                row_ok(row),
                inv == reciprocal(row_scale(row)),
                inv < 4294967296,
                acc == prob_sum(row, s as int) * BUDGET,
                cum == row_cum(row, s as int),
                target is Some <==> cdf is None,
                target matches Some(b) ==> s <= b,
                cdf matches Some(c) ==> cum <= c < BYTE_SCALE,
            ensures
                s == 255 || (s < 255 && ((target matches Some(b) && s == b) || (cdf matches Some(c)
                    && c < row_cum(row, s + 1)))),
                cum == row_cum(row, s as int),
                target matches Some(b) ==> b == s,
            decreases 255 - s,
        {
            let cnt: u64 = self.counts[base + s] as u64;
            assert(cnt == row[s as int]);
            proof {
                lemma_prob_sum(row, s as int);
                lemma_prob_sum(row, s + 1);
                law_row_cum(row, s as int);
                bytes::lemma_sum_to_bound(row, 256);
                bytes::lemma_sum_to_mono(row, s + 1, 256);
                bytes::lemma_sum_to_bound(row, s as int);
                lemma_prob_step(row[s as int] as int, row_scale(row));
            }
            let idx: u64 = (cnt * inv) / 1048576;
            assert(idx <= 4096 && acc <= 4096 * 3840);
            assert(idx * BUDGET <= 4096 * 3840) by (nonlinear_arith)
                requires
                    idx <= 4096,
                    BUDGET == 3840,
            ;
            let next_acc: u64 = acc + idx * BUDGET as u64;
            let next_cum: u32 = s as u32 + 1 + ((next_acc + 2048) / 4096) as u32;
            let hit: bool = match target {
                Some(b) => s == b as usize,
                None => false,
            } || match cdf {
                Some(c) => next_cum > c,
                None => false,
            };
            if hit {
                break ;
            }
            acc = next_acc;
            cum = next_cum;
            s = s + 1;
        }
        proof {
            law_row_cum(row, s as int);
        }
        let sym: u8 = s as u8;
        if s == 255 {
            WalkResult { sym, freq: BYTE_SCALE - cum, cum }
        } else {
            let cnt: u64 = self.counts[base + s] as u64;
            assert(cnt == row[s as int]);
            proof {
                lemma_prob_sum(row, s as int);
                lemma_prob_sum(row, s + 1);
                bytes::lemma_sum_to_bound(row, 256);
                bytes::lemma_sum_to_mono(row, s + 1, 256);
                bytes::lemma_sum_to_bound(row, s as int);
                lemma_prob_step(row[s as int] as int, row_scale(row));
            }
            let next: u64 = acc + ((cnt * inv) / 1048576) * BUDGET as u64;
            let next_cum: u32 = s as u32 + 1 + ((next + 2048) / 4096) as u32;
            WalkResult { sym, freq: next_cum - cum, cum }
        }
    }

    /// Counts `byte` in context `ctx`; halves the row when the count exceeds
    /// the cap.
    pub fn update(&mut self, ctx: usize, byte: u8)
        requires
            old(self).wf(),
            ctx < old(self)@.len(),
        ensures
            final(self).wf(),
            final(self)@ == old(self)@.update(
                ctx as int,
                bump_row(old(self)@[ctx as int], byte as int),
            ),
    {
        let ghost old_counts = self.counts@;
        let ghost old_view = self@;
        let ghost n = self.num_ctx as int;
        let ghost row = self@[ctx as int];
        assert(ctx * 256 + 256 <= self.counts.len());
        let base: usize = ctx * 256;
        let s: usize = byte as usize;
        proof {
            assert(row_ok(row));
            lemma_row_bounds(row, 256);
            lemma_sum_bump(row, s as int, 256);
            lemma_bump_ok(row, s as int);
            assert(old_counts[base + s] == row[s as int]);
        }
        let c: u16 = self.counts[base + s] + 1;
        self.counts[base + s] = c;
        if c == 1 {
            self.distinct[ctx] = self.distinct[ctx] + 1;
        }
        self.totals[ctx] = self.totals[ctx] + 1;
        let ghost bumped = row.update(s as int, c);
        assert(row_at(self.counts@, ctx as int) =~= bumped);
        if c > COUNT_CAP {
            let ghost mid = self.counts@;
            let ghost halved = bump_row(row, s as int);
            let mut t: u32 = 0;
            let mut d: u32 = 0;
            let mut i: usize = 0;
            while i < 256
                invariant
                    i <= 256,
                    base == 256 * ctx,
                    base + 256 <= self.counts@.len(),
                    self.counts@.len() == mid.len(),
                    halved.len() == 256,
                    row_ok(halved),
                    forall|j: int| 0 <= j < 256 ==> #[trigger] halved[j] == mid[base + j] / 2,
                    forall|j: int|
                        0 <= j < mid.len() ==> #[trigger] self.counts@[j] == if base <= j < base
                            + i {
                            halved[j - base]
                        } else {
                            mid[j]
                        },
                    t == bytes::sum_to(halved, i as int),
                    d == row_distinct(halved, i as int),
                    t <= 256 * i,
                    d <= i,
                    self.num_ctx == n,
                    self.totals@.len() == n,
                    self.distinct@.len() == n,
                    self.totals@ == old(self).totals@.update(ctx as int, self.totals@[ctx as int]),
                    self.distinct@ == old(self).distinct@.update(
                        ctx as int,
                        self.distinct@[ctx as int],
                    ),
                decreases 256 - i,
            {
                let v: u16 = self.counts[base + i] / 2;
                assert(halved[i as int] == v);
                self.counts[base + i] = v;
                t = t + v as u32;
                if v > 0 {
                    d = d + 1;
                }
                i = i + 1;
            }
            self.totals[ctx] = t;
            self.distinct[ctx] = d;
            assert(row_at(self.counts@, ctx as int) =~= halved);
        }
        proof {
            let new_row = bump_row(row, s as int);
            assert(self@[ctx as int] =~= new_row);
            assert forall|k: int| 0 <= k < n && k != ctx implies #[trigger] self@[k]
                == old_view[k] by {
                assert(row_at(self.counts@, k) =~= row_at(old_counts, k)) by {
                    assert(256 * k + 256 <= 256 * n);
                    assert(k < ctx ==> 256 * k + 256 <= base);
                    assert(k > ctx ==> 256 * k >= base + 256);
                }
            }
            assert(self@ =~= old_view.update(ctx as int, new_row));
        }
    }
}

/// The three count models and the two previous bytes of a running block.
struct BlockState {
    o0: ByteCountModel,
    o1: ByteCountModel,
    o2: ByteCountModel,
    rows2: usize,
    p_1: u8,
    p_2: u8,
}

impl View for BlockState {
    type V = ByteModel;

    closed spec fn view(&self) -> ByteModel {
        ByteModel { o0: self.o0@, o1: self.o1@, o2: self.o2@, p_1: self.p_1, p_2: self.p_2 }
    }
}

impl BlockState {
    spec fn wf(&self) -> bool {
        &&& self@.wf()
        &&& self.o0.wf()
        &&& self.o1.wf()
        &&& self.o2.wf()
        &&& self.rows2 == self.o2@.len()
    }

    fn new(n: usize) -> (st: Self)
        ensures
            st.wf(),
            st@ == ByteModel::init(n as int),
    {
        let rows2: usize = if n >= BIG_BLOCK {
            ORDER2_CTX
        } else {
            ORDER2_CTX_SMALL
        };
        let st = Self {
            o0: ByteCountModel::new(1),
            o1: ByteCountModel::new(256),
            o2: ByteCountModel::new(rows2),
            rows2,
            p_1: 0,
            p_2: 0,
        };
        proof {
            lemma_wf_init(n as int);
            assert(st@ =~= ByteModel::init(n as int));
        }
        st
    }

    fn context2(&self) -> (c: usize)
        requires
            self.wf(),
        ensures
            c == self@.c2(),
            c < self.o2@.len(),
    {
        hash2(self.p_1, self.p_2) % self.rows2
    }

    /// Walks the distribution that codes the next byte.
    fn walk(&self, target: Option<u8>, cdf: Option<u32>) -> (r: WalkResult)
        requires
            self.wf(),
            target is Some <==> cdf is None,
            cdf matches Some(c) ==> c < BYTE_SCALE,
        ensures
            target matches Some(b) ==> r.sym == b,
            cdf matches Some(c) ==> r.cum <= c < r.cum + r.freq,
            r.freq == row_freq(self@.row(), r.sym as int),
            r.cum == row_cum(self@.row(), r.sym as int),
            byterans::valid_interval(r.freq as int, r.cum as int),
    {
        let c1: usize = self.p_1 as usize;
        let c2: usize = self.context2();
        let ord = pick_order(
            self.o1.total(c1),
            self.o1.distinct(c1),
            self.o2.total(c2),
            self.o2.distinct(c2),
        );
        let r = match ord {
            Order::Order0 => self.o0.walk_dist(0, target, cdf),
            Order::Order1 => self.o1.walk_dist(c1, target, cdf),
            Order::Order2 => self.o2.walk_dist(c2, target, cdf),
        };
        proof {
            lemma_wf_step(self@, 0);
            law_row_cum(self@.row(), r.sym as int);
        }
        r
    }

    fn step(&mut self, b: u8)
        requires
            old(self).wf(),
        ensures
            final(self).wf(),
            final(self)@ == old(self)@.step(b),
    {
        proof {
            lemma_wf_step(self@, b);
        }
        let ghost before = self@;
        let c1: usize = self.p_1 as usize;
        let c2: usize = self.context2();
        self.o0.update(0, b);
        self.o1.update(c1, b);
        self.o2.update(c2, b);
        self.p_2 = self.p_1;
        self.p_1 = b;
        assert(self@ =~= before.step(b));
    }
}

/// Compresses one block's worth of bytes into an rANS byte stream.
pub fn compress_block(data: &[u8]) -> (out: Vec<u8>)
    ensures
        out@ == block_stream(data@),
{
    let mut st = BlockState::new(data.len());
    let mut enc = RansByteEncoder::new();
    let ghost syms = block_syms(st@, data@);
    let mut i: usize = 0;
    assert(data@.skip(0) =~= data@);
    assert(enc@ + block_syms(st@, data@.skip(0)) =~= syms);
    proof {
        lemma_block_bytes(st@, data@);
    }
    while i < data.len()
        invariant
            i <= data@.len(),
            st.wf(),
            enc@ + block_syms(st@, data@.skip(i as int)) == syms,
        decreases data@.len() - i,
    {
        let b: u8 = data[i];
        let ghost rest = data@.skip(i as int);
        let ghost before = st@;
        let wr = st.walk(Some(b), None);
        assert(rest[0] == b);
        assert(rest.drop_first() =~= data@.skip(i + 1));
        let ghost coded = enc@;
        enc.encode_fc(wr.freq, wr.cum);
        st.step(b);
        i = i + 1;
        assert(enc@ + block_syms(st@, data@.skip(i as int)) =~= coded + block_syms(before, rest));
    }
    assert(data@.skip(i as int).len() == 0);
    assert(enc@ =~= syms);
    enc.finish()
}

/// Decompresses a block stream from `compress_block`.
///
/// Fails exactly on a stream that is too short to hold a state or whose state
/// is not normalized.
pub fn decompress_block(comp: &[u8], orig_len: usize) -> (r: Result<Vec<u8>, RcnError>)
    ensures
        error::outcome(r) == block_decoded(comp@, orig_len as int),
{
    let mut dec = match RansByteDecoder::new(comp) {
        Ok(dec) => dec,
        Err(_) => return Err(error::corrupt("short rANS stream")),
    };
    if bytes::get_u32(comp, 0) < BYTE_L {
        return Err(error::corrupt("bad rANS state"));
    }
    let mut st = BlockState::new(orig_len);
    let ghost whole = block_bytes(st@, dec@, orig_len as int);
    let mut out: Vec<u8> = Vec::new();
    let mut n: usize = orig_len;
    assert(out@ + block_bytes(st@, dec@, n as int) =~= whole);
    while n > 0
        invariant
            st.wf(),
            dec@.x >= BYTE_L,
            out@ + block_bytes(st@, dec@, n as int) == whole,
        decreases n,
    {
        let ghost before = st@;
        let ghost s = dec@;
        let ghost done = out@;
        let cdf: u32 = dec.cdf();
        let wr = st.walk(None, Some(cdf));
        proof {
            lemma_wf_step(before, 0);
            lemma_row_symbol(before.row(), cdf as int, wr.sym as int);
            byterans::lemma_advance_normalized(s, wr.freq as int, wr.cum as int);
        }
        dec.advance(wr.freq, wr.cum);
        st.step(wr.sym);
        out.push(wr.sym);
        n = n - 1;
        assert(out@ + block_bytes(st@, dec@, n as int) =~= done + block_bytes(before, s, n + 1));
    }
    assert(out@ =~= whole);
    Ok(out)
}

proof fn lemma_zero_row(k: int)
    requires
        0 <= k <= 256,
    ensures
        bytes::sum_to(Seq::new(256, |i: int| 0u16), k) == 0,
        row_distinct(Seq::new(256, |i: int| 0u16), k) == 0,
    decreases k,
{
    if k > 0 {
        lemma_zero_row(k - 1);
    }
}

} // verus!
