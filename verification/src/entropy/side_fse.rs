//! Order-0 entropy coding for the match side-stream.
//!
//! One stationary byte distribution over a packed blob, coded with the byte
//! rANS coder. A flag tells whether the payload is coded or raw, so that data
//! which does not shrink is stored as it is.

use crate::bytes;
use crate::entropy::byterans;
use crate::entropy::byterans::{RansByteDecoder, RansByteEncoder, BYTE_L, BYTE_SCALE};
use vstd::prelude::*;

verus! {

/// Side-stream stored as raw bytes.
pub const FLAG_RAW: u8 = 0;

/// Side-stream entropy-coded with order-0 byte rANS.
pub const FLAG_FSE: u8 = 1;

/// How often byte `b` occurs in `data`.
pub open spec fn occurrences(data: Seq<u8>, b: int) -> int
    decreases data.len(),
{
    if data.len() == 0 {
        0
    } else {
        occurrences(data.drop_last(), b) + if data.last() == b {
            1int
        } else {
            0
        }
    }
}

/// The number of occurrences of every byte value.
pub open spec fn histogram(data: Seq<u8>) -> Seq<u32> {
    Seq::new(256, |b: int| occurrences(data, b) as u32)
}

/// The sum of the first `k` counts.
pub open spec fn count_sum(c: Seq<u32>, k: int) -> int
    decreases k,
{
    if k <= 0 {
        0
    } else {
        count_sum(c, k - 1) + c[k - 1]
    }
}

/// How many of the first `k` counts are not zero.
pub open spec fn present(c: Seq<u32>, k: int) -> int
    decreases k,
{
    if k <= 0 {
        0
    } else {
        present(c, k - 1) + if c[k - 1] > 0 {
            1int
        } else {
            0
        }
    }
}

/// The first index among the first `k` that has the largest count.
pub open spec fn first_max(c: Seq<u32>, k: int) -> int
    decreases k,
{
    if k <= 1 {
        0
    } else if c[k - 1] > c[first_max(c, k - 1)] {
        k - 1
    } else {
        first_max(c, k - 1)
    }
}

/// The share of symbol `i`: one slot, and its part of the remaining ones,
/// rounded down.
pub open spec fn share(c: Seq<u32>, i: int) -> int {
    if c[i] == 0 {
        0
    } else {
        1 + (c[i] * (BYTE_SCALE - present(c, 256))) / count_sum(c, 256)
    }
}

/// The sum of the first `k` shares.
pub open spec fn share_sum(c: Seq<u32>, k: int) -> int
    decreases k,
{
    if k <= 0 {
        0
    } else {
        share_sum(c, k - 1) + share(c, k - 1)
    }
}

/// The distribution of a histogram: every symbol has its share, and the most
/// frequent one also what rounding left over. An empty histogram is uniform.
pub open spec fn normalized(c: Seq<u32>) -> Seq<u16> {
    if count_sum(c, 256) == 0 {
        Seq::new(256, |i: int| 16u16)
    } else {
        Seq::new(
            256,
            |i: int|
                (share(c, i) + if i == first_max(c, 256) {
                    BYTE_SCALE - share_sum(c, 256)
                } else {
                    0
                }) as u16,
        )
    }
}

proof fn lemma_count_bounds(c: Seq<u32>, k: int)
    requires
        0 <= k <= c.len(),
    ensures
        0 <= present(c, k) <= k,
        present(c, k) <= count_sum(c, k),
        forall|i: int| 0 <= i < k ==> c[i] <= count_sum(c, k),
        forall|i: int| 0 <= i < k && c[i] > 0 ==> present(c, k) >= 1,
        count_sum(c, k) > 0 ==> present(c, k) >= 1,
    decreases k,
{
    if k > 0 {
        lemma_count_bounds(c, k - 1);
    }
}

proof fn lemma_count_mono(c: Seq<u32>, i: int, j: int)
    requires
        i <= j,
    ensures
        count_sum(c, i) <= count_sum(c, j),
        present(c, i) <= present(c, j),
    decreases j - i,
{
    if i < j {
        lemma_count_mono(c, i, j - 1);
    }
}

proof fn lemma_first_max(c: Seq<u32>, k: int)
    requires
        1 <= k <= c.len(),
    ensures
        0 <= first_max(c, k) < k,
    decreases k,
{
    if k > 1 {
        lemma_first_max(c, k - 1);
    }
}

proof fn lemma_share_step(c: int, rest: int, total: int, before: int)
    requires
        0 < total,
        0 <= c,
        0 <= before,
        0 <= rest,
    ensures
        0 <= (c * rest) / total,
        ((c * rest) / total) * total <= c * rest,
        c <= total ==> (c * rest) / total <= rest,
{
    let q = (c * rest) / total;
    assert(c * rest >= 0) by (nonlinear_arith)
        requires
            c >= 0,
            rest >= 0,
    ;
    assert(q * total <= c * rest && q >= 0) by (nonlinear_arith)
        requires
            q == (c * rest) / total,
            total > 0,
            c * rest >= 0,
    ;
    if c <= total {
        assert(q <= rest) by (nonlinear_arith)
            requires
                q * total <= c * rest,
                c <= total,
                total > 0,
                rest >= 0,
                c >= 0,
        ;
    }
}

/// The shares of the first `k` symbols leave room for the rest.
proof fn lemma_share_sum(c: Seq<u32>, k: int)
    requires
        c.len() == 256,
        0 <= k <= 256,
        count_sum(c, 256) > 0,
    ensures
        0 <= share_sum(c, k),
        present(c, k) <= share_sum(c, k),
        (share_sum(c, k) - present(c, k)) * count_sum(c, 256) <= count_sum(c, k) * (BYTE_SCALE
            - present(c, 256)),
        share_sum(c, k) <= BYTE_SCALE,
    decreases k,
{
    let total = count_sum(c, 256);
    let rest = BYTE_SCALE - present(c, 256);
    lemma_count_bounds(c, 256);
    lemma_count_bounds(c, k);
    if k > 0 {
        lemma_share_sum(c, k - 1);
        let ck = c[k - 1] as int;
        lemma_share_step(ck, rest, total, 0);
        let q = (ck * rest) / total;
        let a = share_sum(c, k - 1) - present(c, k - 1);
        let s = count_sum(c, k - 1);
        assert(a * total + q * total <= s * rest + ck * rest);
        assert((a + q) * total == a * total + q * total) by (nonlinear_arith);
        assert((s + ck) * rest == s * rest + ck * rest) by (nonlinear_arith);
        if ck == 0 {
            assert(ck * rest == 0) by (nonlinear_arith)
                requires
                    ck == 0,
            ;
            assert(a * total <= (s + ck) * rest);
        }
    } else {
        assert(0 * total == 0);
    }
    lemma_count_mono(c, k, 256);
    let b = share_sum(c, k) - present(c, k);
    let s = count_sum(c, k);
    assert(b <= rest) by (nonlinear_arith)
        requires
            b * total <= s * rest,
            s <= total,
            total > 0,
            rest >= 0,
    ;
}

/// The first `k` frequencies of a distribution sum to the first `k` shares and
/// what rounding left over.
proof fn lemma_normalized_sum(c: Seq<u32>, k: int)
    requires
        c.len() == 256,
        0 <= k <= 256,
        count_sum(c, 256) > 0,
    ensures
        bytes::sum_to(normalized(c), k) == share_sum(c, k) + if k > first_max(c, 256) {
            BYTE_SCALE - share_sum(c, 256)
        } else {
            0
        },
    decreases k,
{
    lemma_first_max(c, 256);
    if k > 0 {
        lemma_normalized_sum(c, k - 1);
        lemma_share_fits(c, k - 1);
    }
}

/// A frequency fits in the scale.
proof fn lemma_share_fits(c: Seq<u32>, i: int)
    requires
        c.len() == 256,
        0 <= i < 256,
        count_sum(c, 256) > 0,
    ensures
        0 <= share(c, i),
        c[i] > 0 ==> share(c, i) >= 1,
        share(c, i) + BYTE_SCALE - share_sum(c, 256) <= BYTE_SCALE,
        share_sum(c, 256) <= BYTE_SCALE,
{
    lemma_share_sum(c, 256);
    lemma_share_nonneg(c, i);
    lemma_share_part(c, i, 256);
}

proof fn lemma_share_nonneg(c: Seq<u32>, i: int)
    requires
        c.len() == 256,
        0 <= i < 256,
        count_sum(c, 256) > 0,
    ensures
        0 <= share(c, i),
        c[i] > 0 ==> share(c, i) >= 1,
{
    lemma_count_bounds(c, 256);
    lemma_share_step(c[i] as int, BYTE_SCALE - present(c, 256), count_sum(c, 256), 0);
}

proof fn lemma_share_part(c: Seq<u32>, i: int, k: int)
    requires
        c.len() == 256,
        0 <= i < k <= 256,
        count_sum(c, 256) > 0,
    ensures
        share(c, i) <= share_sum(c, k),
    decreases k,
{
    lemma_share_nonneg(c, k - 1);
    if i < k - 1 {
        lemma_share_part(c, i, k - 1);
    } else {
        lemma_share_sum(c, k - 1);
    }
}

/// A normalized distribution sums to the scale, and every symbol that occurs
/// has a frequency.
pub proof fn law_normalized(c: Seq<u32>)
    requires
        c.len() == 256,
    ensures
        normalized(c).len() == 256,
        bytes::sum_to(normalized(c), 256) == BYTE_SCALE,
        forall|i: int| 0 <= i < 256 && c[i] > 0 ==> normalized(c)[i] >= 1,
{
    if count_sum(c, 256) == 0 {
        lemma_uniform(256);
        lemma_count_bounds(c, 256);
    } else {
        lemma_count_nonneg(c, 256);
        lemma_first_max(c, 256);
        lemma_normalized_sum(c, 256);
        assert forall|i: int| 0 <= i < 256 && c[i] > 0 implies normalized(c)[i] >= 1 by {
            lemma_share_fits(c, i);
        }
    }
}

proof fn lemma_count_nonneg(c: Seq<u32>, k: int)
    requires
        0 <= k,
    ensures
        0 <= count_sum(c, k),
    decreases k,
{
    if k > 0 {
        lemma_count_nonneg(c, k - 1);
    }
}

proof fn lemma_uniform(k: int)
    requires
        0 <= k <= 256,
    ensures
        bytes::sum_to(Seq::new(256, |i: int| 16u16), k) == 16 * k,
    decreases k,
{
    if k > 0 {
        lemma_uniform(k - 1);
    }
}

/// A frequency follows its share of the data: of the 4096 it has at least 3840 times
/// the count over the total.
pub proof fn law_freq_follows_count(c: Seq<u32>, i: int)
    requires
        c.len() == 256,
        0 <= i < 256,
        count_sum(c, 256) > 0,
    ensures
        normalized(c)[i] * count_sum(c, 256) >= 3840 * c[i],
{
    let total = count_sum(c, 256);
    lemma_share_fits(c, i);
    lemma_count_bounds(c, 256);
    lemma_first_max(c, 256);
    lemma_share_sum(c, 256);
    let v = c[i] as int;
    let rest = BYTE_SCALE - present(c, 256);
    let f = normalized(c)[i] as int;
    assert(f >= share(c, i));
    if v > 0 {
        let q = (v * rest) / total;
        assert((q + 1) * total >= v * rest) by (nonlinear_arith)
            requires
                q == (v * rest) / total,
                total > 0,
        ;
        assert(f * total >= (q + 1) * total) by (nonlinear_arith)
            requires
                f >= q + 1,
                total > 0,
        ;
        assert(v * rest >= v * 3840) by (nonlinear_arith)
            requires
                rest >= 3840,
                v >= 0,
        ;
    } else {
        assert(f * total >= 0) by (nonlinear_arith)
            requires
                f >= 0,
                total > 0,
        ;
    }
}

/// Normalizes a histogram to a distribution that sums to `BYTE_SCALE`, with
/// every observed symbol getting at least frequency 1.
pub fn normalize_freqs(counts: &[u32; 256]) -> (freqs: [u16; 256])
    requires
        count_sum(counts@, 256) <= u32::MAX,
    ensures
        freqs@ == normalized(counts@),
{
    let ghost c = counts@;
    let mut total: u32 = 0;
    let mut seen: u32 = 0;
    let mut i: usize = 0;
    while i < 256
        invariant
            i <= 256,
            c == counts@,
            count_sum(c, 256) <= u32::MAX,
            total == count_sum(c, i as int),
            seen == present(c, i as int),
            seen <= i,
        decreases 256 - i,
    {
        proof {
            lemma_count_mono(c, i + 1, 256);
        }
        total = total + counts[i];
        if counts[i] > 0 {
            seen = seen + 1;
        }
        i = i + 1;
    }
    if total == 0 {
        let freqs: [u16; 256] = [16u16; 256];
        assert(freqs@ =~= normalized(c));
        return freqs;
    }
    let rest: u32 = BYTE_SCALE - seen;
    let mut freqs: [u16; 256] = [0u16; 256];
    let mut assigned: u32 = 0;
    let mut max_i: usize = 0;
    let mut max_c: u32 = 0;
    let mut i: usize = 0;
    while i < 256
        invariant
            i <= 256,
            c == counts@,
            c.len() == 256,
            freqs@.len() == 256,
            0 < total,
            total == count_sum(c, 256),
            rest == BYTE_SCALE - present(c, 256),
            rest <= 4096,
            assigned == share_sum(c, i as int),
            max_i < 256,
            i > 0 ==> max_i == first_max(c, i as int),
            i > 0 ==> max_c == c[max_i as int],
            i == 0 ==> max_i == 0 && max_c == 0,
            forall|j: int| 0 <= j < i ==> freqs@[j] == share(c, j),
            forall|j: int| i <= j < 256 ==> freqs@[j] == 0,
        decreases 256 - i,
    {
        proof {
            lemma_share_sum(c, i + 1);
            lemma_share_sum(c, i as int);
            lemma_share_fits(c, i as int);
            lemma_count_bounds(c, 256);
        }
        let cnt: u32 = counts[i];
        if cnt > max_c {
            max_c = cnt;
            max_i = i;
        }
        if cnt != 0 {
            proof {
                assert(cnt * rest <= 4096 * 4294967295) by (nonlinear_arith)
                    requires
                        0 <= cnt <= 4294967295,
                        0 <= rest <= 4096,
                ;
            }
            let extra: u64 = (cnt as u64 * rest as u64) / (total as u64);
            let part: u32 = 1 + extra as u32;
            freqs[i] = part as u16;
            assigned = assigned + part;
        }
        i = i + 1;
    }
    proof {
        lemma_share_fits(c, max_i as int);
    }
    freqs[max_i] = freqs[max_i] + (BYTE_SCALE - assigned) as u16;
    assert(freqs@ =~= normalized(c)) by {
        assert forall|j: int| 0 <= j < 256 implies freqs@[j] == normalized(c)[j] by {
            lemma_share_fits(c, j);
        }
    }
    freqs
}

/// The value of bit `k` of a byte.
pub open spec fn bit_value(k: int) -> int {
    if k == 0 {
        1
    } else if k == 1 {
        2
    } else if k == 2 {
        4
    } else if k == 3 {
        8
    } else if k == 4 {
        16
    } else if k == 5 {
        32
    } else if k == 6 {
        64
    } else {
        128
    }
}

/// Whether bit `k` of `b` is set.
pub open spec fn bit_of(b: u8, k: int) -> bool {
    (b as int / bit_value(k)) % 2 == 1
}

spec fn mark(f: Seq<u16>, i: int) -> int {
    if f[i] > 0 {
        1
    } else {
        0
    }
}

/// Byte `j` of the bitmap of the symbols that have a frequency; bit `k` stands
/// for symbol `8 * j + k`.
pub closed spec fn bitmap_byte(f: Seq<u16>, j: int) -> u8 {
    (mark(f, 8 * j) + 2 * mark(f, 8 * j + 1) + 4 * mark(f, 8 * j + 2) + 8 * mark(f, 8 * j + 3) + 16
        * mark(f, 8 * j + 4) + 32 * mark(f, 8 * j + 5) + 64 * mark(f, 8 * j + 6) + 128 * mark(
        f,
        8 * j + 7,
    )) as u8
}

/// The bitmap of the symbols that have a frequency.
pub open spec fn bitmap(f: Seq<u16>) -> Seq<u8> {
    Seq::new(32, |j: int| bitmap_byte(f, j))
}

/// The frequencies of the symbols below `k` that have one.
pub open spec fn sparse(f: Seq<u16>, k: int) -> Seq<u8>
    decreases k,
{
    if k <= 0 {
        Seq::empty()
    } else if f[k - 1] > 0 {
        sparse(f, k - 1) + bytes::le16(f[k - 1] as int)
    } else {
        sparse(f, k - 1)
    }
}

/// The intervals that the bytes of `data` have in the distribution `f`.
pub open spec fn order0_syms(data: Seq<u8>, f: Seq<u16>) -> Seq<(u32, u32)> {
    Seq::new(
        data.len(),
        |i: int| (f[data[i] as int] as u32, bytes::sum_to(f, data[i] as int) as u32),
    )
}

/// The frame for `data` under the distribution `f`: its length, the bitmap, the
/// frequencies and the rANS stream.
pub open spec fn order0_frame_with(data: Seq<u8>, f: Seq<u16>) -> Seq<u8> {
    bytes::le32(data.len() as int) + bitmap(f) + sparse(f, 256) + byterans::rans_stream(
        order0_syms(data, f),
    )
}

/// The frame that `compress_order0` makes.
pub open spec fn order0_frame(data: Seq<u8>) -> Seq<u8> {
    order0_frame_with(data, normalized(histogram(data)))
}

/// The frequencies of the symbols below `k` as read from a frame, and the
/// position behind them; nothing if the frame ends too early.
pub open spec fn read_freqs(payload: Seq<u8>, k: int) -> Option<(Seq<u16>, int)>
    decreases k,
{
    if k <= 0 {
        Some((Seq::empty(), 36))
    } else {
        match read_freqs(payload, k - 1) {
            None => None,
            Some((f, pos)) => if bit_of(payload[4 + (k - 1) / 8], (k - 1) % 8) {
                if pos + 2 > payload.len() {
                    None
                } else {
                    Some((f.push(bytes::un_le16(payload, pos) as u16), pos + 2))
                }
            } else {
                Some((f.push(0), pos))
            },
        }
    }
}

/// The `n` symbols that a decoder in state `s` reads against `f`.
pub open spec fn order0_symbols(s: byterans::RansState, f: Seq<u16>, n: int) -> Seq<u8>
    decreases n,
{
    if n <= 0 {
        Seq::empty()
    } else {
        let sym = byterans::symbol_at(f, byterans::state_cdf(s));
        seq![sym as u8] + order0_symbols(
            byterans::rans_advance(s, f[sym] as int, bytes::sum_to(f, sym)),
            f,
            n - 1,
        )
    }
}

/// What a frame decodes to. A frame is corrupt if it is cut short, if its
/// frequencies do not sum to the scale or if its state is not normalized.
pub open spec fn order0_decoded(payload: Seq<u8>) -> Option<Seq<u8>> {
    if payload.len() < 36 {
        None
    } else {
        match read_freqs(payload, 256) {
            None => None,
            Some((f, pos)) => {
                if bytes::sum_to(f, 256) != BYTE_SCALE || pos + 4 > payload.len()
                    || bytes::un_le32(payload, pos) < BYTE_L {
                    None
                } else {
                    Some(
                        order0_symbols(
                            byterans::RansState {
                                x: bytes::un_le32(payload, pos),
                                rest: payload.skip(pos + 4),
                            },
                            f,
                            bytes::un_le32(payload, 0),
                        ),
                    )
                }
            },
        }
    }
}

proof fn lemma_bitmap_bit(f: Seq<u16>, i: int)
    requires
        f.len() == 256,
        0 <= i < 256,
    ensures
        bit_of(bitmap(f)[i / 8], i % 8) <==> f[i] > 0,
{
    let j = i / 8;
    let k = i % 8;
    assert(i == 8 * j + k);
    assert(0 <= j < 32);
    let b = bitmap_byte(f, j);
    let m0 = mark(f, 8 * j);
    let m1 = mark(f, 8 * j + 1);
    let m2 = mark(f, 8 * j + 2);
    let m3 = mark(f, 8 * j + 3);
    let m4 = mark(f, 8 * j + 4);
    let m5 = mark(f, 8 * j + 5);
    let m6 = mark(f, 8 * j + 6);
    let m7 = mark(f, 8 * j + 7);
    assert(b as int == m0 + 2 * m1 + 4 * m2 + 8 * m3 + 16 * m4 + 32 * m5 + 64 * m6 + 128 * m7);
    assert(b as int / 2 == m1 + 2 * m2 + 4 * m3 + 8 * m4 + 16 * m5 + 32 * m6 + 64 * m7);
    assert(b as int / 4 == m2 + 2 * m3 + 4 * m4 + 8 * m5 + 16 * m6 + 32 * m7);
    assert(b as int / 8 == m3 + 2 * m4 + 4 * m5 + 8 * m6 + 16 * m7);
    assert(b as int / 16 == m4 + 2 * m5 + 4 * m6 + 8 * m7);
    assert(b as int / 32 == m5 + 2 * m6 + 4 * m7);
    assert(b as int / 64 == m6 + 2 * m7);
    assert(b as int / 128 == m7);
}

proof fn lemma_sparse_len(f: Seq<u16>, i: int, j: int)
    requires
        i <= j,
    ensures
        sparse(f, i).len() <= sparse(f, j).len(),
        sparse(f, j).take(sparse(f, i).len() as int) == sparse(f, i),
    decreases j - i,
{
    if i < j {
        lemma_sparse_len(f, i, j - 1);
        assert(sparse(f, j).take(sparse(f, i).len() as int) =~= sparse(f, j - 1).take(
            sparse(f, i).len() as int,
        ));
    } else {
        assert(sparse(f, j).take(sparse(f, i).len() as int) =~= sparse(f, i));
    }
}

/// Reading the frequencies of a frame gives back those it was made with.
proof fn lemma_read_freqs(data: Seq<u8>, f: Seq<u16>, k: int)
    requires
        f.len() == 256,
        0 <= k <= 256,
    ensures
        read_freqs(order0_frame_with(data, f), k) == Some(
            (f.take(k), 36 + sparse(f, k).len() as int),
        ),
    decreases k,
{
    let p = order0_frame_with(data, f);
    let stream = byterans::rans_stream(order0_syms(data, f));
    if k > 0 {
        lemma_read_freqs(data, f, k - 1);
        let pos = 36 + sparse(f, k - 1).len() as int;
        assert(p[4 + (k - 1) / 8] == bitmap(f)[(k - 1) / 8]);
        lemma_bitmap_bit(f, k - 1);
        assert(f.take(k) =~= f.take(k - 1).push(f[k - 1]));
        if f[k - 1] > 0 {
            lemma_sparse_len(f, k, 256);
            let sub = p.subrange(pos, pos + 2);
            let word = bytes::le16(f[k - 1] as int);
            assert forall|t: int| 0 <= t < 2 implies sub[t] == word[t] by {
                let at = sparse(f, k - 1).len() + t;
                assert(sub[t] == p[pos + t]);
                assert(p[pos + t] == sparse(f, 256)[at]);
                assert(sparse(f, 256).take(sparse(f, k).len() as int)[at] == sparse(f, 256)[at]);
                assert(sparse(f, k)[at] == word[t]);
            }
            assert(sub =~= word);
            bytes::lemma_un_le16(p, pos, f[k - 1] as int);
        }
    } else {
        assert(f.take(0) =~= Seq::<u16>::empty());
    }
}

/// Decoding the intervals of `data` against the distribution they came from
/// gives `data`.
proof fn lemma_order0_symbols(data: Seq<u8>, f: Seq<u16>)
    requires
        f.len() == 256,
        bytes::sum_to(f, 256) == BYTE_SCALE,
        forall|i: int| 0 <= i < data.len() ==> f[(#[trigger] data[i]) as int] >= 1,
    ensures
        byterans::valid_syms(order0_syms(data, f)),
        order0_symbols(byterans::rans_encode(order0_syms(data, f)), f, data.len() as int) == data,
    decreases data.len(),
{
    let syms = order0_syms(data, f);
    assert forall|i: int| 0 <= i < syms.len() implies byterans::valid_interval(
        (#[trigger] syms[i]).0 as int,
        syms[i].1 as int,
    ) by {
        lemma_interval(f, data[i]);
        assert(f[data[i] as int] >= 1);
    }
    if data.len() > 0 {
        let tail = data.drop_first();
        assert forall|i: int| 0 <= i < tail.len() implies f[(#[trigger] tail[i]) as int] >= 1 by {
            assert(tail[i] == data[i + 1]);
        }
        lemma_order0_symbols(tail, f);
        assert(order0_syms(tail, f) =~= syms.drop_first());
        byterans::law_rans_round_trip(syms);
        let s = byterans::rans_encode(syms);
        assert(f[data[0] as int] >= 1);
        lemma_interval(f, data[0]);
        byterans::lemma_symbol_at(f, byterans::state_cdf(s), data[0] as int);
        assert(seq![data[0]] + tail =~= data);
    } else {
        assert(data =~= Seq::<u8>::empty());
    }
}

proof fn lemma_interval(f: Seq<u16>, b: u8)
    requires
        f.len() == 256,
        bytes::sum_to(f, 256) == BYTE_SCALE,
    ensures
        0 <= bytes::sum_to(f, b as int),
        bytes::sum_to(f, b as int) + f[b as int] == bytes::sum_to(f, b + 1),
        bytes::sum_to(f, b + 1) <= BYTE_SCALE,
{
    bytes::lemma_sum_to_bound(f, b as int);
    bytes::lemma_sum_to_mono(f, b + 1, 256);
}

proof fn lemma_occurrences(data: Seq<u8>, b: int)
    ensures
        0 <= occurrences(data, b) <= data.len(),
        (exists|i: int| 0 <= i < data.len() && data[i] == b) ==> occurrences(data, b) >= 1,
    decreases data.len(),
{
    if data.len() > 0 {
        lemma_occurrences(data.drop_last(), b);
        if exists|i: int| 0 <= i < data.len() && data[i] == b {
            let i = choose|i: int| 0 <= i < data.len() && data[i] == b;
            if i < data.len() - 1 {
                assert(data.drop_last()[i] == b);
            }
        }
    }
}

/// Every symbol of `data` has a frequency in the distribution of its histogram.
proof fn lemma_data_freqs(data: Seq<u8>)
    requires
        data.len() <= u32::MAX,
    ensures
        normalized(histogram(data)).len() == 256,
        bytes::sum_to(normalized(histogram(data)), 256) == BYTE_SCALE,
        forall|i: int|
            0 <= i < data.len() ==> normalized(histogram(data))[(#[trigger] data[i]) as int] >= 1,
{
    law_normalized(histogram(data));
    assert forall|i: int| 0 <= i < data.len() implies normalized(
        histogram(data),
    )[(#[trigger] data[i]) as int] >= 1 by {
        lemma_occurrences(data, data[i] as int);
        assert(histogram(data)[data[i] as int] >= 1);
    }
}

#[verifier::rlimit(40)]
#[verifier::spinoff_prover]
proof fn lemma_frame_decoded(data: Seq<u8>, f: Seq<u16>)
    requires
        data.len() <= u32::MAX,
        f.len() == 256,
        bytes::sum_to(f, 256) == BYTE_SCALE,
        forall|i: int| 0 <= i < data.len() ==> f[(#[trigger] data[i]) as int] >= 1,
    ensures
        order0_decoded(order0_frame_with(data, f)) == Some(data),
{
    lemma_order0_symbols(data, f);
    lemma_read_freqs(data, f, 256);
    assert(f.take(256) =~= f);
    let p = order0_frame_with(data, f);
    let syms = order0_syms(data, f);
    let stream = byterans::rans_stream(syms);
    let pos = 36 + sparse(f, 256).len() as int;
    byterans::lemma_stream_parts(syms);
    byterans::lemma_encode_range(syms);
    assert(p.subrange(0, 4) =~= bytes::le32(data.len() as int));
    bytes::lemma_un_le32(p, 0, data.len() as int);
    assert(p.len() == pos + stream.len());
    assert(p.skip(pos) =~= stream);
    assert(p.skip(pos + 4) =~= stream.skip(4));
    assert(p.skip(pos)[0] == p[pos] && p.skip(pos)[1] == p[pos + 1] && p.skip(pos)[2] == p[pos + 2]
        && p.skip(pos)[3] == p[pos + 3]);
}

/// Decoding a frame gives back the data it was made from.
pub proof fn law_order0_round_trip(data: Seq<u8>)
    requires
        data.len() <= u32::MAX,
    ensures
        order0_decoded(order0_frame(data)) == Some(data),
{
    lemma_data_freqs(data);
    lemma_frame_decoded(data, normalized(histogram(data)));
}

fn exec_bit_value(k: usize) -> (v: u8)
    requires
        k < 8,
    ensures
        v == bit_value(k as int),
        v >= 1,
{
    match k {
        0 => 1,
        1 => 2,
        2 => 4,
        3 => 8,
        4 => 16,
        5 => 32,
        6 => 64,
        _ => 128,
    }
}

/// Counts the bytes of `data`.
fn count_bytes(data: &[u8]) -> (counts: [u32; 256])
    requires
        data@.len() <= u32::MAX,
    ensures
        counts@ == histogram(data@),
        count_sum(counts@, 256) == data@.len(),
{
    let mut counts: [u32; 256] = [0u32; 256];
    let mut i: usize = 0;
    proof {
        lemma_zero_sum(counts@, 256);
        assert(data@.take(0) =~= Seq::<u8>::empty());
    }
    while i < data.len()
        invariant
            i <= data@.len() <= u32::MAX,
            counts@.len() == 256,
            forall|b: int| 0 <= b < 256 ==> counts@[b] == occurrences(data@.take(i as int), b),
            count_sum(counts@, 256) == i,
        decreases data@.len() - i,
    {
        let b: usize = data[i] as usize;
        let ghost old_counts = counts@;
        proof {
            assert(data@.take(i + 1).drop_last() =~= data@.take(i as int));
            lemma_occurrences(data@.take(i as int), b as int);
            lemma_count_update(old_counts, b as int, 256);
        }
        counts[b] = counts[b] + 1;
        i = i + 1;
    }
    assert(data@.take(i as int) =~= data@);
    assert(counts@ =~= histogram(data@));
    counts
}

proof fn lemma_zero_sum(c: Seq<u32>, k: int)
    requires
        forall|i: int| 0 <= i < c.len() ==> c[i] == 0,
        0 <= k <= c.len(),
    ensures
        count_sum(c, k) == 0,
    decreases k,
{
    if k > 0 {
        lemma_zero_sum(c, k - 1);
    }
}

proof fn lemma_count_update(c: Seq<u32>, b: int, k: int)
    requires
        0 <= b < c.len(),
        0 <= k <= c.len(),
        c[b] < u32::MAX,
    ensures
        count_sum(c.update(b, (c[b] + 1) as u32), k) == count_sum(c, k) + if b < k {
            1int
        } else {
            0
        },
    decreases k,
{
    if k > 0 {
        lemma_count_update(c, b, k - 1);
    }
}

/// Compresses `data` with order-0 rANS.
///
/// Layout: `[orig_len:u32][present bitmap: 32 bytes][freq:u16 per present
/// symbol][rANS]`, all little-endian.
pub fn compress_order0(data: &[u8]) -> (out: Vec<u8>)
    requires
        data@.len() <= u32::MAX,
    ensures
        out@ == order0_frame(data@),
{
    let counts: [u32; 256] = count_bytes(data);
    let freqs: [u16; 256] = normalize_freqs(&counts);
    let ghost f = freqs@;
    proof {
        lemma_data_freqs(data@);
    }
    let mut enc: RansByteEncoder = RansByteEncoder::new();
    let mut i: usize = 0;
    assert(enc@ =~= order0_syms(data@, f).take(0));
    while i < data.len()
        invariant
            i <= data@.len(),
            f == freqs@,
            bytes::sum_to(f, 256) == BYTE_SCALE,
            forall|j: int| 0 <= j < data@.len() ==> f[(#[trigger] data@[j]) as int] >= 1,
            enc@ == order0_syms(data@, f).take(i as int),
        decreases data@.len() - i,
    {
        let b: u8 = data[i];
        proof {
            assert(f[data@[i as int] as int] >= 1);
            lemma_interval(f, b);
        }
        enc.encode_symbol(b, freqs);
        i = i + 1;
        assert(enc@ =~= order0_syms(data@, f).take(i as int));
    }
    proof {
        lemma_order0_symbols(data@, f);
        assert(order0_syms(data@, f).take(i as int) =~= order0_syms(data@, f));
    }
    let stream: Vec<u8> = enc.finish();
    let mut out: Vec<u8> = Vec::new();
    bytes::push_u32(&mut out, data.len() as u32);
    push_bitmap(&mut out, &freqs);
    push_sparse(&mut out, &freqs);
    bytes::push_slice(&mut out, stream.as_slice());
    out
}

fn is_present(freqs: &[u16; 256], i: usize) -> (m: u8)
    requires
        i < 256,
    ensures
        m == mark(freqs@, i as int),
        m <= 1,
{
    if freqs[i] > 0 {
        1
    } else {
        0
    }
}

fn push_bitmap(out: &mut Vec<u8>, freqs: &[u16; 256])
    ensures
        final(out)@ == old(out)@ + bitmap(freqs@),
{
    let ghost before = out@;
    let mut j: usize = 0;
    assert(out@ =~= before + bitmap(freqs@).take(0));
    while j < 32
        invariant
            j <= 32,
            out@ == before + bitmap(freqs@).take(j as int),
        decreases 32 - j,
    {
        let byte: u8 = is_present(freqs, 8 * j) + 2 * is_present(freqs, 8 * j + 1) + 4 * is_present(
            freqs,
            8 * j + 2,
        ) + 8 * is_present(freqs, 8 * j + 3) + 16 * is_present(freqs, 8 * j + 4) + 32 * is_present(
            freqs,
            8 * j + 5,
        ) + 64 * is_present(freqs, 8 * j + 6) + 128 * is_present(freqs, 8 * j + 7);
        assert(byte == bitmap_byte(freqs@, j as int));
        out.push(byte);
        j = j + 1;
        assert(out@ =~= before + bitmap(freqs@).take(j as int));
    }
    assert(bitmap(freqs@).take(32) =~= bitmap(freqs@));
}

fn push_sparse(out: &mut Vec<u8>, freqs: &[u16; 256])
    ensures
        final(out)@ == old(out)@ + sparse(freqs@, 256),
{
    let ghost before = out@;
    let mut k: usize = 0;
    assert(out@ =~= before + sparse(freqs@, 0));
    while k < 256
        invariant
            k <= 256,
            out@ == before + sparse(freqs@, k as int),
        decreases 256 - k,
    {
        let f: u16 = freqs[k];
        if f > 0 {
            bytes::push_u16(out, f);
        }
        k = k + 1;
        assert(out@ =~= before + sparse(freqs@, k as int));
    }
}

/// Inverse of `compress_order0`; fails exactly on a corrupt frame.
pub fn decompress_order0(payload: &[u8]) -> (r: Result<Vec<u8>, ()>)
    ensures
        r is Ok <==> order0_decoded(payload@) is Some,
        r matches Ok(v) ==> order0_decoded(payload@) == Some(v@),
{
    if payload.len() < 36 {
        return Err(());
    }
    let orig_len: u32 = bytes::get_u32(payload, 0);
    let mut freqs: [u16; 256] = [0u16; 256];
    let mut total: u32 = 0;
    let mut pos: usize = 36;
    let mut sym: usize = 0;
    while sym < 256
        invariant
            sym <= 256,
            36 <= pos <= payload@.len(),
            freqs@.len() == 256,
            total <= 65535 * sym,
            read_freqs(payload@, sym as int) matches Some((f, p)) && f.len() == sym && p == pos && (
            forall|i: int| 0 <= i < sym ==> f[i] == freqs@[i]) && total == bytes::sum_to(
                f,
                sym as int,
            ),
            read_freqs(payload@, 256) is Some ==> read_freqs(payload@, sym as int) is Some,
            forall|i: int| sym <= i < 256 ==> freqs@[i] == 0,
        decreases 256 - sym,
    {
        let b: u8 = payload[4 + sym / 8];
        let ghost prev = read_freqs(payload@, sym as int).unwrap().0;
        if (b / exec_bit_value(sym % 8)) % 2 == 1 {
            if payload.len() - pos < 2 {
                proof {
                    lemma_read_freqs_none(payload@, sym + 1, 256);
                }
                return Err(());
            }
            let f: u16 = bytes::get_u16(payload, pos);
            freqs[sym] = f;
            total = total + f as u32;
            pos = pos + 2;
            proof {
                lemma_sum_prefix(prev, prev.push(f), sym as int);
            }
        } else {
            proof {
                lemma_sum_prefix(prev, prev.push(0), sym as int);
            }
        }
        sym = sym + 1;
    }
    assert(read_freqs(payload@, 256).unwrap().0 =~= freqs@);
    if total != BYTE_SCALE || payload.len() - pos < 4 {
        return Err(());
    }
    if bytes::get_u32(payload, pos) < BYTE_L {
        return Err(());
    }
    let stream: &[u8] = vstd::slice::slice_subrange(payload, pos, payload.len());
    let mut dec: RansByteDecoder = RansByteDecoder::new(stream)?;
    proof {
        assert(stream@.skip(4) =~= payload@.skip(pos + 4));
    }
    let mut out: Vec<u8> = Vec::new();
    let ghost whole = order0_symbols(dec@, freqs@, orig_len as int);
    let mut n: u32 = orig_len;
    assert(out@ + order0_symbols(dec@, freqs@, n as int) =~= whole);
    while n > 0
        invariant
            bytes::sum_to(freqs@, 256) == BYTE_SCALE,
            dec@.x >= BYTE_L,
            out@ + order0_symbols(dec@, freqs@, n as int) == whole,
        decreases n,
    {
        let ghost before = dec@;
        let sym: u8 = dec.decode_symbol(&freqs);
        proof {
            byterans::lemma_symbol_at(freqs@, byterans::state_cdf(before), sym as int);
            byterans::lemma_advance_normalized(
                before,
                freqs@[sym as int] as int,
                bytes::sum_to(freqs@, sym as int),
            );
            assert(out@ + order0_symbols(before, freqs@, n as int) =~= out@.push(sym)
                + order0_symbols(dec@, freqs@, n - 1));
        }
        out.push(sym);
        n = n - 1;
    }
    assert(out@ =~= whole);
    Ok(out)
}

proof fn lemma_read_freqs_none(payload: Seq<u8>, i: int, j: int)
    requires
        0 < i <= j,
        read_freqs(payload, i) is None,
    ensures
        read_freqs(payload, j) is None,
    decreases j - i,
{
    if i < j {
        lemma_read_freqs_none(payload, i, j - 1);
    }
}

proof fn lemma_sum_prefix(a: Seq<u16>, b: Seq<u16>, k: int)
    requires
        0 <= k <= a.len(),
        k <= b.len(),
        forall|i: int| 0 <= i < k ==> a[i] == b[i],
    ensures
        bytes::sum_to(a, k) == bytes::sum_to(b, k),
    decreases k,
{
    if k > 0 {
        lemma_sum_prefix(a, b, k - 1);
    }
}

/// What `pack_side_stream` makes of a blob: the order-0 frame where it is
/// smaller, else the blob itself.
pub open spec fn packed(data: Seq<u8>) -> (u8, Seq<u8>) {
    if data.len() > 0 && order0_frame(data).len() < data.len() {
        (FLAG_FSE, order0_frame(data))
    } else {
        (FLAG_RAW, data)
    }
}

/// What a packed blob unpacks to.
pub open spec fn unpacked(flag: u8, payload: Seq<u8>) -> Option<Seq<u8>> {
    if flag == FLAG_RAW {
        Some(payload)
    } else if flag == FLAG_FSE {
        order0_decoded(payload)
    } else {
        None
    }
}

/// Unpacking a packed blob gives the blob back.
pub proof fn law_side_stream_round_trip(data: Seq<u8>)
    requires
        data.len() <= u32::MAX,
    ensures
        unpacked(packed(data).0, packed(data).1) == Some(data),
{
    law_order0_round_trip(data);
}

/// Packing never makes a blob larger.
pub proof fn law_packed_not_larger(data: Seq<u8>)
    ensures
        packed(data).1.len() <= data.len(),
{
}

/// The smaller of the two forms is taken: the blob itself, or its frame, which holds
/// the length, a bitmap, two bytes for each byte value that occurs, and the stream of
/// all bytes under the frequencies of the whole blob.
pub proof fn law_packed_is_smaller(data: Seq<u8>)
    requires
        data.len() > 0,
    ensures
        ({
            let f = normalized(histogram(data));
            let frame = 36 + sparse(f, 256).len() + byterans::rans_stream(
                order0_syms(data, f),
            ).len();
            &&& packed(data).1.len() <= data.len()
            &&& packed(data).1.len() <= frame
            &&& packed(data).1.len() == data.len() || packed(data).1.len() == frame
            &&& frame < data.len() <==> packed(data).0 == 1
            &&& frame >= data.len() <==> packed(data) == (0u8, data)
        }),
        forall|b: u8| #[trigger] histogram(data)[b as int] == occurrences(data, b as int) as u32,
{
}

/// Packs a side-stream blob: order-0 entropy coding where that is smaller, the
/// raw bytes otherwise. Returns the flag and the payload.
pub fn pack_side_stream(data: &[u8]) -> (r: (u8, Vec<u8>))
    requires
        data@.len() <= u32::MAX,
    ensures
        (r.0, r.1@) == packed(data@),
{
    if data.len() == 0 {
        assert(data@ =~= Seq::<u8>::empty());
        return (FLAG_RAW, Vec::new());
    }
    let compressed: Vec<u8> = compress_order0(data);
    if compressed.len() < data.len() {
        (FLAG_FSE, compressed)
    } else {
        (FLAG_RAW, vstd::slice::slice_to_vec(data))
    }
}

/// Unpacks a side-stream payload; fails exactly on an unknown flag or a
/// corrupt frame.
pub fn unpack_side_stream(flag: u8, payload: &[u8]) -> (r: Result<Vec<u8>, ()>)
    ensures
        r is Ok <==> unpacked(flag, payload@) is Some,
        r matches Ok(v) ==> unpacked(flag, payload@) == Some(v@),
{
    if flag == FLAG_RAW {
        Ok(vstd::slice::slice_to_vec(payload))
    } else if flag == FLAG_FSE {
        decompress_order0(payload)
    } else {
        Err(())
    }
}

} // verus!
