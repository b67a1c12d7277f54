//! Delta and stride detection for binary blocks.

use vstd::prelude::*;

verus! {

/// Each byte less the one before it, modulo 256; the first one stays.
pub open spec fn delta_coded(d: Seq<u8>) -> Seq<u8> {
    Seq::new(
        d.len(),
        |i: int|
            if i == 0 {
                d[0]
            } else {
                ((d[i] - d[i - 1]) % 256) as u8
            },
    )
}

/// The sum of the first `k + 1` bytes, modulo 256.
pub open spec fn running_sum(d: Seq<u8>, k: int) -> u8
    decreases k,
{
    if k <= 0 {
        d[0]
    } else {
        ((running_sum(d, k - 1) + d[k]) % 256) as u8
    }
}

/// The bytes whose differences are given.
pub open spec fn delta_plain(d: Seq<u8>) -> Seq<u8> {
    Seq::new(d.len(), |i: int| running_sum(d, i))
}

proof fn lemma_running_sum(d: Seq<u8>, k: int)
    requires
        0 <= k < d.len(),
    ensures
        running_sum(delta_coded(d), k) == d[k],
    decreases k,
{
    if k > 0 {
        lemma_running_sum(d, k - 1);
    }
}

/// Undoing the delta transform gives the data back; both keep the length.
pub proof fn law_delta_round_trip(d: Seq<u8>)
    ensures
        delta_plain(delta_coded(d)) == d,
        delta_coded(d).len() == d.len(),
{
    let t = delta_plain(delta_coded(d));
    assert forall|i: int| 0 <= i < d.len() implies t[i] == d[i] by {
        lemma_running_sum(d, i);
    }
    assert(t =~= d);
}

/// A byte is the sum of the byte before it and its difference, modulo 256; so bytes
/// that rise evenly have equal differences, and equal ones differences of zero.
pub proof fn law_even_steps(d: Seq<u8>, i: int)
    requires
        0 < i < d.len(),
    ensures
        (d[i - 1] + delta_coded(d)[i]) % 256 == d[i],
        delta_coded(d)[0] == d[0],
        d[i] == d[i - 1] ==> delta_coded(d)[i] == 0,
        i + 1 < d.len() && d[i + 1] - d[i] == d[i] - d[i - 1] ==> delta_coded(d)[i + 1]
            == delta_coded(d)[i],
{
}

/// Replaces each byte with its difference from the one before it, modulo 256.
pub fn delta_transform(data: &[u8]) -> (out: Vec<u8>)
    ensures
        out@ == delta_coded(data@),
{
    let mut out: Vec<u8> = Vec::new();
    let mut i: usize = 0;
    while i < data.len()
        invariant
            i <= data@.len(),
            out@ =~= delta_coded(data@).take(i as int),
        decreases data@.len() - i,
    {
        if i == 0 {
            out.push(data[0]);
        } else {
            let a: u8 = data[i];
            let b: u8 = data[i - 1];
            out.push(
                if a >= b {
                    a - b
                } else {
                    255 - b + a + 1
                },
            );
        }
        i = i + 1;
    }
    out
}

/// Inverse of `delta_transform`.
pub fn delta_inverse(data: &[u8]) -> (out: Vec<u8>)
    ensures
        out@ == delta_plain(data@),
{
    let mut out: Vec<u8> = Vec::new();
    let mut prev: u8 = 0;
    let mut i: usize = 0;
    while i < data.len()
        invariant
            i <= data@.len(),
            i > 0 ==> prev == running_sum(data@, i - 1),
            out@ =~= delta_plain(data@).take(i as int),
        decreases data@.len() - i,
    {
        if i == 0 {
            prev = data[0];
        } else {
            prev = ((prev as u16 + data[i] as u16) % 256) as u8;
        }
        out.push(prev);
        i = i + 1;
    }
    out
}

/// How many of the places from `stride` up to `k` hold the byte that stands
/// `stride` places before.
pub open spec fn stride_count(d: Seq<u8>, stride: int, k: int) -> int
    decreases k,
{
    if k <= 0 || k <= stride {
        0
    } else {
        stride_count(d, stride, k - 1) + if d[k - 1] == d[k - 1 - stride] {
            1int
        } else {
            0
        }
    }
}

/// The best of the strides below `k`, with its count: the smallest one with the
/// highest count above a quarter of the length.
pub open spec fn best_stride(d: Seq<u8>, k: int) -> (int, int)
    decreases k,
{
    if k <= 1 {
        (0, 0)
    } else {
        let best = best_stride(d, k - 1);
        let count = stride_count(d, k - 1, d.len() as int);
        if count > best.1 && count > d.len() / 4 {
            (k - 1, count)
        } else {
            best
        }
    }
}

/// The most common stride from 1 to 8 and its count, or zeros where the data is
/// short or no stride is common.
pub open spec fn stride_of(d: Seq<u8>) -> (int, int) {
    if d.len() < 32 {
        (0, 0)
    } else {
        best_stride(d, 9)
    }
}

proof fn lemma_best_stride(d: Seq<u8>, k: int)
    requires
        1 <= k,
    ensures
        0 <= best_stride(d, k).0 < k,
        0 <= best_stride(d, k).1,
        best_stride(d, k).0 == 0 ==> best_stride(d, k).1 == 0,
        best_stride(d, k).0 > 0 ==> best_stride(d, k).1 == stride_count(
            d,
            best_stride(d, k).0,
            d.len() as int,
        ) && best_stride(d, k).1 > d.len() / 4,
        forall|s: int|
            1 <= s < k ==> #[trigger] stride_count(d, s, d.len() as int) <= best_stride(d, k).1
                || stride_count(d, s, d.len() as int) <= d.len() / 4,
    decreases k,
{
    if k > 1 {
        lemma_best_stride(d, k - 1);
        assert forall|s: int| 1 <= s < k implies #[trigger] stride_count(d, s, d.len() as int)
            <= best_stride(d, k).1 || stride_count(d, s, d.len() as int) <= d.len() / 4 by {
            if s < k - 1 {
                assert(stride_count(d, s, d.len() as int) <= best_stride(d, k - 1).1
                    || stride_count(d, s, d.len() as int) <= d.len() / 4);
            }
        }
    }
}

proof fn lemma_periodic_count(d: Seq<u8>, s: int, k: int)
    requires
        1 <= s,
        s <= k <= d.len(),
        forall|i: int| s <= i < d.len() ==> #[trigger] d[i] == d[i - s],
    ensures
        stride_count(d, s, k) == k - s,
    decreases k,
{
    if k > s {
        lemma_periodic_count(d, s, k - 1);
        assert(d[k - 1] == d[k - 1 - s]);
    }
}

/// Of the strides from 1 to 8 the one that is found has the most repeats, more than a
/// quarter of the length; in data of 32 bytes or more with a period from 1 to 8 a
/// stride is found, and at least as many bytes repeat at it as at the period.
pub proof fn law_stride_found(d: Seq<u8>, period: int)
    requires
        d.len() >= 32,
        1 <= period <= 8,
        forall|i: int| period <= i < d.len() ==> #[trigger] d[i] == d[i - period],
    ensures
        1 <= stride_of(d).0 <= 8,
        stride_of(d).1 == stride_count(d, stride_of(d).0, d.len() as int),
        stride_of(d).1 >= d.len() - period,
{
    lemma_best_stride(d, 9);
    lemma_periodic_count(d, period, d.len() as int);
    assert(stride_count(d, period, d.len() as int) == d.len() - period);
}

fn count_stride(data: &[u8], stride: usize) -> (count: usize)
    requires
        1 <= stride <= data@.len(),
    ensures
        count == stride_count(data@, stride as int, data@.len() as int),
        count <= data@.len(),
{
    let mut count: usize = 0;
    let mut i: usize = stride;
    while i < data.len()
        invariant
            1 <= stride <= i <= data@.len(),
            count == stride_count(data@, stride as int, i as int),
            count <= i,
        decreases data@.len() - i,
    {
        if data[i] == data[i - stride] {
            count = count + 1;
        }
        i = i + 1;
    }
    count
}

/// Looks for the stride from 1 to 8 at which most bytes repeat; returns it with
/// the number of repeats, or zeros.
pub fn detect_stride(data: &[u8]) -> (r: (usize, usize))
    ensures
        (r.0 as int, r.1 as int) == stride_of(data@),
{
    if data.len() < 32 {
        return (0, 0);
    }
    let mut best: (usize, usize) = (0, 0);
    let mut stride: usize = 1;
    while stride <= 8
        invariant
            1 <= stride <= 9,
            data@.len() >= 32,
            (best.0 as int, best.1 as int) == best_stride(data@, stride as int),
        decreases 9 - stride,
    {
        let count: usize = count_stride(data, stride);
        if count > best.1 && count > data.len() / 4 {
            best = (stride, count);
        }
        stride = stride + 1;
    }
    best
}

} // verus!
