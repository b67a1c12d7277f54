//! Run-length coding of zeros.

use vstd::prelude::*;

verus! {

/// The number of zeros that `d` starts with, at most `cap`.
pub open spec fn zero_run(d: Seq<u8>, cap: int) -> int
    decreases d.len(),
{
    if d.len() == 0 || d[0] != 0 || cap <= 0 {
        0
    } else {
        1 + zero_run(d.drop_first(), cap - 1)
    }
}

/// `k` zero bytes.
pub open spec fn zeros(k: int) -> Seq<u8> {
    Seq::new(k as nat, |i: int| 0u8)
}

proof fn lemma_zero_run(d: Seq<u8>, cap: int)
    requires
        0 <= cap,
    ensures
        0 <= zero_run(d, cap) <= cap,
        zero_run(d, cap) <= d.len(),
        d.take(zero_run(d, cap)) == zeros(zero_run(d, cap)),
        d.len() > 0 && d[0] == 0 && cap > 0 ==> zero_run(d, cap) > 0,
    decreases d.len(),
{
    if d.len() == 0 || d[0] != 0 || cap <= 0 {
        assert(d.take(0) =~= zeros(0));
    } else {
        lemma_zero_run(d.drop_first(), cap - 1);
        let k = zero_run(d.drop_first(), cap - 1);
        let tail = d.drop_first();
        let head = d.take(k + 1);
        assert forall|i: int| 0 <= i < k + 1 implies head[i] == 0 by {
            if i > 0 {
                assert(tail.take(k)[i - 1] == zeros(k)[i - 1]);
                assert(tail[i - 1] == d[i]);
            }
        }
        assert(head =~= zeros(k + 1));
    }
}

/// The zero-run coded form of `d`: `0xFF 0x00` for a literal `0xFF`, `0xFF n`
/// for `n` zeros (at most 255 at a time), every other byte as it is.
pub open spec fn rle0_coded(d: Seq<u8>) -> Seq<u8>
    decreases d.len(),
{
    if d.len() == 0 {
        Seq::empty()
    } else if d[0] == 0xFF {
        seq![0xFFu8, 0u8] + rle0_coded(d.drop_first())
    } else if d[0] == 0 {
        let k = zero_run(d, 255);
        if 0 < k <= d.len() {
            seq![0xFFu8, k as u8] + rle0_coded(d.skip(k))
        } else {
            Seq::empty()
        }
    } else {
        seq![d[0]] + rle0_coded(d.drop_first())
    }
}

/// What a zero-run coded stream stands for; a `0xFF` at its very end stands
/// for nothing.
pub open spec fn rle0_plain(d: Seq<u8>) -> Seq<u8>
    decreases d.len(),
{
    if d.len() == 0 {
        Seq::empty()
    } else if d[0] == 0xFF {
        if d.len() < 2 {
            Seq::empty()
        } else if d[1] == 0 {
            seq![0xFFu8] + rle0_plain(d.skip(2))
        } else {
            zeros(d[1] as int) + rle0_plain(d.skip(2))
        }
    } else {
        seq![d[0]] + rle0_plain(d.drop_first())
    }
}

/// Undoing zero-run coding gives the data back.
pub proof fn law_rle0_round_trip(d: Seq<u8>)
    ensures
        rle0_plain(rle0_coded(d)) == d,
    decreases d.len(),
{
    if d.len() == 0 {
        assert(d =~= Seq::<u8>::empty());
    } else if d[0] == 0xFF {
        law_rle0_round_trip(d.drop_first());
        let c = seq![0xFFu8, 0u8] + rle0_coded(d.drop_first());
        assert(c.skip(2) =~= rle0_coded(d.drop_first()));
        assert(seq![0xFFu8] + d.drop_first() =~= d);
    } else if d[0] == 0 {
        lemma_zero_run(d, 255);
        let k = zero_run(d, 255);
        law_rle0_round_trip(d.skip(k));
        let c = seq![0xFFu8, k as u8] + rle0_coded(d.skip(k));
        assert(c.skip(2) =~= rle0_coded(d.skip(k)));
        assert(d.take(k) + d.skip(k) =~= d);
    } else {
        law_rle0_round_trip(d.drop_first());
        let c = seq![d[0]] + rle0_coded(d.drop_first());
        assert(c.drop_first() =~= rle0_coded(d.drop_first()));
        assert(seq![d[0]] + d.drop_first() =~= d);
    }
}

/// Zero-run coding at most doubles a stream.
pub proof fn lemma_rle0_len(d: Seq<u8>)
    ensures
        rle0_coded(d).len() <= 2 * d.len(),
    decreases d.len(),
{
    if d.len() == 0 {
    } else if d[0] == 0 {
        lemma_zero_run(d, 255);
        lemma_rle0_len(d.skip(zero_run(d, 255)));
    } else {
        lemma_rle0_len(d.drop_first());
    }
}

proof fn lemma_zero_run_of(k: int, rest: Seq<u8>, cap: int)
    requires
        0 <= k,
        0 <= cap,
        rest.len() > 0 ==> rest[0] != 0,
    ensures
        zero_run(zeros(k) + rest, cap) == if k < cap {
            k
        } else {
            cap
        },
    decreases k,
{
    let d = zeros(k) + rest;
    if k > 0 && cap > 0 {
        assert(d[0] == 0);
        assert(d.drop_first() =~= zeros(k - 1) + rest);
        lemma_zero_run_of(k - 1, rest, cap - 1);
    } else if k == 0 {
        assert(d =~= rest);
    }
}

/// A run of zeros takes two bytes for each 255 of them, begun or full; every other
/// byte takes one and stays as it is, but for `0xFF`, which takes two.
pub proof fn law_runs_are_short(k: int, rest: Seq<u8>)
    requires
        0 <= k,
        rest.len() > 0 ==> rest[0] != 0,
    ensures
        rle0_coded(zeros(k) + rest).len() == 2 * ((k + 254) / 255) + rle0_coded(rest).len(),
        rest.len() > 0 && rest[0] != 0xFF ==> rle0_coded(rest) == seq![rest[0]] + rle0_coded(
            rest.drop_first(),
        ),
        rest.len() > 0 && rest[0] == 0xFF ==> rle0_coded(rest).len() == 2 + rle0_coded(
            rest.drop_first(),
        ).len(),
    decreases k,
{
    let d = zeros(k) + rest;
    if k > 0 {
        lemma_zero_run_of(k, rest, 255);
        let m = if k < 255 {
            k
        } else {
            255
        };
        assert(d[0] == 0);
        assert(d.skip(m) =~= zeros(k - m) + rest);
        law_runs_are_short(k - m, rest);
    } else {
        assert(d =~= rest);
    }
}

/// Run-length-encodes zero runs and literal 0xFF bytes.
pub fn rle0(data: &[u8]) -> (out: Vec<u8>)
    ensures
        out@ == rle0_coded(data@),
{
    let mut out: Vec<u8> = Vec::new();
    let mut i: usize = 0;
    assert(data@.skip(0) =~= data@);
    while i < data.len()
        invariant
            i <= data@.len(),
            out@ + rle0_coded(data@.skip(i as int)) =~= rle0_coded(data@),
        decreases data@.len() - i,
    {
        let ghost rest = data@.skip(i as int);
        let ghost before = out@;
        let b: u8 = data[i];
        assert(rest[0] == b);
        assert(rest.drop_first() =~= data@.skip(i + 1));
        if b == 0xFF {
            out.push(0xFF);
            out.push(0x00);
            i = i + 1;
            assert(out@ =~= before + seq![0xFFu8, 0u8]);
        } else if b == 0 {
            let start: usize = i;
            let mut count: u8 = 0;
            proof {
                lemma_zero_run(rest, 255);
            }
            while i < data.len() && data[i] == 0 && count < 255
                invariant
                    start <= i <= data@.len(),
                    i == start + count,
                    rest == data@.skip(start as int),
                    zero_run(rest, 255) == count + zero_run(data@.skip(i as int), 255 - count),
                decreases data@.len() - i,
            {
                assert(data@.skip(i as int).drop_first() =~= data@.skip(i + 1));
                count = count + 1;
                i = i + 1;
            }
            assert(zero_run(data@.skip(i as int), 255 - count) == 0);
            out.push(0xFF);
            out.push(count);
            assert(rest.skip(count as int) =~= data@.skip(i as int));
            assert(out@ =~= before + seq![0xFFu8, count]);
        } else {
            out.push(b);
            i = i + 1;
            assert(out@ =~= before + seq![b]);
        }
        assert(out@ + rle0_coded(data@.skip(i as int)) =~= before + rle0_coded(rest));
    }
    assert(data@.skip(i as int).len() == 0);
    out
}

/// Inverse of `rle0`.
pub fn rle0_inverse(data: &[u8]) -> (out: Vec<u8>)
    ensures
        out@ == rle0_plain(data@),
{
    let mut out: Vec<u8> = Vec::new();
    let mut i: usize = 0;
    assert(data@.skip(0) =~= data@);
    while i < data.len()
        invariant
            i <= data@.len(),
            out@ + rle0_plain(data@.skip(i as int)) =~= rle0_plain(data@),
        decreases data@.len() - i,
    {
        let ghost rest = data@.skip(i as int);
        let ghost before = out@;
        let b: u8 = data[i];
        assert(rest[0] == b);
        if b == 0xFF {
            if data.len() - i < 2 {
                assert(rle0_plain(rest) =~= Seq::empty());
                return out;
            }
            let count: u8 = data[i + 1];
            assert(rest[1] == count);
            if count == 0 {
                out.push(0xFF);
                assert(out@ =~= before + seq![0xFFu8]);
            } else {
                push_zeros(&mut out, count as usize);
            }
            assert(rest.skip(2) =~= data@.skip(i + 2));
            i = i + 2;
        } else {
            assert(rest.drop_first() =~= data@.skip(i + 1));
            out.push(b);
            i = i + 1;
            assert(out@ =~= before + seq![b]);
        }
        assert(out@ + rle0_plain(data@.skip(i as int)) =~= before + rle0_plain(rest));
    }
    assert(data@.skip(i as int).len() == 0);
    out
}

/// Appends `count` zeros.
pub fn push_zeros(out: &mut Vec<u8>, count: usize)
    ensures
        final(out)@ == old(out)@ + zeros(count as int),
{
    let ghost before = out@;
    let mut k: usize = 0;
    assert(out@ =~= before + zeros(0));
    while k < count
        invariant
            k <= count,
            out@ == before + zeros(k as int),
        decreases count - k,
    {
        out.push(0);
        k = k + 1;
        assert(out@ =~= before + zeros(k as int));
    }
}

} // verus!
