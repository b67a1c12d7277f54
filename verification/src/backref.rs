//! Copying from the end of the output, as the LZ decoders do.

use vstd::prelude::*;

verus! {

/// `out` with `k` bytes appended, each the one `dist` back.
pub open spec fn copied(out: Seq<u8>, dist: int, k: int) -> Seq<u8>
    decreases k,
{
    if k <= 0 {
        out
    } else {
        copied(out.push(out[out.len() - dist]), dist, k - 1)
    }
}

/// Copying appends that many bytes.
pub proof fn lemma_copied_len(out: Seq<u8>, dist: int, k: int)
    requires
        0 <= k,
    ensures
        copied(out, dist, k).len() == out.len() + k,
    decreases k,
{
    if k > 0 {
        lemma_copied_len(out.push(out[out.len() - dist]), dist, k - 1);
    }
}

/// Copying keeps what is there, and each byte that it appends is the one `dist` back,
/// which may be one that it has appended itself.
pub proof fn law_copied(out: Seq<u8>, dist: int, k: int, i: int)
    requires
        0 <= k,
        1 <= dist <= out.len(),
        0 <= i < out.len() + k,
    ensures
        copied(out, dist, k).len() == out.len() + k,
        i < out.len() ==> copied(out, dist, k)[i] == out[i],
        i >= out.len() ==> copied(out, dist, k)[i] == copied(out, dist, k)[i - dist],
    decreases k,
{
    if k > 0 {
        let next = out.push(out[out.len() - dist]);
        law_copied(next, dist, k - 1, i);
        if i == out.len() {
            law_copied(next, dist, k - 1, i - dist);
        }
    }
}

/// Where the data repeats itself `dist` back, copying extends a prefix of it.
pub proof fn lemma_copied(d: Seq<u8>, i: int, dist: int, k: int)
    requires
        0 <= k,
        1 <= dist <= i,
        i + k <= d.len(),
        forall|t: int| 0 <= t < k ==> #[trigger] d[i + t] == d[i + t - dist],
    ensures
        copied(d.take(i), dist, k) == d.take(i + k),
    decreases k,
{
    if k > 0 {
        assert(d[i + 0] == d[i + 0 - dist]);
        assert(d.take(i).push(d.take(i)[i - dist]) =~= d.take(i + 1));
        assert forall|t: int| 0 <= t < k - 1 implies #[trigger] d[i + 1 + t] == d[i + 1 + t
            - dist] by {
            assert(d[i + (1 + t)] == d[i + (1 + t) - dist]);
        }
        lemma_copied(d, i + 1, dist, k - 1);
    }
}

/// Appends `count` bytes, each the one `dist` back; a distance shorter than the
/// count repeats what was just copied.
pub fn copy_back(out: &mut Vec<u8>, dist: usize, count: usize)
    requires
        1 <= dist <= old(out)@.len(),
    ensures
        final(out)@ == copied(old(out)@, dist as int, count as int),
        final(out)@.len() == old(out)@.len() + count,
{
    let ghost start = out@;
    let ghost goal = copied(start, dist as int, count as int);
    let mut left: usize = count;
    while left > 0
        invariant
            left <= count,
            1 <= dist <= out@.len(),
            out@.len() + left == start.len() + count,
            goal == copied(out@, dist as int, left as int),
        decreases left,
    {
        let b: u8 = out[out.len() - dist];
        out.push(b);
        left = left - 1;
    }
}

} // verus!
