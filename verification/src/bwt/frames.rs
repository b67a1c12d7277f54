//! Lists of integers and of byte strings in byte streams.

use crate::bytes;
use vstd::prelude::*;

verus! {

/// The numbers of `s` as two little-endian bytes each.
pub open spec fn words16(s: Seq<u16>) -> Seq<u8> {
    Seq::new(2 * s.len(), |i: int| bytes::le16(s[i / 2] as int)[i % 2])
}

/// The numbers of `s` as four little-endian bytes each.
pub open spec fn words32(s: Seq<int>) -> Seq<u8> {
    Seq::new(4 * s.len(), |i: int| bytes::le32(s[i / 4])[i % 4])
}

/// The first `k` strings, one behind the other.
pub open spec fn concat_upto(s: Seq<Seq<u8>>, k: int) -> Seq<u8>
    decreases k,
{
    if k <= 0 {
        Seq::empty()
    } else {
        concat_upto(s, k - 1) + s[k - 1]
    }
}

/// The sum of the first `k` numbers.
pub open spec fn sum_upto(s: Seq<int>, k: int) -> int
    decreases k,
{
    if k <= 0 {
        0
    } else {
        sum_upto(s, k - 1) + s[k - 1]
    }
}

/// The lengths of strings.
pub open spec fn lens(s: Seq<Seq<u8>>) -> Seq<int> {
    Seq::new(s.len(), |i: int| s[i].len() as int)
}

/// Reading number `k` gives back what was written.
pub proof fn lemma_words16(d: Seq<u8>, at: int, s: Seq<u16>, k: int)
    requires
        0 <= at,
        at + 2 * s.len() <= d.len(),
        d.subrange(at, at + 2 * s.len()) == words16(s),
        0 <= k < s.len(),
    ensures
        bytes::un_le16(d, at + 2 * k) == s[k],
{
    let t = d.subrange(at, at + 2 * s.len());
    let w = d.subrange(at + 2 * k, at + 2 * k + 2);
    assert(t[2 * k] == d[at + 2 * k] && t[2 * k + 1] == d[at + 2 * k + 1]);
    assert((2 * k) / 2 == k && (2 * k + 1) / 2 == k && (2 * k) % 2 == 0 && (2 * k + 1) % 2 == 1);
    assert(w =~= bytes::le16(s[k] as int));
    bytes::lemma_un_le16(d, at + 2 * k, s[k] as int);
}

/// Reading number `k` gives back what was written.
pub proof fn lemma_words32(d: Seq<u8>, at: int, s: Seq<int>, k: int)
    requires
        0 <= at,
        at + 4 * s.len() <= d.len(),
        d.subrange(at, at + 4 * s.len()) == words32(s),
        0 <= k < s.len(),
        0 <= s[k] < 4294967296,
    ensures
        bytes::un_le32(d, at + 4 * k) == s[k],
{
    let t = d.subrange(at, at + 4 * s.len());
    let w = d.subrange(at + 4 * k, at + 4 * k + 4);
    let word = bytes::le32(s[k]);
    assert forall|j: int| 0 <= j < 4 implies w[j] == word[j] by {
        assert(w[j] == t[4 * k + j]);
        assert((4 * k + j) / 4 == k && (4 * k + j) % 4 == j);
    }
    assert(w =~= word);
    bytes::lemma_un_le32(d, at + 4 * k, s[k]);
}

/// One more number at the end.
pub proof fn lemma_words16_push(s: Seq<u16>, v: u16)
    ensures
        words16(s.push(v)) == words16(s) + bytes::le16(v as int),
{
    let t = s.push(v);
    let a = words16(t);
    let b = words16(s) + bytes::le16(v as int);
    assert forall|i: int| 0 <= i < a.len() implies a[i] == b[i] by {
        if i < 2 * s.len() {
            assert(0 <= i / 2 < s.len());
        } else {
            assert(i / 2 == s.len());
            assert(i % 2 == i - 2 * s.len());
        }
    }
    assert(a =~= b);
}

/// One more number at the end.
pub proof fn lemma_words32_push(s: Seq<int>, v: int)
    ensures
        words32(s.push(v)) == words32(s) + bytes::le32(v),
{
    let t = s.push(v);
    let a = words32(t);
    let b = words32(s) + bytes::le32(v);
    assert forall|i: int| 0 <= i < a.len() implies a[i] == b[i] by {
        if i < 4 * s.len() {
            assert(0 <= i / 4 < s.len());
        } else {
            assert(i / 4 == s.len());
            assert(i % 4 == i - 4 * s.len());
        }
    }
    assert(a =~= b);
}

/// The length of concatenated strings.
pub proof fn lemma_concat_len(s: Seq<Seq<u8>>, k: int)
    requires
        0 <= k <= s.len(),
    ensures
        concat_upto(s, k).len() == sum_upto(lens(s), k),
        0 <= sum_upto(lens(s), k),
    decreases k,
{
    if k > 0 {
        lemma_concat_len(s, k - 1);
    }
}

/// Later strings stand behind earlier ones.
pub proof fn lemma_concat_part(s: Seq<Seq<u8>>, i: int, k: int)
    requires
        0 <= i < k <= s.len(),
    ensures
        sum_upto(lens(s), i) + s[i].len() <= concat_upto(s, k).len(),
        concat_upto(s, k).subrange(
            sum_upto(lens(s), i),
            sum_upto(lens(s), i) + s[i].len(),
        ) == s[i],
    decreases k,
{
    lemma_concat_len(s, i);
    lemma_concat_len(s, k - 1);
    lemma_concat_len(s, k);
    if i < k - 1 {
        lemma_concat_part(s, i, k - 1);
        assert(concat_upto(s, k).subrange(
            sum_upto(lens(s), i),
            sum_upto(lens(s), i) + s[i].len(),
        ) =~= concat_upto(s, k - 1).subrange(
            sum_upto(lens(s), i),
            sum_upto(lens(s), i) + s[i].len(),
        ));
    } else {
        assert(concat_upto(s, k).subrange(
            sum_upto(lens(s), i),
            sum_upto(lens(s), i) + s[i].len(),
        ) =~= s[i]);
    }
}

/// Partial sums of lengths never decrease.
pub proof fn lemma_sum_mono(s: Seq<int>, i: int, j: int)
    requires
        0 <= i <= j <= s.len(),
        forall|k: int| 0 <= k < s.len() ==> 0 <= #[trigger] s[k],
    ensures
        0 <= sum_upto(s, i) <= sum_upto(s, j),
    decreases j,
{
    if i < j {
        lemma_sum_mono(s, i, j - 1);
    } else if i > 0 {
        lemma_sum_mono(s, i - 1, i - 1);
    }
}

/// Sums of equal numbers are equal.
pub proof fn lemma_sum_eq(a: Seq<int>, b: Seq<int>, k: int)
    requires
        0 <= k <= a.len(),
        k <= b.len(),
        forall|i: int| 0 <= i < k ==> a[i] == b[i],
    ensures
        sum_upto(a, k) == sum_upto(b, k),
    decreases k,
{
    if k > 0 {
        lemma_sum_eq(a, b, k - 1);
    }
}

proof fn lemma_concat_prefix(s: Seq<Seq<u8>>, x: Seq<u8>, k: int)
    requires
        0 <= k <= s.len(),
    ensures
        concat_upto(s.push(x), k) == concat_upto(s, k),
    decreases k,
{
    if k > 0 {
        lemma_concat_prefix(s, x, k - 1);
    }
}

/// One more string at the end.
pub proof fn lemma_concat_push(s: Seq<Seq<u8>>, x: Seq<u8>)
    ensures
        concat_upto(s.push(x), s.len() as int + 1) == concat_upto(s, s.len() as int) + x,
{
    lemma_concat_prefix(s, x, s.len() as int);
}

} // verus!
