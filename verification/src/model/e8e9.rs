//! Call and jump targets of x86 code as absolute offsets.
//!
//! `E8` (call) and `E9` (near jump) carry a relative 32-bit displacement. Adding
//! the place behind the instruction makes equal targets equal bytes.

use crate::bytes;
use vstd::prelude::*;

verus! {

/// Opcode of a call.
pub const E8: u8 = 0xE8;

/// Opcode of a near jump.
pub const E9: u8 = 0xE9;

/// Whether a call or jump with all of its displacement stands at `i`.
pub open spec fn is_branch(d: Seq<u8>, i: int) -> bool {
    i + 5 <= d.len() && (d[i] == E8 || d[i] == E9)
}

/// The displacement at `i` with `sign` times the place behind it added, modulo
/// two to the power of 32.
pub open spec fn moved(d: Seq<u8>, i: int, sign: int) -> int {
    (bytes::un_le32(d, i + 1) + sign * (i + 5)) % 4294967296
}

/// The data from `i` on with every displacement moved.
pub open spec fn shifted(d: Seq<u8>, i: int, sign: int) -> Seq<u8>
    decreases d.len() - i,
{
    if i < 0 || i >= d.len() {
        Seq::empty()
    } else if is_branch(d, i) {
        seq![d[i]] + bytes::le32(moved(d, i, sign)) + shifted(d, i + 5, sign)
    } else {
        seq![d[i]] + shifted(d, i + 1, sign)
    }
}

/// The data with absolute targets.
pub open spec fn e8e9_coded(d: Seq<u8>) -> Seq<u8> {
    shifted(d, 0, 1)
}

/// The data with relative targets.
pub open spec fn e8e9_plain(d: Seq<u8>) -> Seq<u8> {
    shifted(d, 0, -1)
}

proof fn lemma_shifted_len(d: Seq<u8>, i: int, sign: int)
    requires
        0 <= i <= d.len(),
    ensures
        shifted(d, i, sign).len() == d.len() - i,
    decreases d.len() - i,
{
    if i < d.len() {
        if is_branch(d, i) {
            lemma_shifted_len(d, i + 5, sign);
        } else {
            lemma_shifted_len(d, i + 1, sign);
        }
    }
}

proof fn lemma_moved_back(v: int, at: int)
    requires
        0 <= v < 4294967296,
    ensures
        ((v + at) % 4294967296 - at) % 4294967296 == v,
{
    let m = (v + at) % 4294967296;
    let q = (v + at) / 4294967296;
    assert(v + at == 4294967296 * q + m);
    assert((m - at) == v - 4294967296 * q);
    assert((v - 4294967296 * q) % 4294967296 == v);
}

proof fn lemma_shifted_back(d: Seq<u8>, done: Seq<u8>, i: int)
    requires
        0 <= i <= d.len(),
        done.len() == i,
    ensures
        shifted(done + shifted(d, i, 1), i, -1) == d.skip(i),
    decreases d.len() - i,
{
    let t = done + shifted(d, i, 1);
    lemma_shifted_len(d, i, 1);
    if i < d.len() {
        if is_branch(d, i) {
            let word = bytes::le32(moved(d, i, 1));
            let head = seq![d[i]] + word;
            let rest = shifted(d, i + 5, 1);
            lemma_shifted_back(d, done + head, i + 5);
            assert(t =~= (done + head) + rest);
            assert(t[i] == d[i]);
            assert(t.subrange(i + 1, i + 5) =~= word);
            bytes::lemma_un_le32(t, i + 1, moved(d, i, 1));
            let v = bytes::un_le32(d, i + 1);
            lemma_moved_back(v, i + 5);
            assert(moved(t, i, -1) == v);
            assert(bytes::le32(v) =~= d.subrange(i + 1, i + 5)) by {
                lemma_spelled(d, i + 1);
            }
            assert(seq![d[i]] + d.subrange(i + 1, i + 5) + d.skip(i + 5) =~= d.skip(i));
        } else {
            lemma_shifted_back(d, done + seq![d[i]], i + 1);
            assert(t =~= (done + seq![d[i]]) + shifted(d, i + 1, 1));
            assert(t[i] == d[i]);
            assert(seq![d[i]] + d.skip(i + 1) =~= d.skip(i));
        }
    } else {
        assert(d.skip(i) =~= Seq::<u8>::empty());
    }
}

proof fn lemma_spelled(d: Seq<u8>, at: int)
    requires
        0 <= at,
        at + 4 <= d.len(),
    ensures
        bytes::le32(bytes::un_le32(d, at)) == d.subrange(at, at + 4),
{
    let v = bytes::un_le32(d, at);
    assert(v % 256 == d[at]);
    assert(v / 256 == d[at + 1] + 256 * d[at + 2] + 65536 * d[at + 3]);
    assert(v / 65536 == d[at + 2] + 256 * d[at + 3]);
    assert(v / 16777216 == d[at + 3]);
    assert(bytes::le32(v) =~= d.subrange(at, at + 4));
}

/// Undoing the transform gives the data back; both keep the length.
pub proof fn law_e8e9_round_trip(d: Seq<u8>)
    ensures
        e8e9_plain(e8e9_coded(d)) == d,
        e8e9_coded(d).len() == d.len(),
{
    lemma_shifted_len(d, 0, 1);
    lemma_shifted_back(d, Seq::empty(), 0);
    assert(Seq::<u8>::empty() + shifted(d, 0, 1) =~= shifted(d, 0, 1));
    assert(d.skip(0) =~= d);
}

/// Whether no opcode of a call or jump stands in the four bytes in front of `i`, so
/// that `i` does not lie within the displacement of one.
pub open spec fn stands_free(d: Seq<u8>, i: int) -> bool {
    forall|j: int| i - 4 <= j < i && 0 <= j ==> #[trigger] d[j] != 0xE8 && d[j] != 0xE9
}

/// From a place that is reached on, every free place is reached.
proof fn lemma_reached(d: Seq<u8>, i: int, at: int, sign: int)
    requires
        0 <= i <= at < d.len(),
        stands_free(d, at),
    ensures
        shifted(d, i, sign).len() == d.len() - i,
        shifted(d, i, sign).skip(at - i) == shifted(d, at, sign),
    decreases at - i,
{
    lemma_shifted_len(d, i, sign);
    if i < at {
        let next = if is_branch(d, i) {
            i + 5
        } else {
            i + 1
        };
        assert(next <= at) by {
            if next > at {
                assert(d[i] != 0xE8 && d[i] != 0xE9);
            }
        }
        lemma_reached(d, next, at, sign);
        assert(shifted(d, i, sign).skip(next - i) =~= shifted(d, next, sign));
        assert(shifted(d, i, sign).skip(at - i) =~= shifted(d, i, sign).skip(next - i).skip(
            at - next,
        ));
    } else {
        assert(shifted(d, i, sign).skip(0) =~= shifted(d, i, sign));
    }
}

proof fn lemma_target(d: Seq<u8>, i: int, sign: int)
    requires
        0 <= i,
        i + 5 <= d.len(),
        d[i] == 0xE8 || d[i] == 0xE9,
        stands_free(d, i),
    ensures
        shifted(d, 0, sign).len() == d.len(),
        shifted(d, 0, sign)[i] == d[i],
        shifted(d, 0, sign).subrange(i + 1, i + 5) == bytes::le32(moved(d, i, sign)),
        bytes::un_le32(shifted(d, 0, sign), i + 1) == moved(d, i, sign),
{
    let t = shifted(d, 0, sign);
    lemma_reached(d, 0, i, sign);
    let word = bytes::le32(moved(d, i, sign));
    assert(t.skip(i) =~= seq![d[i]] + word + shifted(d, i + 5, sign));
    assert(t[i] == t.skip(i)[0]);
    assert(t.subrange(i + 1, i + 5) =~= t.skip(i).subrange(1, 5));
    assert(t.subrange(i + 1, i + 5) =~= word);
    bytes::lemma_un_le32(t, i + 1, moved(d, i, sign));
}

/// A call or jump at place `i` with displacement `v` carries, behind the transform,
/// its absolute target: `v + i + 5` modulo two to the power of 32, wherever it
/// stands. Undoing the transform takes the same sum away.
pub proof fn law_absolute_target(d: Seq<u8>, i: int)
    requires
        0 <= i,
        i + 5 <= d.len(),
        d[i] == 0xE8 || d[i] == 0xE9,
        stands_free(d, i),
    ensures
        e8e9_coded(d)[i] == d[i],
        bytes::un_le32(e8e9_coded(d), i + 1) == (bytes::un_le32(d, i + 1) + i + 5) % 0x1_0000_0000,
        e8e9_plain(d)[i] == d[i],
        bytes::un_le32(e8e9_plain(d), i + 1) == (bytes::un_le32(d, i + 1) - i - 5) % 0x1_0000_0000,
{
    lemma_target(d, i, 1);
    lemma_target(d, i, -1);
}

/// Branches of one target carry the same four bytes behind the transform, wherever
/// they stand, and branches of two targets different ones.
pub proof fn law_equal_targets(d: Seq<u8>, i: int, j: int)
    requires
        0 <= i,
        0 <= j,
        i + 5 <= d.len(),
        j + 5 <= d.len(),
        d[i] == 0xE8 || d[i] == 0xE9,
        d[j] == 0xE8 || d[j] == 0xE9,
        stands_free(d, i),
        stands_free(d, j),
    ensures
        (bytes::un_le32(d, i + 1) + i - bytes::un_le32(d, j + 1) - j) % 0x1_0000_0000 == 0
            <==> e8e9_coded(d).subrange(i + 1, i + 5) == e8e9_coded(d).subrange(j + 1, j + 5),
{
    lemma_target(d, i, 1);
    lemma_target(d, j, 1);
    let a = bytes::un_le32(d, i + 1) + i + 5;
    let b = bytes::un_le32(d, j + 1) + j + 5;
    vstd::arithmetic::div_mod::lemma_mod_equivalence(a, b, 0x1_0000_0000);
    let t = e8e9_coded(d);
    if t.subrange(i + 1, i + 5) == t.subrange(j + 1, j + 5) {
        let x = t.subrange(i + 1, i + 5);
        let y = t.subrange(j + 1, j + 5);
        assert(x[0] == y[0] && x[1] == y[1] && x[2] == y[2] && x[3] == y[3]);
        assert(bytes::un_le32(t, i + 1) == bytes::un_le32(t, j + 1));
    }
}

proof fn lemma_untouched(d: Seq<u8>, sign: int, k: int)
    requires
        0 <= k < d.len(),
        stands_free(d, k),
    ensures
        shifted(d, 0, sign)[k] == d[k],
{
    lemma_reached(d, 0, k, sign);
    assert(shifted(d, 0, sign)[k] == shifted(d, 0, sign).skip(k)[0]);
}

/// A byte that lies in no displacement stays as it is; so data without calls and
/// jumps stay whole.
pub proof fn law_other_bytes_stay(d: Seq<u8>, k: int)
    requires
        0 <= k < d.len(),
        stands_free(d, k),
    ensures
        e8e9_coded(d)[k] == d[k],
        e8e9_plain(d)[k] == d[k],
{
    lemma_untouched(d, 1, k);
    lemma_untouched(d, -1, k);
}

/// The place behind the instruction at `i`, modulo two to the power of 32.
fn place_behind(i: usize) -> (v: u64)
    requires
        i + 5 <= usize::MAX,
    ensures
        v == (i + 5) % 4294967296,
{
    (i as u64 + 5) % 4294967296
}

proof fn lemma_sum_mod(a: int, b: int)
    ensures
        (a + b % 4294967296) % 4294967296 == (a + b) % 4294967296,
        (a + 4294967296 - b % 4294967296) % 4294967296 == (a - b) % 4294967296,
{
    let q = b / 4294967296;
    let r = b % 4294967296;
    assert(b == 4294967296 * q + r);
    assert((a + b) % 4294967296 == (a + r + 4294967296 * q) % 4294967296);
    assert((a - b) == (a + 4294967296 - r) - 4294967296 * (q + 1));
}

/// Converts relative targets to absolute ones; keeps the length.
pub fn e8e9_transform(data: &[u8]) -> (out: Vec<u8>)
    ensures
        out@ == e8e9_coded(data@),
{
    let mut out: Vec<u8> = Vec::new();
    let mut i: usize = 0;
    let n: usize = data.len();
    while i < n
        invariant
            i <= n,
            n == data@.len(),
            out@ + shifted(data@, i as int, 1) =~= e8e9_coded(data@),
        decreases n - i,
    {
        let ghost before = out@;
        if n - i >= 5 && (data[i] == E8 || data[i] == E9) {
            let disp: u64 = bytes::get_u32(data, i + 1) as u64;
            let at: u64 = place_behind(i);
            proof {
                lemma_sum_mod(disp as int, i + 5);
            }
            let v: u32 = ((disp + at) % 4294967296) as u32;
            out.push(data[i]);
            bytes::push_u32(&mut out, v);
            assert(out@ + shifted(data@, i + 5, 1) =~= before + (seq![data@[i as int]] + bytes::le32(
                v as int,
            ) + shifted(data@, i + 5, 1)));
            i = i + 5;
        } else {
            out.push(data[i]);
            assert(out@ + shifted(data@, i + 1, 1) =~= before + (seq![data@[i as int]] + shifted(
                data@,
                i + 1,
                1,
            )));
            i = i + 1;
        }
    }
    out
}

/// Inverse of `e8e9_transform`.
pub fn e8e9_inverse(data: &[u8]) -> (out: Vec<u8>)
    ensures
        out@ == e8e9_plain(data@),
{
    let mut out: Vec<u8> = Vec::new();
    let mut i: usize = 0;
    let n: usize = data.len();
    while i < n
        invariant
            i <= n,
            n == data@.len(),
            out@ + shifted(data@, i as int, -1) =~= e8e9_plain(data@),
        decreases n - i,
    {
        let ghost before = out@;
        if n - i >= 5 && (data[i] == E8 || data[i] == E9) {
            let target: u64 = bytes::get_u32(data, i + 1) as u64;
            let at: u64 = place_behind(i);
            proof {
                lemma_sum_mod(target as int, i + 5);
            }
            let v: u32 = ((target + 4294967296 - at) % 4294967296) as u32;
            out.push(data[i]);
            bytes::push_u32(&mut out, v);
            assert(out@ + shifted(data@, i + 5, -1) =~= before + (seq![data@[i as int]]
                + bytes::le32(v as int) + shifted(data@, i + 5, -1)));
            i = i + 5;
        } else {
            out.push(data[i]);
            assert(out@ + shifted(data@, i + 1, -1) =~= before + (seq![data@[i as int]] + shifted(
                data@,
                i + 1,
                -1,
            )));
            i = i + 1;
        }
    }
    out
}

} // verus!
