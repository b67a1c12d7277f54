//! The Burrows-Wheeler transform over the cyclic rotations of the data.

use crate::bytes;
use crate::order;
use vstd::prelude::*;
use vstd::relations::sorted_by;

verus! {

/// The place of offset `t` of the rotation that starts at `q`.
pub open spec fn wrapped(n: int, q: int, t: int) -> int {
    if q + t < n {
        q + t
    } else {
        q + t - n
    }
}

/// The rotation of `d` that starts at `q`.
pub open spec fn rotation(d: Seq<u8>, q: int) -> Seq<u8> {
    Seq::new(d.len(), |t: int| d[wrapped(d.len() as int, q, t)])
}

/// The entries of `s` that are below `n`, in their order.
pub open spec fn below(s: Seq<int>, n: int) -> Seq<int>
    decreases s.len(),
{
    if s.len() == 0 {
        Seq::empty()
    } else if s.last() < n {
        below(s.drop_last(), n).push(s.last())
    } else {
        below(s.drop_last(), n)
    }
}

/// The starts of the rotations of `d` in sorted order; equal rotations stand in
/// the order of the suffixes of the doubled data.
pub open spec fn rotation_order(d: Seq<u8>) -> Seq<int> {
    below(order::suffix_array(d + d), d.len() as int)
}

/// The last characters of the sorted rotations.
pub open spec fn last_column(d: Seq<u8>) -> Seq<u8> {
    Seq::new(
        d.len(),
        |i: int| d[wrapped(d.len() as int, rotation_order(d)[i], d.len() - 1)],
    )
}

/// The place of the data itself among its sorted rotations.
pub open spec fn primary_index(d: Seq<u8>) -> int {
    choose|i: int| 0 <= i < d.len() && #[trigger] rotation_order(d)[i] == 0
}

/// The transform of `d`: the last column, then the primary index.
pub open spec fn bwt_coded(d: Seq<u8>) -> Seq<u8> {
    if d.len() == 0 {
        Seq::empty()
    } else {
        last_column(d) + bytes::le32(primary_index(d))
    }
}

/// How many of the first `k` bytes of `b` equal `c`.
pub open spec fn equal_count(b: Seq<u8>, k: int, c: int) -> int
    decreases k,
{
    if k <= 0 {
        0
    } else {
        equal_count(b, k - 1, c) + if b[k - 1] == c {
            1int
        } else {
            0
        }
    }
}

/// How many of the first `k` bytes of `b` are less than `c`.
pub open spec fn less_count(b: Seq<u8>, k: int, c: int) -> int
    decreases k,
{
    if k <= 0 {
        0
    } else {
        less_count(b, k - 1, c) + if b[k - 1] < c {
            1int
        } else {
            0
        }
    }
}

/// The place in the first column of the character at place `i` of the last one.
pub open spec fn last_to_first(b: Seq<u8>, i: int) -> int {
    less_count(b, b.len() as int, b[i] as int) + equal_count(b, i, b[i] as int)
}

/// The `k` characters that a walk from place `idx` collects, last one first.
pub open spec fn walked(b: Seq<u8>, idx: int, k: int) -> Seq<u8>
    decreases k,
{
    if k <= 0 {
        Seq::empty()
    } else {
        walked(b, last_to_first(b, idx), k - 1).push(b[idx])
    }
}

/// Whether the primary index of a transformed stream lies within it.
pub open spec fn primary_ok(s: Seq<u8>) -> bool {
    s.len() <= 4 || bytes::un_le32(s, s.len() - 4) < s.len() - 4
}

/// What a transformed stream stands for.
pub open spec fn bwt_plain(s: Seq<u8>) -> Seq<u8> {
    if s.len() <= 4 {
        Seq::empty()
    } else {
        walked(s.take(s.len() - 4), bytes::un_le32(s, s.len() - 4), s.len() - 4)
    }
}

proof fn lemma_counts(b: Seq<u8>, k: int, c: int)
    requires
        0 <= k <= b.len(),
    ensures
        0 <= equal_count(b, k, c),
        0 <= less_count(b, k, c),
        less_count(b, k, c + 1) == less_count(b, k, c) + equal_count(b, k, c),
        less_count(b, k, c) + equal_count(b, k, c) <= k,
    decreases k,
{
    if k > 0 {
        lemma_counts(b, k - 1, c);
    }
}

proof fn lemma_less_mono(b: Seq<u8>, k: int, c: int, e: int)
    requires
        0 <= k <= b.len(),
        c <= e,
    ensures
        less_count(b, k, c) <= less_count(b, k, e),
    decreases k,
{
    if k > 0 {
        lemma_less_mono(b, k - 1, c, e);
    }
}

proof fn lemma_equal_mono(b: Seq<u8>, i: int, j: int, c: int)
    requires
        0 <= i <= j <= b.len(),
    ensures
        equal_count(b, i, c) <= equal_count(b, j, c),
        i < j && b[i] == c ==> equal_count(b, i, c) < equal_count(b, j, c),
    decreases j - i,
{
    if i < j - 1 {
        lemma_equal_mono(b, i, j - 1, c);
    }
}

proof fn lemma_last_to_first_range(b: Seq<u8>, i: int)
    requires
        0 <= i < b.len(),
    ensures
        0 <= last_to_first(b, i) < b.len(),
        last_to_first(b, i) < less_count(b, b.len() as int, b[i] + 1),
{
    let n = b.len() as int;
    lemma_counts(b, n, b[i] as int);
    lemma_counts(b, i, b[i] as int);
    lemma_equal_mono(b, i, n, b[i] as int);
}

/// The map orders places by their character, and equal characters by place.
proof fn lemma_last_to_first_order(b: Seq<u8>, i: int, j: int)
    requires
        0 <= i < b.len(),
        0 <= j < b.len(),
        b[i] < b[j] || (b[i] == b[j] && i < j),
    ensures
        last_to_first(b, i) < last_to_first(b, j),
{
    let n = b.len() as int;
    if b[i] < b[j] {
        lemma_last_to_first_range(b, i);
        lemma_less_mono(b, n, b[i] + 1, b[j] as int);
        lemma_counts(b, j, b[j] as int);
    } else {
        lemma_equal_mono(b, i, j, b[i] as int);
    }
}

spec fn first_places(b: Seq<u8>) -> Seq<int> {
    Seq::new(b.len(), |i: int| last_to_first(b, i))
}

proof fn lemma_first_places(b: Seq<u8>)
    ensures
        order::is_permutation(first_places(b), b.len() as int),
{
    let n = b.len() as int;
    let f = first_places(b);
    assert forall|i: int| 0 <= i < n implies 0 <= #[trigger] f[i] < n by {
        lemma_last_to_first_range(b, i);
    }
    assert forall|i: int, j: int| 0 <= i < j < n implies f[i] != f[j] by {
        if b[i] <= b[j] {
            lemma_last_to_first_order(b, i, j);
        } else {
            lemma_last_to_first_order(b, j, i);
        }
    }
}

/// The place that maps to `k`.
spec fn place_of(b: Seq<u8>, k: int) -> int {
    choose|i: int| 0 <= i < b.len() && #[trigger] first_places(b)[i] == k
}

spec fn places(b: Seq<u8>) -> Seq<int> {
    Seq::new(b.len(), |k: int| place_of(b, k))
}

proof fn lemma_places(b: Seq<u8>)
    ensures
        order::is_permutation(places(b), b.len() as int),
        forall|k: int|
            0 <= k < b.len() ==> 0 <= #[trigger] places(b)[k] < b.len() && last_to_first(
                b,
                places(b)[k],
            ) == k,
        forall|i: int| 0 <= i < b.len() ==> places(b)[#[trigger] last_to_first(b, i)] == i,
{
    let n = b.len() as int;
    let f = first_places(b);
    let p = places(b);
    lemma_first_places(b);
    assert forall|k: int| 0 <= k < n implies 0 <= #[trigger] p[k] < n && last_to_first(b, p[k])
        == k by {
        order::lemma_permutation_contains(f, n, k);
        let i = p[k];
        assert(0 <= i < n && f[i] == k);
    }
    assert forall|i: int, j: int| 0 <= i < j < n implies p[i] != p[j] by {
        assert(last_to_first(b, p[i]) == i);
        assert(last_to_first(b, p[j]) == j);
    }
    assert forall|i: int| 0 <= i < n implies p[#[trigger] last_to_first(b, i)] == i by {
        let k = last_to_first(b, i);
        assert(f[i] == k);
        assert(0 <= f[i] < n);
        let j = p[k];
        assert(0 <= j < n && last_to_first(b, j) == k);
        assert(f[j] == k);
        if i < j {
            assert(f[i] != f[j]);
        } else if j < i {
            assert(f[j] != f[i]);
        }
    }
}

proof fn lemma_below(s: Seq<int>, n: int)
    ensures
        forall|i: int|
            0 <= i < below(s, n).len() ==> (#[trigger] below(s, n)[i]) < n && s.contains(
                below(s, n)[i],
            ),
        forall|i: int|
            0 <= i < s.len() && s[i] < n ==> below(s, n).contains(#[trigger] s[i]),
        below(s, n).len() <= s.len(),
    decreases s.len(),
{
    if s.len() > 0 {
        let t = s.drop_last();
        lemma_below(t, n);
        let b = below(s, n);
        assert forall|i: int| 0 <= i < b.len() implies (#[trigger] b[i]) < n && s.contains(
            b[i],
        ) by {
            if i < below(t, n).len() {
                assert(b[i] == below(t, n)[i]);
                let j = choose|j: int| 0 <= j < t.len() && t[j] == b[i];
                assert(s[j] == b[i]);
            } else {
                assert(s[s.len() - 1] == b[i]);
            }
        }
        assert forall|i: int| 0 <= i < s.len() && s[i] < n implies b.contains(#[trigger] s[i]) by {
            if i < t.len() {
                assert(t[i] == s[i]);
                let j = choose|j: int| 0 <= j < below(t, n).len() && below(t, n)[j] == s[i];
                assert(b[j] == s[i]);
            } else {
                assert(b[b.len() - 1] == s[i]);
            }
        }
    }
}

/// The entries kept have the order and the distinctness of the whole.
proof fn lemma_below_sorted(text: Seq<u8>, s: Seq<int>, n: int)
    requires
        forall|i: int, j: int| 0 <= i < j < s.len() ==> s[i] != s[j],
        forall|i: int, j: int|
            0 <= i < j < s.len() ==> order::lex_le(
                text.skip(#[trigger] s[i]),
                text.skip(#[trigger] s[j]),
            ),
    ensures
        forall|i: int, j: int|
            0 <= i < j < below(s, n).len() ==> #[trigger] below(s, n)[i] != #[trigger] below(
                s,
                n,
            )[j] && order::lex_le(text.skip(below(s, n)[i]), text.skip(below(s, n)[j])),
    decreases s.len(),
{
    if s.len() > 0 {
        let t = s.drop_last();
        assert forall|i: int, j: int| 0 <= i < j < t.len() implies order::lex_le(
            text.skip(#[trigger] t[i]),
            text.skip(#[trigger] t[j]),
        ) by {
            assert(t[i] == s[i] && t[j] == s[j]);
        }
        assert forall|i: int, j: int| 0 <= i < j < t.len() implies t[i] != t[j] by {
            assert(s[i] != s[j]);
        }
        lemma_below_sorted(text, t, n);
        lemma_below(t, n);
        let b = below(s, n);
        let bt = below(t, n);
        assert forall|i: int, j: int| 0 <= i < j < b.len() implies #[trigger] b[i]
            != #[trigger] b[j] && order::lex_le(text.skip(b[i]), text.skip(b[j])) by {
            assert(bt[i] == b[i]);
            if j < bt.len() {
                assert(bt[j] == b[j]);
            } else {
                assert(t.contains(bt[i]));
                let k = choose|k: int| 0 <= k < t.len() && t[k] == bt[i];
                assert(s[k] == b[i]);
                assert(s[s.len() - 1] == b[j]);
            }
        }
    }
}

/// The rotation order lists every rotation once, sorted.
proof fn lemma_rotation_order(d: Seq<u8>)
    ensures
        order::is_permutation(rotation_order(d), d.len() as int),
        forall|i: int, j: int|
            0 <= i < j < d.len() ==> order::lex_le(
                rotation(d, #[trigger] rotation_order(d)[i]),
                rotation(d, #[trigger] rotation_order(d)[j]),
            ),
{
    let n = d.len() as int;
    let text = d + d;
    let sa = order::suffix_array(text);
    let p = rotation_order(d);
    order::lemma_suffix_array_exists(text);
    lemma_below(sa, n);
    lemma_below_sorted(text, sa, n);
    assert forall|i: int| 0 <= i < p.len() implies 0 <= #[trigger] p[i] < n by {
        assert(sa.contains(p[i]));
        let k = choose|k: int| 0 <= k < sa.len() && sa[k] == p[i];
        assert(0 <= sa[k]);
    }
    // Distinct entries below `n`, each of them present: there are `n`.
    assert(p.len() == n) by {
        assert(p.no_duplicates()) by {
            assert forall|i: int, j: int| 0 <= i < p.len() && 0 <= j < p.len() && i
                != j implies p[i] != p[j] by {
                if i < j {
                    assert(p[i] != p[j]);
                } else {
                    assert(p[j] != p[i]);
                }
            }
        }
        p.unique_seq_to_set();
        vstd::set_lib::lemma_int_range(0, n);
        assert(p.to_set() =~= vstd::set_lib::set_int_range(0, n)) by {
            assert forall|v: int| 0 <= v < n implies #[trigger] p.to_set().contains(v) by {
                order::lemma_permutation_contains(sa, 2 * n, v);
                let k = choose|k: int| 0 <= k < 2 * n && #[trigger] sa[k] == v;
                assert(p.contains(sa[k]));
            }
            assert forall|v: int| #[trigger] p.to_set().contains(v) implies 0 <= v < n by {
                let k = choose|k: int| 0 <= k < p.len() && p[k] == v;
                assert(0 <= p[k] < n);
            }
        }
    }
    assert forall|i: int, j: int| 0 <= i < j < n implies p[i] != p[j] by {
        assert(p[i] != p[j]);
    }
    assert forall|i: int, j: int| 0 <= i < j < n implies order::lex_le(
        rotation(d, #[trigger] p[i]),
        rotation(d, #[trigger] p[j]),
    ) by {
        assert(0 <= p[i] < n && 0 <= p[j] < n);
        order::lemma_lex_take(text.skip(p[i]), text.skip(p[j]), n);
        assert(text.skip(p[i]).take(n) =~= rotation(d, p[i]));
        assert(text.skip(p[j]).take(n) =~= rotation(d, p[j]));
    }
}

/// The sorted rotations.
spec fn sorted_rotations(d: Seq<u8>) -> Seq<Seq<u8>> {
    Seq::new(d.len(), |i: int| rotation(d, rotation_order(d)[i]))
}

/// The start of the rotation one to the left.
spec fn left_of(n: int, q: int) -> int {
    if q == 0 {
        n - 1
    } else {
        q - 1
    }
}

/// Moving the last character of a sorted rotation to the front leads to the
/// rotation at the place that the character has in the first column.
proof fn lemma_walk_step(d: Seq<u8>, i: int)
    requires
        0 <= i < d.len(),
    ensures
        0 <= last_to_first(last_column(d), i) < d.len(),
        sorted_rotations(d)[last_to_first(last_column(d), i)] == rotation(
            d,
            left_of(d.len() as int, rotation_order(d)[i]),
        ),
{
    let n = d.len() as int;
    let p = rotation_order(d);
    let b = last_column(d);
    let t = sorted_rotations(d);
    lemma_rotation_order(d);
    lemma_places(b);
    let inv = places(b);
    let all = Seq::new(d.len(), |q: int| rotation(d, q));
    let p_left = Seq::new(d.len(), |k: int| left_of(n, p[k]));
    assert(order::is_permutation(p_left, n)) by {
        assert forall|k: int| 0 <= k < n implies 0 <= #[trigger] p_left[k] < n by {
            assert(0 <= p[k] < n);
        }
        assert forall|k: int, l: int| 0 <= k < l < n implies p_left[k] != p_left[l] by {
            assert(p[k] != p[l]);
            assert(0 <= p[k] < n && 0 <= p[l] < n);
        }
    }
    let u = order::permuted(all, p_left);
    let v = order::permuted(u, inv);
    order::lemma_permuted_multiset(all, p);
    order::lemma_permuted_multiset(all, p_left);
    order::lemma_permuted_multiset(u, inv);
    assert(t =~= order::permuted(all, p)) by {
        assert forall|k: int| 0 <= k < n implies t[k] == order::permuted(all, p)[k] by {
            assert(0 <= p[k] < n);
        }
    }
    assert forall|k: int| 0 <= k < n implies #[trigger] u[k] == seq![b[k]] + t[k].take(n - 1) by {
        assert(0 <= p[k] < n);
        assert(0 <= p_left[k] < n);
        assert(u[k] == rotation(d, left_of(n, p[k])));
        assert(u[k] =~= seq![b[k]] + t[k].take(n - 1));
    }
    let r = order::lex();
    order::lemma_lex_total();
    assert(sorted_by(t, r)) by {
        assert forall|k: int, l: int| 0 <= k < l < t.len() implies #[trigger] r(t[k], t[l]) by {
            assert(order::lex_le(rotation(d, p[k]), rotation(d, p[l])));
        }
    }
    assert(sorted_by(v, r)) by {
        assert forall|k: int, l: int| 0 <= k < l < v.len() implies #[trigger] r(v[k], v[l]) by {
            let x = inv[k];
            let y = inv[l];
            assert(0 <= x < n && 0 <= y < n);
            assert(last_to_first(b, x) == k && last_to_first(b, y) == l);
            assert(v[k] == u[x] && v[l] == u[y]);
            if b[x] < b[y] {
            } else if b[y] < b[x] {
                lemma_last_to_first_order(b, y, x);
            } else if x < y {
                assert(order::lex_le(rotation(d, p[x]), rotation(d, p[y])));
                order::lemma_lex_take(t[x], t[y], n - 1);
                assert((seq![b[x]] + t[x].take(n - 1)).drop_first() =~= t[x].take(n - 1));
                assert((seq![b[y]] + t[y].take(n - 1)).drop_first() =~= t[y].take(n - 1));
            } else if y < x {
                lemma_last_to_first_order(b, y, x);
            }
        }
    }
    vstd::seq_lib::lemma_sorted_unique(t, v, r);
    let k = last_to_first(b, i);
    lemma_last_to_first_range(b, i);
    assert(inv[k] == i);
    assert(v[k] == u[i]);
    assert(0 <= p_left[i] < n);
}

/// A walk from a place that holds the rotation starting at `k` collects the
/// first `k` characters of the data.
proof fn lemma_walked(d: Seq<u8>, idx: int, k: int)
    requires
        0 <= idx < d.len(),
        0 <= k <= d.len(),
        sorted_rotations(d)[idx] == rotation(
            d,
            if k == d.len() {
                0
            } else {
                k
            },
        ),
    ensures
        walked(last_column(d), idx, k) == d.take(k),
    decreases k,
{
    let n = d.len() as int;
    let b = last_column(d);
    if k > 0 {
        let p = rotation_order(d);
        lemma_rotation_order(d);
        assert(0 <= p[idx] < n);
        let start = if k == n {
            0
        } else {
            k
        };
        assert(b[idx] == rotation(d, p[idx])[n - 1]);
        assert(rotation(d, start)[n - 1] == d[k - 1]);
        lemma_walk_step(d, idx);
        let next = last_to_first(b, idx);
        assert(sorted_rotations(d)[next] == rotation(d, k - 1)) by {
            let a = rotation(d, left_of(n, p[idx]));
            let c = rotation(d, k - 1);
            let x = rotation(d, p[idx]);
            let y = rotation(d, start);
            assert(x == y);
            assert forall|t: int| 0 <= t < n implies a[t] == c[t] by {
                if t == 0 {
                    assert(a[0] == x[n - 1]);
                    assert(c[0] == y[n - 1]);
                } else {
                    assert(a[t] == x[t - 1]);
                    assert(c[t] == y[t - 1]);
                }
            }
            assert(a =~= c);
        }
        lemma_walked(d, next, k - 1);
        assert(d.take(k) =~= d.take(k - 1).push(d[k - 1]));
    } else {
        assert(d.take(0) =~= Seq::<u8>::empty());
    }
}

proof fn lemma_primary(d: Seq<u8>)
    requires
        d.len() > 0,
    ensures
        0 <= primary_index(d) < d.len(),
        rotation_order(d)[primary_index(d)] == 0,
{
    lemma_rotation_order(d);
    order::lemma_permutation_contains(rotation_order(d), d.len() as int, 0);
}

/// Undoing the transform gives the data back.
pub proof fn law_bwt_round_trip(d: Seq<u8>)
    requires
        d.len() <= u32::MAX,
    ensures
        primary_ok(bwt_coded(d)),
        bwt_plain(bwt_coded(d)) == d,
{
    let n = d.len() as int;
    if n > 0 {
        let s = bwt_coded(d);
        let i = primary_index(d);
        lemma_primary(d);
        assert(s.subrange(n, n + 4) =~= bytes::le32(i));
        bytes::lemma_un_le32(s, n, i);
        assert(s.take(n) =~= last_column(d));
        lemma_walked(d, i, n);
        assert(d.take(n) =~= d);
    } else {
        assert(d =~= Seq::<u8>::empty());
    }
}

/// The transform of non-empty data is four bytes longer than the data.
pub proof fn lemma_bwt_len(d: Seq<u8>)
    ensures
        bwt_coded(d).len() == if d.len() == 0 {
            0
        } else {
            d.len() + 4
        },
{
}

/// The transform lists, for the rotations of the data in lexicographic order, the byte
/// in front of the start of each; so the bytes in front of equal text stand side by
/// side. The number behind them is the place of the rotation that starts at 0.
pub proof fn law_bytes_in_front_of_sorted_rotations(d: Seq<u8>)
    requires
        0 < d.len() <= u32::MAX,
    ensures
        ({
            let n = d.len() as int;
            let p = rotation_order(d);
            let s = bwt_coded(d);
            &&& order::is_permutation(p, n)
            &&& s.len() == n + 4
            &&& forall|i: int, j: int|
                0 <= i < j < n ==> order::lex_le(
                    rotation(d, #[trigger] p[i]),
                    rotation(d, #[trigger] p[j]),
                )
            &&& forall|i: int| 0 <= i < n ==> #[trigger] s[i] == d[(p[i] + n - 1) % n]
            &&& 0 <= bytes::un_le32(s, n) < n
            &&& p[bytes::un_le32(s, n)] == 0
        }),
        forall|q: int, t: int|
            0 <= q < d.len() && 0 <= t < d.len() ==> #[trigger] rotation(d, q)[t] == d[(q + t)
                % d.len() as int],
{
    let n = d.len() as int;
    let p = rotation_order(d);
    let s = bwt_coded(d);
    lemma_rotation_order(d);
    lemma_primary(d);
    assert(s.subrange(n, n + 4) =~= bytes::le32(primary_index(d)));
    bytes::lemma_un_le32(s, n, primary_index(d));
    assert forall|i: int| 0 <= i < n implies #[trigger] s[i] == d[(p[i] + n - 1) % n] by {
        lemma_wrapped_mod(n, p[i], n - 1);
    }
    assert forall|q: int, t: int| 0 <= q < n && 0 <= t < n implies #[trigger] rotation(d, q)[t]
        == d[(q + t) % n] by {
        lemma_wrapped_mod(n, q, t);
    }
}

proof fn lemma_wrapped_mod(n: int, q: int, t: int)
    requires
        0 <= q < n,
        0 <= t < n,
    ensures
        wrapped(n, q, t) == (q + t) % n,
{
    if q + t < n {
        vstd::arithmetic::div_mod::lemma_small_mod((q + t) as nat, n as nat);
    } else {
        vstd::arithmetic::div_mod::lemma_mod_add_multiples_vanish(q + t - n, n);
        vstd::arithmetic::div_mod::lemma_small_mod((q + t - n) as nat, n as nat);
    }
}

/// The numbers of a suffix array as mathematical integers.
pub open spec fn ints(s: Seq<i32>) -> Seq<int> {
    Seq::new(s.len(), |i: int| s[i] as int)
}

/// Sorts the suffixes of `text` with `libsais_rs::libsais`, which is given an
/// array as long as the text, no extra space and no frequency table.
///
/// Claimed of that function: where it reports success (0), the array holds the
/// suffix array of the text.
#[verifier::external_body]
fn sort_suffixes_sais(text: &[u8]) -> (r: (i32, Vec<i32>))
    requires
        text@.len() < i32::MAX,
    ensures
        r.0 == 0 ==> order::is_suffix_array(text@, ints(r.1@)),
{
    let mut sa = vec![0i32; text.len()];
    let status = libsais_rs::libsais(text, &mut sa, 0, None);
    (status, sa)
}

/// Sorts the suffixes of `text` with `divsufsort::sort`, which takes texts of
/// fewer than `i32::MAX` bytes.
///
/// Claimed of that function: the array it returns is the suffix array of the
/// text.
#[verifier::external_body]
fn sort_suffixes_div(text: &[u8]) -> (sa: Vec<i32>)
    requires
        text@.len() < i32::MAX,
    ensures
        order::is_suffix_array(text@, ints(sa@)),
{
    divsufsort::sort(text).into_parts().1
}

/// Builds the suffix array of `data`.
pub fn build_sa(data: &[u8]) -> (sa: Vec<usize>)
    requires
        data@.len() < i32::MAX,
    ensures
        sa@.len() == data@.len(),
        forall|i: int| 0 <= i < sa@.len() ==> #[trigger] sa@[i] == order::suffix_array(data@)[i],
{
    let (status, raw) = sort_suffixes_sais(data);
    let raw: Vec<i32> = if status == 0 {
        raw
    } else {
        sort_suffixes_div(data)
    };
    let ghost found = ints(raw@);
    proof {
        order::lemma_suffix_array_unique(data@, found);
    }
    let mut sa: Vec<usize> = Vec::new();
    let mut i: usize = 0;
    while i < raw.len()
        invariant
            i <= raw@.len(),
            raw@.len() == data@.len(),
            found == ints(raw@),
            order::is_suffix_array(data@, found),
            sa@.len() == i,
            forall|j: int| 0 <= j < i ==> #[trigger] sa@[j] == found[j],
        decreases raw@.len() - i,
    {
        assert(0 <= found[i as int]);
        assert(found[i as int] == raw@[i as int]);
        sa.push(raw[i] as usize);
        i = i + 1;
    }
    sa
}

/// Forward Burrows-Wheeler transform: the last characters of the sorted cyclic
/// rotations, followed by the primary index as four little-endian bytes.
pub fn bwt_forward(data: &[u8]) -> (out: Vec<u8>)
    requires
        2 * data@.len() < i32::MAX,
    ensures
        out@ == bwt_coded(data@),
{
    let n: usize = data.len();
    let mut doubled: Vec<u8> = Vec::new();
    bytes::push_slice(&mut doubled, data);
    bytes::push_slice(&mut doubled, data);
    assert(doubled@ =~= data@ + data@);
    let sa: Vec<usize> = build_sa(doubled.as_slice());
    if n == 0 {
        return Vec::new();
    }
    let ghost all = order::suffix_array(data@ + data@);
    let ghost p = rotation_order(data@);
    proof {
        order::lemma_suffix_array_exists(data@ + data@);
        lemma_rotation_order(data@);
        lemma_primary(data@);
        assert(all.take(all.len() as int) =~= all);
        assert(all.take(0) =~= Seq::<int>::empty());
    }
    let mut bwt: Vec<u8> = Vec::new();
    let mut primary: usize = 0;
    let mut k: usize = 0;
    while k < sa.len()
        invariant
            k <= sa@.len(),
            n == data@.len(),
            0 < n,
            2 * n < i32::MAX,
            all.len() == sa@.len(),
            order::is_permutation(all, 2 * n),
            p == below(all, n as int),
            order::is_permutation(p, n as int),
            forall|i: int| 0 <= i < sa@.len() ==> #[trigger] sa@[i] == all[i],
            bwt@.len() == below(all.take(k as int), n as int).len(),
            forall|i: int|
                0 <= i < bwt@.len() ==> #[trigger] bwt@[i] == data@[wrapped(
                    n as int,
                    below(all.take(k as int), n as int)[i],
                    n - 1,
                )],
            primary < n,
            forall|i: int|
                0 <= i < bwt@.len() && #[trigger] below(all.take(k as int), n as int)[i] == 0
                    ==> primary == i,
        decreases sa@.len() - k,
    {
        let pos: usize = sa[k];
        proof {
            assert(all.take(k + 1).drop_last() =~= all.take(k as int));
            assert(all.take(k + 1).last() == all[k as int]);
            assert(0 <= all[k as int] < 2 * n);
            lemma_below_prefix(all, n as int, k + 1);
        }
        if pos < n {
            assert(bwt@.len() < n);
            if pos == 0 {
                primary = bwt.len();
                proof {
                    // The start 0 occurs once.
                    assert forall|i: int|
                        0 <= i < bwt@.len() && #[trigger] below(all.take(k as int), n as int)[i]
                            == 0 implies false by {
                        lemma_below(all.take(k as int), n as int);
                        let j = choose|j: int|
                            0 <= j < k && all.take(k as int)[j] == below(
                                all.take(k as int),
                                n as int,
                            )[i];
                        assert(all[j] != all[k as int]);
                    }
                }
            }
            let at: usize = if pos == 0 {
                n - 1
            } else {
                pos - 1
            };
            bwt.push(data[at]);
        }
        k = k + 1;
    }
    proof {
        assert(all.take(k as int) =~= all);
        assert(bwt@ =~= last_column(data@));
        assert(p[primary_index(data@)] == 0);
    }
    bytes::push_u32(&mut bwt, primary as u32);
    bwt
}

proof fn lemma_below_prefix(s: Seq<int>, n: int, k: int)
    requires
        0 <= k <= s.len(),
    ensures
        below(s.take(k), n).len() <= below(s, n).len(),
    decreases s.len() - k,
{
    if k < s.len() {
        lemma_below_prefix(s, n, k + 1);
        assert(s.take(k + 1).drop_last() =~= s.take(k));
    } else {
        assert(s.take(k) =~= s);
    }
}

/// Inverse Burrows-Wheeler transform. A stream without room for data stands for
/// nothing.
pub fn bwt_inverse(data: &[u8]) -> (out: Vec<u8>)
    requires
        primary_ok(data@),
    ensures
        out@ == bwt_plain(data@),
{
    if data.len() <= 4 {
        return Vec::new();
    }
    let n: usize = data.len() - 4;
    let primary: usize = bytes::get_u32(data, n) as usize;
    let bwt: &[u8] = vstd::slice::slice_subrange(data, 0, n);
    let ghost b = bwt@;
    assert(b =~= data@.take(n as int));
    // How often each byte occurs, and the rank of each place among its equals.
    let mut seen: [usize; 256] = [0usize; 256];
    let mut ranks: Vec<usize> = Vec::new();
    let mut i: usize = 0;
    while i < n
        invariant
            i <= n,
            b == bwt@,
            b.len() == n,
            ranks@.len() == i,
            seen@.len() == 256,
            forall|c: int| 0 <= c < 256 ==> #[trigger] seen@[c] == equal_count(b, i as int, c),
            forall|j: int|
                0 <= j < i ==> #[trigger] ranks@[j] == equal_count(b, j, b[j] as int),
        decreases n - i,
    {
        let c: usize = bwt[i] as usize;
        proof {
            lemma_counts(b, i as int, c as int);
        }
        ranks.push(seen[c]);
        seen[c] = seen[c] + 1;
        i = i + 1;
    }
    // The first place of each byte value in the sorted column.
    let mut starts: [usize; 256] = [0usize; 256];
    let mut acc: usize = 0;
    let mut c: usize = 0;
    proof {
        lemma_none_less(b, n as int);
    }
    while c < 256
        invariant
            c <= 256,
            b.len() == n,
            seen@.len() == 256,
            starts@.len() == 256,
            forall|e: int| 0 <= e < 256 ==> #[trigger] seen@[e] == equal_count(b, n as int, e),
            acc == less_count(b, n as int, c as int),
            forall|e: int| 0 <= e < c ==> #[trigger] starts@[e] == less_count(b, n as int, e),
        decreases 256 - c,
    {
        proof {
            lemma_counts(b, n as int, c as int);
        }
        starts[c] = acc;
        acc = acc + seen[c];
        c = c + 1;
    }
    // Walk from the primary index; the characters come last one first.
    let mut reversed: Vec<u8> = Vec::new();
    let mut idx: usize = primary;
    let ghost whole = walked(b, primary as int, n as int);
    let mut left: usize = n;
    assert(walked(b, idx as int, left as int) + reversed@.reverse() =~= whole);
    while left > 0
        invariant
            b == bwt@,
            b.len() == n,
            idx < n,
            ranks@.len() == n,
            starts@.len() == 256,
            forall|e: int| 0 <= e < 256 ==> #[trigger] starts@[e] == less_count(b, n as int, e),
            forall|j: int|
                0 <= j < n ==> #[trigger] ranks@[j] == equal_count(b, j, b[j] as int),
            walked(b, idx as int, left as int) + reversed@.reverse() == whole,
        decreases left,
    {
        let ch: u8 = bwt[idx];
        let ghost before = reversed@;
        proof {
            lemma_last_to_first_range(b, idx as int);
        }
        reversed.push(ch);
        let next: usize = starts[ch as usize] + ranks[idx];
        proof {
            assert(next == last_to_first(b, idx as int));
            assert(reversed@.reverse() =~= seq![ch] + before.reverse());
            assert(walked(b, idx as int, left as int) + before.reverse() =~= walked(
                b,
                next as int,
                left - 1,
            ) + reversed@.reverse());
        }
        idx = next;
        left = left - 1;
    }
    let mut out: Vec<u8> = Vec::new();
    let mut j: usize = reversed.len();
    while j > 0
        invariant
            j <= reversed@.len(),
            out@ =~= reversed@.reverse().take(reversed@.len() - j),
        decreases j,
    {
        j = j - 1;
        out.push(reversed[j]);
    }
    assert(out@ =~= whole);
    out
}

proof fn lemma_none_less(b: Seq<u8>, k: int)
    requires
        0 <= k <= b.len(),
    ensures
        less_count(b, k, 0) == 0,
    decreases k,
{
    if k > 0 {
        lemma_none_less(b, k - 1);
    }
}

} // verus!
