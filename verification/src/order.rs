//! Lexicographic order of byte sequences, permutations and suffix arrays.

use vstd::prelude::*;
use vstd::relations::{sorted_by, total_ordering};

verus! {

/// `a` comes before `b` in lexicographic order, or equals it.
pub open spec fn lex_le(a: Seq<u8>, b: Seq<u8>) -> bool
    decreases a.len(),
{
    if a.len() == 0 {
        true
    } else if b.len() == 0 {
        false
    } else if a[0] != b[0] {
        a[0] < b[0]
    } else {
        lex_le(a.drop_first(), b.drop_first())
    }
}

/// The order as a relation.
pub open spec fn lex() -> spec_fn(Seq<u8>, Seq<u8>) -> bool {
    |a: Seq<u8>, b: Seq<u8>| lex_le(a, b)
}

proof fn lemma_lex_reflexive(a: Seq<u8>)
    ensures
        lex_le(a, a),
    decreases a.len(),
{
    if a.len() > 0 {
        lemma_lex_reflexive(a.drop_first());
    }
}

proof fn lemma_lex_antisymmetric(a: Seq<u8>, b: Seq<u8>)
    requires
        lex_le(a, b),
        lex_le(b, a),
    ensures
        a == b,
    decreases a.len(),
{
    if a.len() > 0 && b.len() > 0 {
        lemma_lex_antisymmetric(a.drop_first(), b.drop_first());
        assert(a =~= seq![a[0]] + a.drop_first());
        assert(b =~= seq![b[0]] + b.drop_first());
    } else {
        assert(a =~= b);
    }
}

proof fn lemma_lex_transitive(a: Seq<u8>, b: Seq<u8>, c: Seq<u8>)
    requires
        lex_le(a, b),
        lex_le(b, c),
    ensures
        lex_le(a, c),
    decreases a.len(),
{
    if a.len() > 0 && b.len() > 0 && c.len() > 0 && a[0] == b[0] && b[0] == c[0] {
        lemma_lex_transitive(a.drop_first(), b.drop_first(), c.drop_first());
    }
}

proof fn lemma_lex_connected(a: Seq<u8>, b: Seq<u8>)
    ensures
        lex_le(a, b) || lex_le(b, a),
    decreases a.len(),
{
    if a.len() > 0 && b.len() > 0 && a[0] == b[0] {
        lemma_lex_connected(a.drop_first(), b.drop_first());
    }
}

/// Lexicographic order is a total order.
pub proof fn lemma_lex_total()
    ensures
        total_ordering(lex()),
{
    let r = lex();
    assert forall|x: Seq<u8>| #[trigger] r(x, x) by {
        lemma_lex_reflexive(x);
    }
    assert forall|x: Seq<u8>, y: Seq<u8>| #[trigger] r(x, y) && #[trigger] r(y, x) implies x
        == y by {
        lemma_lex_antisymmetric(x, y);
    }
    assert forall|x: Seq<u8>, y: Seq<u8>, z: Seq<u8>| #[trigger]
        r(x, y) && #[trigger] r(y, z) implies r(x, z) by {
        lemma_lex_transitive(x, y, z);
    }
    assert forall|x: Seq<u8>, y: Seq<u8>| #[trigger] r(x, y) || #[trigger] r(y, x) by {
        lemma_lex_connected(x, y);
    }
}

/// The first byte in which two sequences differ decides their order, and a sequence
/// comes before those that it starts.
pub proof fn law_first_difference(a: Seq<u8>, b: Seq<u8>, k: int)
    requires
        0 <= k <= a.len(),
        k <= b.len(),
        a.take(k) == b.take(k),
    ensures
        k < a.len() && k < b.len() && a[k] < b[k] ==> lex_le(a, b) && !lex_le(b, a),
        k == a.len() ==> lex_le(a, b),
        k == a.len() && k < b.len() ==> !lex_le(b, a),
    decreases k,
{
    if k > 0 {
        assert(a[0] == a.take(k)[0] && b[0] == b.take(k)[0]);
        assert(a.take(k).drop_first() =~= a.drop_first().take(k - 1));
        assert(b.take(k).drop_first() =~= b.drop_first().take(k - 1));
        law_first_difference(a.drop_first(), b.drop_first(), k - 1);
    }
}

/// Prefixes of the same length keep the order.
pub proof fn lemma_lex_take(a: Seq<u8>, b: Seq<u8>, n: int)
    requires
        lex_le(a, b),
        0 <= n <= a.len(),
        n <= b.len(),
    ensures
        lex_le(a.take(n), b.take(n)),
    decreases n,
{
    if n > 0 && a[0] == b[0] {
        lemma_lex_take(a.drop_first(), b.drop_first(), n - 1);
        assert(a.take(n).drop_first() =~= a.drop_first().take(n - 1));
        assert(b.take(n).drop_first() =~= b.drop_first().take(n - 1));
    }
}

/// The indices `0..n` in some order.
pub open spec fn is_permutation(p: Seq<int>, n: int) -> bool {
    &&& p.len() == n
    &&& forall|i: int| 0 <= i < n ==> 0 <= #[trigger] p[i] < n
    &&& forall|i: int, j: int| 0 <= i < j < n ==> p[i] != p[j]
}

/// `s` with its entries taken in the order `p`.
pub open spec fn permuted<A>(s: Seq<A>, p: Seq<int>) -> Seq<A> {
    Seq::new(p.len(), |i: int| s[p[i]])
}

/// Every index occurs in a permutation.
pub proof fn lemma_permutation_contains(p: Seq<int>, n: int, v: int)
    requires
        is_permutation(p, n),
        0 <= v < n,
    ensures
        exists|i: int| 0 <= i < n && #[trigger] p[i] == v,
    decreases n,
{
    let last = p[n - 1];
    if last != v {
        let q = shrunk(p);
        lemma_shrunk(p, n);
        let w = if v > last {
            v - 1
        } else {
            v
        };
        lemma_permutation_contains(q, n - 1, w);
        let i = choose|i: int| 0 <= i < n - 1 && #[trigger] q[i] == w;
        assert(p[i] == v);
    }
}

/// A permutation without its last entry, with the larger entries lowered by one.
spec fn shrunk(p: Seq<int>) -> Seq<int> {
    Seq::new(
        (p.len() - 1) as nat,
        |i: int|
            if p[i] > p[p.len() - 1] {
                p[i] - 1
            } else {
                p[i]
            },
    )
}

proof fn lemma_shrunk(p: Seq<int>, n: int)
    requires
        is_permutation(p, n),
        n > 0,
    ensures
        is_permutation(shrunk(p), n - 1),
{
    let q = shrunk(p);
    let last = p[n - 1];
    assert forall|i: int| 0 <= i < n - 1 implies 0 <= #[trigger] q[i] < n - 1 by {
        assert(0 <= p[i] < n && p[i] != p[n - 1]);
    }
    assert forall|i: int, j: int| 0 <= i < j < n - 1 implies q[i] != q[j] by {
        assert(p[i] != p[j] && p[i] != p[n - 1] && p[j] != p[n - 1]);
    }
}

/// Permuting a sequence keeps its multiset of entries.
pub proof fn lemma_permuted_multiset<A>(s: Seq<A>, p: Seq<int>)
    requires
        is_permutation(p, s.len() as int),
    ensures
        permuted(s, p).to_multiset() == s.to_multiset(),
    decreases s.len(),
{
    broadcast use vstd::seq_lib::group_to_multiset_ensures;
    broadcast use vstd::multiset::group_multiset_axioms;

    let n = s.len() as int;
    let t = permuted(s, p);
    if n == 0 {
        assert(t =~= s);
    } else {
        let m = p[n - 1];
        assert(0 <= m < n);
        let rest = s.remove(m);
        let q = shrunk(p);
        lemma_shrunk(p, n);
        lemma_permuted_multiset(rest, q);
        assert(t.drop_last() =~= permuted(rest, q)) by {
            assert forall|i: int| 0 <= i < n - 1 implies t.drop_last()[i] == permuted(
                rest,
                q,
            )[i] by {
                assert(p[i] != p[n - 1]);
            }
        }
        assert(t =~= t.drop_last().push(s[m]));
        vstd::seq_lib::to_multiset_build(t.drop_last(), s[m]);
        vstd::seq_lib::to_multiset_remove(s, m);
        assert(s.to_multiset().contains(s[m])) by {
            vstd::seq_lib::to_multiset_contains(s, s[m]);
        }
        assert(t.to_multiset() =~= s.to_multiset());
    }
}

/// `sa` lists the suffixes of `text`, by their starts, in lexicographic order.
pub open spec fn is_suffix_array(text: Seq<u8>, sa: Seq<int>) -> bool {
    &&& is_permutation(sa, text.len() as int)
    &&& forall|i: int, j: int|
        0 <= i < j < sa.len() ==> lex_le(
            text.skip(#[trigger] sa[i]),
            text.skip(#[trigger] sa[j]),
        )
}

/// The suffix array of `text`.
pub open spec fn suffix_array(text: Seq<u8>) -> Seq<int> {
    choose|sa: Seq<int>| is_suffix_array(text, sa)
}

/// The suffixes that the entries of `sa` stand for.
spec fn suffixes(text: Seq<u8>, sa: Seq<int>) -> Seq<Seq<u8>> {
    Seq::new(sa.len(), |i: int| text.skip(sa[i]))
}

/// A text has one suffix array only.
pub proof fn lemma_suffix_array_unique(text: Seq<u8>, sa: Seq<int>)
    requires
        is_suffix_array(text, sa),
    ensures
        suffix_array(text) == sa,
        is_suffix_array(text, suffix_array(text)),
{
    let other = suffix_array(text);
    let n = text.len() as int;
    assert(is_suffix_array(text, other));
    let x = suffixes(text, sa);
    let y = suffixes(text, other);
    let all = Seq::new(text.len(), |i: int| text.skip(i));
    lemma_permuted_multiset(all, sa);
    lemma_permuted_multiset(all, other);
    assert(x =~= permuted(all, sa)) by {
        assert forall|i: int| 0 <= i < n implies x[i] == permuted(all, sa)[i] by {
            assert(0 <= sa[i] < n);
        }
    }
    assert(y =~= permuted(all, other)) by {
        assert forall|i: int| 0 <= i < n implies y[i] == permuted(all, other)[i] by {
            assert(0 <= other[i] < n);
        }
    }
    lemma_lex_total();
    let r = lex();
    assert(sorted_by(x, r)) by {
        assert forall|i: int, j: int| 0 <= i < j < x.len() implies #[trigger] r(x[i], x[j]) by {
            assert(lex_le(text.skip(sa[i]), text.skip(sa[j])));
        }
    }
    assert(sorted_by(y, r)) by {
        assert forall|i: int, j: int| 0 <= i < j < y.len() implies #[trigger] r(y[i], y[j]) by {
            assert(lex_le(text.skip(other[i]), text.skip(other[j])));
        }
    }
    vstd::seq_lib::lemma_sorted_unique(x, y, r);
    assert forall|i: int| 0 <= i < n implies sa[i] == other[i] by {
        assert(0 <= sa[i] < n && 0 <= other[i] < n);
        assert(x[i].len() == n - sa[i]);
        assert(y[i].len() == n - other[i]);
        assert(x[i] == y[i]);
    }
    assert(sa =~= other);
}

/// The order of suffix starts; starts outside the text come last.
spec fn start_le(text: Seq<u8>) -> spec_fn(int, int) -> bool {
    |i: int, j: int|
        if 0 <= i < text.len() && 0 <= j < text.len() {
            lex_le(text.skip(i), text.skip(j))
        } else if 0 <= i < text.len() {
            true
        } else if 0 <= j < text.len() {
            false
        } else {
            i <= j
        }
}

proof fn lemma_start_total(text: Seq<u8>)
    ensures
        total_ordering(start_le(text)),
{
    let r = start_le(text);
    let n = text.len();
    assert forall|x: int| #[trigger] r(x, x) by {
        lemma_lex_reflexive(text.skip(x));
    }
    assert forall|x: int, y: int| #[trigger] r(x, y) && #[trigger] r(y, x) implies x == y by {
        if 0 <= x < n && 0 <= y < n {
            lemma_lex_antisymmetric(text.skip(x), text.skip(y));
            assert(text.skip(x).len() == n - x && text.skip(y).len() == n - y);
        }
    }
    assert forall|x: int, y: int, z: int| #[trigger] r(x, y) && #[trigger] r(y, z) implies r(
        x,
        z,
    ) by {
        if 0 <= x < n && 0 <= y < n && 0 <= z < n {
            lemma_lex_transitive(text.skip(x), text.skip(y), text.skip(z));
        }
    }
    assert forall|x: int, y: int| #[trigger] r(x, y) || #[trigger] r(y, x) by {
        if 0 <= x < n && 0 <= y < n {
            lemma_lex_connected(text.skip(x), text.skip(y));
        }
    }
}

/// Every text has a suffix array.
pub proof fn lemma_suffix_array_exists(text: Seq<u8>)
    ensures
        is_suffix_array(text, suffix_array(text)),
{
    broadcast use vstd::seq_lib::group_to_multiset_ensures;

    let n = text.len() as int;
    let starts = Seq::new(text.len(), |i: int| i);
    let r = start_le(text);
    lemma_start_total(text);
    starts.lemma_sort_by_ensures(r);
    let sa = starts.sort_by(r);
    vstd::seq_lib::to_multiset_len(sa);
    vstd::seq_lib::to_multiset_len(starts);
    starts.lemma_multiset_has_no_duplicates();
    sa.lemma_multiset_has_no_duplicates_conv();
    assert forall|i: int| 0 <= i < n implies 0 <= #[trigger] sa[i] < n by {
        assert(sa.contains(sa[i]));
        assert(starts.contains(sa[i]));
    }
    assert forall|i: int, j: int| 0 <= i < j < sa.len() implies lex_le(
        text.skip(#[trigger] sa[i]),
        text.skip(#[trigger] sa[j]),
    ) by {
        assert(r(sa[i], sa[j]));
        assert(0 <= sa[i] < n && 0 <= sa[j] < n);
    }
    assert(is_suffix_array(text, sa));
}

} // verus!
