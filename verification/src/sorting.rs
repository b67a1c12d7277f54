//! Ranking by frequency: a merge sort of `(count, place)` pairs.

use vstd::prelude::*;
use vstd::relations::{sorted_by, total_ordering};

verus! {

/// Larger counts come first; equal counts keep the order of their places.
pub open spec fn ranks_before(a: (usize, usize), b: (usize, usize)) -> bool {
    a.0 > b.0 || (a.0 == b.0 && a.1 <= b.1)
}

/// The order as a relation.
pub open spec fn by_rank() -> spec_fn((usize, usize), (usize, usize)) -> bool {
    |a: (usize, usize), b: (usize, usize)| ranks_before(a, b)
}

/// The pairs in rank order.
pub open spec fn ranked(s: Seq<(usize, usize)>) -> Seq<(usize, usize)> {
    s.sort_by(by_rank())
}

proof fn lemma_rank_total()
    ensures
        total_ordering(by_rank()),
{
    let r = by_rank();
    assert forall|x: (usize, usize), y: (usize, usize)| #[trigger] r(x, y) && #[trigger] r(
        y,
        x,
    ) implies x == y by {
        assert(x.0 == y.0 && x.1 == y.1);
    }
}

/// Ranking keeps the pairs.
pub proof fn lemma_ranked(s: Seq<(usize, usize)>)
    ensures
        ranked(s).to_multiset() == s.to_multiset(),
        ranked(s).len() == s.len(),
        forall|x: (usize, usize)| ranked(s).contains(x) ==> s.contains(x),
{
    lemma_rank_total();
    s.lemma_sort_by_ensures(by_rank());
    vstd::seq_lib::to_multiset_len(s);
    vstd::seq_lib::to_multiset_len(ranked(s));
    assert forall|x: (usize, usize)| ranked(s).contains(x) implies s.contains(x) by {
        if !s.contains(x) {
            assert(!s.sort_by(by_rank()).contains(x));
        }
    }
}

/// Ranking keeps every pair, and puts larger counts first and, of equal ones, the
/// earlier place.
pub proof fn law_ranked(s: Seq<(usize, usize)>)
    ensures
        ranked(s).len() == s.len(),
        forall|x: (usize, usize)| #[trigger] ranked(s).contains(x) <==> s.contains(x),
        forall|i: int, j: int|
            0 <= i < j < ranked(s).len() ==> (#[trigger] ranked(s)[i]).0 > (#[trigger] ranked(
                s,
            )[j]).0 || ranked(s)[i].0 == ranked(s)[j].0 && ranked(s)[i].1 <= ranked(s)[j].1,
{
    lemma_rank_total();
    lemma_ranked(s);
    s.lemma_sort_by_ensures(by_rank());
    assert forall|x: (usize, usize)| #[trigger] ranked(s).contains(x) <==> s.contains(x) by {
        s.to_multiset_ensures();
        ranked(s).to_multiset_ensures();
        assert(ranked(s).to_multiset().count(x) == s.to_multiset().count(x));
    }
    assert forall|i: int, j: int| 0 <= i < j < ranked(s).len() implies (#[trigger] ranked(s)[i]).0
        > (#[trigger] ranked(s)[j]).0 || ranked(s)[i].0 == ranked(s)[j].0 && ranked(s)[i].1
        <= ranked(s)[j].1 by {
        assert(by_rank()(ranked(s)[i], ranked(s)[j]));
    }
}

proof fn lemma_sorted_is_ranked(s: Seq<(usize, usize)>, t: Seq<(usize, usize)>)
    requires
        sorted_by(t, by_rank()),
        t.to_multiset() == s.to_multiset(),
    ensures
        t == ranked(s),
{
    lemma_rank_total();
    s.lemma_sort_by_ensures(by_rank());
    vstd::seq_lib::lemma_sorted_unique(t, ranked(s), by_rank());
}

/// Merges two sorted lists.
fn merge_sorted(a: &Vec<(usize, usize)>, b: &Vec<(usize, usize)>) -> (out: Vec<(usize, usize)>)
    requires
        sorted_by(a@, by_rank()),
        sorted_by(b@, by_rank()),
    ensures
        sorted_by(out@, by_rank()),
        out@.to_multiset() == a@.to_multiset().add(b@.to_multiset()),
{
    broadcast use vstd::multiset::group_multiset_axioms;

    let ghost r = by_rank();
    let mut out: Vec<(usize, usize)> = Vec::new();
    let mut i: usize = 0;
    let mut j: usize = 0;
    assert(a@.take(0) =~= Seq::empty());
    assert(b@.take(0) =~= Seq::empty());
    assert(out@.to_multiset() =~= a@.take(0).to_multiset().add(b@.take(0).to_multiset())) by {
        broadcast use vstd::seq_lib::group_to_multiset_ensures;
        broadcast use vstd::multiset::group_multiset_axioms;

        vstd::seq_lib::to_multiset_len(out@);
        assert(out@ =~= a@.take(0));
        assert(out@ =~= b@.take(0));
        assert forall|x: (usize, usize)| #[trigger] out@.to_multiset().count(x) == 0 by {
            assert(!out@.contains(x));
        }
    }
    while i < a.len() || j < b.len()
        invariant
            r == by_rank(),
            i <= a@.len(),
            j <= b@.len(),
            sorted_by(a@, r),
            sorted_by(b@, r),
            sorted_by(out@, r),
            out@.to_multiset() == a@.take(i as int).to_multiset().add(
                b@.take(j as int).to_multiset(),
            ),
            forall|k: int|
                0 <= k < out@.len() && i < a@.len() ==> #[trigger] r(out@[k], a@[i as int]),
            forall|k: int|
                0 <= k < out@.len() && j < b@.len() ==> #[trigger] r(out@[k], b@[j as int]),
        decreases a@.len() - i + b@.len() - j,
    {
        broadcast use vstd::multiset::group_multiset_axioms;

        let ghost before = out@;
        let from_a: bool = j >= b.len() || (i < a.len() && (a[i].0 > b[j].0 || (a[i].0 == b[j].0
            && a[i].1 <= b[j].1)));
        if from_a {
            let x: (usize, usize) = a[i];
            proof {
                assert(a@.take(i + 1) =~= a@.take(i as int).push(x));
                vstd::seq_lib::to_multiset_build(a@.take(i as int), x);
                vstd::seq_lib::to_multiset_build(before, x);
                if i + 1 < a@.len() {
                    assert(r(a@[i as int], a@[i + 1]));
                    lemma_rank_total();
                }
            }
            out.push(x);
            i = i + 1;
        } else {
            let x: (usize, usize) = b[j];
            proof {
                assert(b@.take(j + 1) =~= b@.take(j as int).push(x));
                vstd::seq_lib::to_multiset_build(b@.take(j as int), x);
                vstd::seq_lib::to_multiset_build(before, x);
                if j + 1 < b@.len() {
                    assert(r(b@[j as int], b@[j + 1]));
                    lemma_rank_total();
                }
            }
            out.push(x);
            j = j + 1;
        }
        assert(out@.to_multiset() =~= a@.take(i as int).to_multiset().add(
            b@.take(j as int).to_multiset(),
        ));
        assert(sorted_by(out@, r)) by {
            assert forall|k: int, l: int| 0 <= k < l < out@.len() implies #[trigger] r(
                out@[k],
                out@[l],
            ) by {
                if l < before.len() {
                    assert(r(before[k], before[l]));
                } else {
                    assert(out@[k] == before[k]);
                }
            }
        }
        assert forall|k: int| 0 <= k < out@.len() && i < a@.len() implies #[trigger] r(
            out@[k],
            a@[i as int],
        ) by {
            if k < before.len() {
                assert(out@[k] == before[k]);
                if from_a {
                    assert(r(before[k], a@[i - 1]));
                    assert(r(a@[i - 1], a@[i as int]));
                } else {
                    assert(r(before[k], a@[i as int]));
                }
            }
        }
        assert forall|k: int| 0 <= k < out@.len() && j < b@.len() implies #[trigger] r(
            out@[k],
            b@[j as int],
        ) by {
            if k < before.len() {
                assert(out@[k] == before[k]);
                if !from_a {
                    assert(r(before[k], b@[j - 1]));
                    assert(r(b@[j - 1], b@[j as int]));
                } else {
                    assert(r(before[k], b@[j as int]));
                }
            }
        }
    }
    assert(a@.take(i as int) =~= a@);
    assert(b@.take(j as int) =~= b@);
    out
}

fn sort_range(s: &Vec<(usize, usize)>, from: usize, to: usize) -> (out: Vec<(usize, usize)>)
    requires
        from <= to <= s@.len(),
    ensures
        sorted_by(out@, by_rank()),
        out@.to_multiset() == s@.subrange(from as int, to as int).to_multiset(),
    decreases to - from,
{
    if to - from <= 1 {
        let mut out: Vec<(usize, usize)> = Vec::new();
        if to > from {
            out.push(s[from]);
        }
        assert(out@ =~= s@.subrange(from as int, to as int));
        return out;
    }
    let mid: usize = from + (to - from) / 2;
    let left = sort_range(s, from, mid);
    let right = sort_range(s, mid, to);
    proof {
        let a = s@.subrange(from as int, mid as int);
        let b = s@.subrange(mid as int, to as int);
        assert(s@.subrange(from as int, to as int) =~= a + b);
        vstd::seq_lib::lemma_multiset_commutative(a, b);
    }
    merge_sorted(&left, &right)
}

/// Sorts pairs by rank.
pub fn sort_by_rank(s: &Vec<(usize, usize)>) -> (out: Vec<(usize, usize)>)
    ensures
        out@ == ranked(s@),
{
    let out = sort_range(s, 0, s.len());
    proof {
        assert(s@.subrange(0, s@.len() as int) =~= s@);
        lemma_sorted_is_ranked(s@, out@);
    }
    out
}

} // verus!
