//! Move-to-front coding.

use vstd::prelude::*;

verus! {

/// The 256 byte values in their initial order.
pub open spec fn initial_list() -> Seq<u8> {
    Seq::new(256, |i: int| i as u8)
}

/// Every byte value stands somewhere in a list of 256.
pub open spec fn is_full(list: Seq<u8>) -> bool {
    list.len() == 256 && forall|b: u8| #[trigger] list.contains(b)
}

/// The first place of `b` in the list.
pub open spec fn rank(list: Seq<u8>, b: u8) -> int
    decreases list.len(),
{
    if list.len() == 0 || list[0] == b {
        0
    } else {
        1 + rank(list.drop_first(), b)
    }
}

/// The list with the entry at `pos` moved to the front.
pub open spec fn to_front(list: Seq<u8>, pos: int) -> Seq<u8> {
    seq![list[pos]] + list.remove(pos)
}

/// The ranks of the bytes of `d`, each moved to the front after its turn.
pub open spec fn mtf_ranks(list: Seq<u8>, d: Seq<u8>) -> Seq<u8>
    decreases d.len(),
{
    if d.len() == 0 {
        Seq::empty()
    } else {
        let pos = rank(list, d[0]);
        seq![pos as u8] + mtf_ranks(to_front(list, pos), d.drop_first())
    }
}

/// The bytes that a sequence of ranks stands for.
pub open spec fn mtf_bytes(list: Seq<u8>, r: Seq<u8>) -> Seq<u8>
    decreases r.len(),
{
    if r.len() == 0 {
        Seq::empty()
    } else {
        seq![list[r[0] as int]] + mtf_bytes(to_front(list, r[0] as int), r.drop_first())
    }
}

/// The move-to-front form of `d`.
pub open spec fn mtf_coded(d: Seq<u8>) -> Seq<u8> {
    mtf_ranks(initial_list(), d)
}

/// What a move-to-front coded stream stands for.
pub open spec fn mtf_plain(r: Seq<u8>) -> Seq<u8> {
    mtf_bytes(initial_list(), r)
}

proof fn lemma_rank(list: Seq<u8>, b: u8)
    requires
        list.contains(b),
    ensures
        0 <= rank(list, b) < list.len(),
        list[rank(list, b)] == b,
        forall|i: int| 0 <= i < rank(list, b) ==> list[i] != b,
    decreases list.len(),
{
    let i = choose|i: int| 0 <= i < list.len() && list[i] == b;
    if list[0] != b {
        assert(list.drop_first()[i - 1] == b);
        lemma_rank(list.drop_first(), b);
        assert forall|j: int| 0 <= j < rank(list, b) implies list[j] != b by {
            if j > 0 {
                assert(list.drop_first()[j - 1] == list[j]);
            }
        }
    }
}

proof fn lemma_to_front_full(list: Seq<u8>, pos: int)
    requires
        is_full(list),
        0 <= pos < 256,
    ensures
        is_full(to_front(list, pos)),
{
    let t = to_front(list, pos);
    assert forall|b: u8| #[trigger] t.contains(b) by {
        assert(list.contains(b));
        let i = choose|i: int| 0 <= i < list.len() && list[i] == b;
        if i == pos {
            assert(t[0] == b);
        } else if i < pos {
            assert(t[i + 1] == b);
        } else {
            assert(t[i] == b);
        }
    }
}

proof fn lemma_initial_full()
    ensures
        is_full(initial_list()),
{
    assert forall|b: u8| #[trigger] initial_list().contains(b) by {
        assert(initial_list()[b as int] == b);
    }
}

proof fn lemma_mtf(list: Seq<u8>, d: Seq<u8>)
    requires
        is_full(list),
    ensures
        mtf_bytes(list, mtf_ranks(list, d)) == d,
        mtf_ranks(list, d).len() == d.len(),
    decreases d.len(),
{
    if d.len() > 0 {
        assert(list.contains(d[0]));
        lemma_rank(list, d[0]);
        let pos = rank(list, d[0]);
        lemma_to_front_full(list, pos);
        let tail = mtf_ranks(to_front(list, pos), d.drop_first());
        lemma_mtf(to_front(list, pos), d.drop_first());
        let r = seq![pos as u8] + tail;
        assert(r.drop_first() =~= tail);
        assert(seq![d[0]] + d.drop_first() =~= d);
    } else {
        assert(d =~= Seq::<u8>::empty());
    }
}

proof fn lemma_rank_after(list: Seq<u8>, pos: int, b: u8)
    requires
        is_full(list),
        0 <= pos < 256,
    ensures
        rank(to_front(list, pos), b) <= rank(list, b) + 1,
        b == list[pos] ==> rank(to_front(list, pos), b) == 0,
{
    let t = to_front(list, pos);
    lemma_to_front_full(list, pos);
    assert(list.contains(b) && t.contains(b));
    lemma_rank(list, b);
    lemma_rank(t, b);
    let r = rank(list, b);
    if b != list[pos] {
        if r < pos {
            assert(t[r + 1] == b);
        } else {
            assert(t[r] == b);
        }
    }
}

proof fn lemma_rank_grows(list: Seq<u8>, d: Seq<u8>, i: int)
    requires
        is_full(list),
        0 <= i < d.len(),
    ensures
        mtf_ranks(list, d).len() == d.len(),
        0 <= mtf_ranks(list, d)[i] <= rank(list, d[i]) + i,
    decreases d.len(),
{
    assert(list.contains(d[0]) && list.contains(d[i]));
    lemma_rank(list, d[0]);
    lemma_rank(list, d[i]);
    let pos = rank(list, d[0]);
    let next = to_front(list, pos);
    let rest = d.drop_first();
    lemma_to_front_full(list, pos);
    if rest.len() > 0 {
        lemma_rank_grows(
            next,
            rest,
            if i > 0 {
                i - 1
            } else {
                0
            },
        );
        lemma_rank_after(list, pos, d[i]);
    } else {
        assert(mtf_ranks(next, rest).len() == 0);
    }
}

proof fn lemma_recent(list: Seq<u8>, d: Seq<u8>, j: int, i: int)
    requires
        is_full(list),
        0 <= j < i < d.len(),
        d[j] == d[i],
    ensures
        mtf_ranks(list, d).len() == d.len(),
        mtf_ranks(list, d)[i] <= i - j - 1,
    decreases j,
{
    assert(list.contains(d[0]));
    lemma_rank(list, d[0]);
    let pos = rank(list, d[0]);
    let next = to_front(list, pos);
    let rest = d.drop_first();
    lemma_to_front_full(list, pos);
    if j > 0 {
        lemma_recent(next, rest, j - 1, i - 1);
    } else {
        lemma_rank_after(list, pos, d[i]);
        lemma_rank_grows(next, rest, i - 1);
    }
}

/// A byte that occurred shortly before has a small rank: at most the number of bytes
/// since then. So a byte that repeats the one in front of it has rank 0.
pub proof fn law_recent_bytes_rank_low(d: Seq<u8>, j: int, i: int)
    requires
        0 <= j < i < d.len(),
        d[j] == d[i],
    ensures
        mtf_coded(d).len() == d.len(),
        mtf_coded(d)[i] <= i - j - 1,
{
    lemma_initial_full();
    lemma_recent(initial_list(), d, j, i);
}

/// The first byte has its own value as rank.
pub proof fn law_first_rank(d: Seq<u8>)
    requires
        d.len() > 0,
    ensures
        mtf_coded(d)[0] == d[0],
{
    lemma_initial_full();
    assert(initial_list().contains(d[0]));
    lemma_rank(initial_list(), d[0]);
}

/// Undoing move-to-front gives the data back, and it keeps the length.
pub proof fn law_mtf_round_trip(d: Seq<u8>)
    ensures
        mtf_plain(mtf_coded(d)) == d,
        mtf_coded(d).len() == d.len(),
{
    lemma_initial_full();
    lemma_mtf(initial_list(), d);
}

fn make_list() -> (list: Vec<u8>)
    ensures
        list@ == initial_list(),
{
    let mut list: Vec<u8> = Vec::new();
    let mut i: usize = 0;
    while i < 256
        invariant
            i <= 256,
            list@ == initial_list().take(i as int),
        decreases 256 - i,
    {
        list.push(i as u8);
        i = i + 1;
        assert(list@ =~= initial_list().take(i as int));
    }
    assert(list@ =~= initial_list());
    list
}

fn move_to_front(list: &mut Vec<u8>, pos: usize)
    requires
        pos < old(list)@.len(),
    ensures
        final(list)@ == to_front(old(list)@, pos as int),
{
    let ghost before = list@;
    let b: u8 = list.remove(pos);
    list.insert(0, b);
    assert(list@ =~= to_front(before, pos as int));
}

/// Move-to-front transform: each byte is replaced by its index in a list of the
/// 256 byte values, then moved to the front of that list.
pub fn mtf_transform(data: &[u8]) -> (out: Vec<u8>)
    ensures
        out@ == mtf_coded(data@),
{
    let mut out: Vec<u8> = Vec::new();
    let mut list: Vec<u8> = make_list();
    let mut i: usize = 0;
    proof {
        lemma_initial_full();
        assert(data@.skip(0) =~= data@);
    }
    while i < data.len()
        invariant
            i <= data@.len(),
            is_full(list@),
            out@ + mtf_ranks(list@, data@.skip(i as int)) =~= mtf_coded(data@),
        decreases data@.len() - i,
    {
        let ghost rest = data@.skip(i as int);
        let ghost before = out@;
        let ghost l = list@;
        let b: u8 = data[i];
        assert(rest[0] == b);
        assert(rest.drop_first() =~= data@.skip(i + 1));
        proof {
            assert(l.contains(b));
            lemma_rank(l, b);
            lemma_to_front_full(l, rank(l, b));
        }
        let mut pos: usize = 0;
        while list[pos] != b
            invariant
                l == list@,
                l.len() == 256,
                pos <= rank(l, b) < 256,
                l[rank(l, b)] == b,
                forall|j: int| 0 <= j < rank(l, b) ==> l[j] != b,
            decreases 256 - pos,
        {
            pos = pos + 1;
        }
        assert(pos == rank(l, b));
        out.push(pos as u8);
        move_to_front(&mut list, pos);
        i = i + 1;
        assert(out@ + mtf_ranks(list@, data@.skip(i as int)) =~= before + mtf_ranks(l, rest));
    }
    assert(data@.skip(i as int).len() == 0);
    out
}

/// Inverse of `mtf_transform`.
pub fn mtf_inverse(data: &[u8]) -> (out: Vec<u8>)
    ensures
        out@ == mtf_plain(data@),
{
    let mut out: Vec<u8> = Vec::new();
    let mut list: Vec<u8> = make_list();
    let mut i: usize = 0;
    assert(data@.skip(0) =~= data@);
    while i < data.len()
        invariant
            i <= data@.len(),
            list@.len() == 256,
            out@ + mtf_bytes(list@, data@.skip(i as int)) =~= mtf_plain(data@),
        decreases data@.len() - i,
    {
        let ghost rest = data@.skip(i as int);
        let ghost before = out@;
        let ghost l = list@;
        let idx: usize = data[i] as usize;
        assert(rest[0] == idx);
        assert(rest.drop_first() =~= data@.skip(i + 1));
        out.push(list[idx]);
        move_to_front(&mut list, idx);
        i = i + 1;
        assert(out@ + mtf_bytes(list@, data@.skip(i as int)) =~= before + mtf_bytes(l, rest));
    }
    assert(data@.skip(i as int).len() == 0);
    out
}

} // verus!
