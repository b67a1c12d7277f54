//! Match finder with hash chains, and the bit predictor that is built on it.
//!
//! The chains link the places behind equal four-byte contexts; a search walks at
//! most eight candidates. Encoder and decoder build the same tables from the same
//! bytes, so the tables are never stored.

use crate::bytes;
use crate::model::assembler;
use crate::model::{BitModel, ByteAssembler};
use vstd::prelude::*;

verus! {

/// The shortest match worth reporting.
pub const MIN_MATCH: usize = 4;

/// Number of chain heads.
pub const TABLE_SIZE: usize = 524288;

/// Number of candidates that a search walks.
pub const MAX_CHAIN: usize = 8;

/// Size of the sliding window and of the history: 4 MiB.
pub const DEFAULT_WINDOW: usize = 4194304;

/// Number of chain links.
pub const NEXT_SIZE: usize = 2097152;

/// Chain heads, chain links, and the place up to which they are built.
#[verifier::ext_equal]
pub struct Links {
    pub heads: Seq<u32>,
    pub next: Seq<u32>,
    pub at: int,
}

/// Tables without an entry.
pub open spec fn no_links() -> Links {
    Links {
        heads: Seq::new(TABLE_SIZE as nat, |i: int| 0u32),
        next: Seq::new(NEXT_SIZE as nat, |i: int| 0u32),
        at: 0,
    }
}

/// The chain of the context in front of `pos`.
pub open spec fn context_at(d: Seq<u8>, pos: int) -> int {
    if pos < 4 {
        0
    } else {
        bytes::un_le32(d, pos - 4) % (TABLE_SIZE as int)
    }
}

/// The tables with `pos` at the head of the chain of its context.
pub open spec fn linked(t: Links, d: Seq<u8>, pos: int) -> Links {
    if pos < 4 {
        t
    } else {
        let c = context_at(d, pos);
        Links {
            heads: t.heads.update(c, pos as u32),
            next: t.next.update(pos % (NEXT_SIZE as int), t.heads[c]),
            at: pos,
        }
    }
}

/// How many bytes from `pos` and from `p` on agree, counted from `k` on; the
/// count ends at 256.
pub open spec fn agreement(d: Seq<u8>, pos: int, p: int, k: int) -> int
    decreases 256 - k,
{
    if k > 255 || pos + k >= d.len() || p + k >= d.len() || d[pos + k] != d[p + k] {
        k
    } else {
        agreement(d, pos, p, k + 1)
    }
}

/// A candidate: its length and its place.
pub struct Candidate {
    pub len: int,
    pub place: int,
}

/// The longest of a chain's candidates from `cur` on, with `left` of them to
/// look at; a candidate lies before `pos` and not before `limit`.
pub open spec fn walked(
    t: Links,
    d: Seq<u8>,
    pos: int,
    limit: int,
    cur: u32,
    left: int,
    best: Candidate,
) -> Candidate
    decreases left,
{
    if cur == 0 || left <= 0 {
        best
    } else {
        let after = t.next[cur as int % (NEXT_SIZE as int)];
        let len = agreement(d, pos, cur as int, 0);
        if cur >= pos || cur < limit || len <= best.len {
            walked(t, d, pos, limit, after, left - 1, best)
        } else if len == 255 {
            Candidate { len, place: cur as int }
        } else {
            walked(t, d, pos, limit, after, left - 1, Candidate { len, place: cur as int })
        }
    }
}

/// The first place that lies within the window.
pub open spec fn window_start(at: int, window: int) -> int {
    if at > window {
        at - window
    } else {
        0
    }
}

/// The best match at `pos`: its length and its distance.
pub open spec fn match_of(t: Links, window: int, d: Seq<u8>, pos: int) -> Option<(int, int)> {
    if pos < 4 || pos >= d.len() {
        None
    } else {
        let best = walked(
            t,
            d,
            pos,
            window_start(t.at, window),
            t.heads[context_at(d, pos)],
            MAX_CHAIN as int,
            Candidate { len: 0, place: 0 },
        );
        if best.len >= MIN_MATCH {
            Some((best.len, pos - best.place))
        } else {
            None
        }
    }
}

/// Whether `len` bytes at `pos` repeat those `dist` places before.
pub open spec fn repeats(d: Seq<u8>, pos: int, len: int, dist: int) -> bool {
    &&& 0 < dist <= pos
    &&& pos + len <= d.len()
    &&& forall|k: int| 0 <= k < len ==> #[trigger] d[pos + k] == d[pos + k - dist]
}

proof fn lemma_agreement(d: Seq<u8>, pos: int, p: int, k: int)
    requires
        0 <= p < pos,
        0 <= k <= 256,
        pos + k <= d.len(),
        forall|j: int| pos <= j < pos + k ==> #[trigger] d[j] == d[j - pos + p],
    ensures
        k <= agreement(d, pos, p, k) <= 256,
        pos + agreement(d, pos, p, k) <= d.len(),
        forall|j: int|
            pos <= j < pos + agreement(d, pos, p, k) ==> #[trigger] d[j] == d[j - pos + p],
    decreases 256 - k,
{
    if !(k > 255 || pos + k >= d.len() || p + k >= d.len() || d[pos + k] != d[p + k]) {
        assert forall|j: int| pos <= j < pos + k + 1 implies #[trigger] d[j] == d[j - pos + p] by {
            if j == pos + k {
                assert(j - pos + p == p + k);
            }
        }
        lemma_agreement(d, pos, p, k + 1);
    }
}

/// Whether a candidate is none at all or repeats what lies before.
spec fn sound(d: Seq<u8>, pos: int, c: Candidate) -> bool {
    &&& 0 <= c.len <= 256
    &&& pos + c.len <= d.len()
    &&& c.len > 0 ==> 0 <= c.place < pos
    &&& forall|j: int| pos <= j < pos + c.len ==> #[trigger] d[j] == d[j - pos + c.place]
}

proof fn lemma_walked(
    t: Links,
    d: Seq<u8>,
    pos: int,
    limit: int,
    cur: u32,
    left: int,
    best: Candidate,
)
    requires
        0 <= pos < d.len(),
        sound(d, pos, best),
    ensures
        sound(d, pos, walked(t, d, pos, limit, cur, left, best)),
    decreases left,
{
    if cur != 0 && left > 0 {
        let after = t.next[cur as int % (NEXT_SIZE as int)];
        let len = agreement(d, pos, cur as int, 0);
        if cur < pos {
            lemma_agreement(d, pos, cur as int, 0);
        }
        if cur >= pos || cur < limit || len <= best.len {
            lemma_walked(t, d, pos, limit, after, left - 1, best);
        } else if len != 255 {
            lemma_walked(
                t,
                d,
                pos,
                limit,
                after,
                left - 1,
                Candidate { len, place: cur as int },
            );
        }
    }
}

/// A match repeats what lies before it.
pub proof fn law_match_repeats(t: Links, window: int, d: Seq<u8>, pos: int)
    ensures
        match_of(t, window, d, pos) matches Some((len, dist)) ==> MIN_MATCH <= len <= 256
            && repeats(d, pos, len, dist),
{
    if 4 <= pos < d.len() {
        let none = Candidate { len: 0, place: 0 };
        let start = t.heads[context_at(d, pos)];
        let limit = window_start(t.at, window);
        lemma_walked(t, d, pos, limit, start, MAX_CHAIN as int, none);
        let best = walked(t, d, pos, limit, start, MAX_CHAIN as int, none);
        if best.len >= MIN_MATCH {
            let dist = pos - best.place;
            assert forall|k: int| 0 <= k < best.len implies #[trigger] d[pos + k] == d[pos + k
                - dist] by {
                let j = pos + k;
                assert(d[j] == d[j - pos + best.place]);
            }
        }
    }
}

/// Whether the chain of the context in front of `q` is that in front of `pos`: the
/// first two of the four bytes agree, and the low three bits of the third.
pub open spec fn same_chain(d: Seq<u8>, q: int, pos: int) -> bool {
    d[q - 4] == d[pos - 4] && d[q - 3] == d[pos - 3] && d[q - 2] % 8 == d[pos - 2] % 8
}

proof fn lemma_context_value(d: Seq<u8>, pos: int)
    requires
        4 <= pos <= d.len(),
    ensures
        context_at(d, pos) == d[pos - 4] + 256 * d[pos - 3] + 65536 * (d[pos - 2] % 8),
{
    let b2 = d[pos - 2] as int;
    let b3 = d[pos - 1] as int;
    let low = d[pos - 4] + 256 * d[pos - 3] + 65536 * (b2 % 8);
    assert(b2 == 8 * (b2 / 8) + b2 % 8);
    assert(bytes::un_le32(d, pos - 4) == low + 524288 * (b2 / 8 + 32 * b3));
    assert(0 <= low < 524288);
}

/// Two places are on one chain where their contexts agree in the bits that choose
/// it.
pub proof fn law_same_chain(d: Seq<u8>, q: int, pos: int)
    requires
        4 <= q <= d.len(),
        4 <= pos <= d.len(),
    ensures
        context_at(d, q) == context_at(d, pos) <==> same_chain(d, q, pos),
{
    lemma_context_value(d, q);
    lemma_context_value(d, pos);
}

/// A search never loses what it has, and what it takes lies within the window.
proof fn lemma_walked_grows(
    t: Links,
    d: Seq<u8>,
    pos: int,
    limit: int,
    cur: u32,
    left: int,
    best: Candidate,
)
    requires
        best.len > 0 ==> limit <= best.place,
        0 <= best.len,
    ensures
        walked(t, d, pos, limit, cur, left, best).len >= best.len,
        walked(t, d, pos, limit, cur, left, best).len > 0 ==> limit <= walked(
            t,
            d,
            pos,
            limit,
            cur,
            left,
            best,
        ).place,
    decreases left,
{
    if cur != 0 && left > 0 {
        let after = t.next[cur as int % (NEXT_SIZE as int)];
        let len = agreement(d, pos, cur as int, 0);
        if cur >= pos || cur < limit || len <= best.len {
            lemma_walked_grows(t, d, pos, limit, after, left - 1, best);
        } else if len != 255 {
            lemma_walked_grows(
                t,
                d,
                pos,
                limit,
                after,
                left - 1,
                Candidate { len, place: cur as int },
            );
        }
    }
}

proof fn lemma_agreement_reaches(d: Seq<u8>, pos: int, p: int, k: int, len: int)
    requires
        0 <= p < pos,
        0 <= k <= len <= 256,
        pos + len <= d.len(),
        forall|j: int| pos <= j < pos + len ==> #[trigger] d[j] == d[j - pos + p],
    ensures
        agreement(d, pos, p, k) >= len,
    decreases len - k,
{
    if k < len {
        let j = pos + k;
        assert(d[j] == d[j - pos + p]);
        lemma_agreement_reaches(d, pos, p, k + 1, len);
    } else {
        lemma_agreement_grows(d, pos, p, k);
    }
}

proof fn lemma_agreement_grows(d: Seq<u8>, pos: int, p: int, k: int)
    ensures
        agreement(d, pos, p, k) >= k,
    decreases 256 - k,
{
    if !(k > 255 || pos + k >= d.len() || p + k >= d.len() || d[pos + k] != d[p + k]) {
        lemma_agreement_grows(d, pos, p, k + 1);
    }
}

/// Where `p` is the place next to `pos` on its chain, within the window, and `len`
/// bytes from both on agree, the match at `pos` is at least as long, and reaches no
/// farther back than the window.
pub proof fn law_next_on_chain_is_tried(
    t: Links,
    window: int,
    d: Seq<u8>,
    pos: int,
    p: int,
    len: int,
)
    requires
        4 <= p < pos < d.len(),
        d.len() <= u32::MAX,
        t.at == pos,
        t.heads[context_at(d, pos)] == pos,
        t.next[pos % (NEXT_SIZE as int)] == p,
        pos - p <= window,
        4 <= len <= 255,
        pos + len <= d.len(),
        forall|j: int| pos <= j < pos + len ==> #[trigger] d[j] == d[j - pos + p],
    ensures
        match_of(t, window, d, pos) matches Some(m) && m.0 >= len && 0 < m.1 <= window,
{
    let limit = window_start(pos, window);
    let none = Candidate { len: 0, place: 0 };
    let full = agreement(d, pos, p, 0);
    lemma_agreement_reaches(d, pos, p, 0, len);
    let after = t.next[p % (NEXT_SIZE as int)];
    let head = t.heads[context_at(d, pos)];
    let next = t.next[pos % (NEXT_SIZE as int)];
    assert(head as int == pos && next as int == p);
    lemma_walked_grows(t, d, pos, limit, after, 6, Candidate { len: full, place: p });
    lemma_walked_grows(t, d, pos, limit, head, MAX_CHAIN as int, none);
    reveal_with_fuel(walked, 3);
    let best = walked(t, d, pos, limit, head, MAX_CHAIN as int, none);
    assert(walked(t, d, pos, limit, head, MAX_CHAIN as int, none) == walked(
        t,
        d,
        pos,
        limit,
        next,
        7,
        none,
    ));
    assert(best.len >= len);
    law_match_repeats(t, window, d, pos);
}

/// The place that follows `j` links behind `cur`.
pub open spec fn link(t: Links, cur: u32, j: int) -> u32
    decreases j,
{
    if j <= 0 {
        cur
    } else {
        link(t, t.next[cur as int % 0x20_0000], j - 1)
    }
}

proof fn lemma_walked_reaches(
    t: Links,
    d: Seq<u8>,
    pos: int,
    limit: int,
    cur: u32,
    left: int,
    best: Candidate,
    j: int,
)
    requires
        0 <= j < left,
        forall|k: int| 0 <= k <= j ==> #[trigger] link(t, cur, k) != 0,
        limit <= link(t, cur, j) < pos,
        0 <= best.len,
        best.len > 0 ==> limit <= best.place,
    ensures
        ({
            let n = agreement(d, pos, link(t, cur, j) as int, 0);
            let r = walked(t, d, pos, limit, cur, left, best);
            r.len >= n || r.len == 255
        }),
    decreases left,
{
    assert(link(t, cur, 0) != 0);
    let after = t.next[cur as int % (NEXT_SIZE as int)];
    let len = agreement(d, pos, cur as int, 0);
    let here = Candidate { len, place: cur as int };
    let skipped = cur >= pos || cur < limit || len <= best.len;
    if j == 0 {
        if skipped {
            lemma_walked_grows(t, d, pos, limit, after, left - 1, best);
        } else {
            lemma_walked_grows(t, d, pos, limit, after, left - 1, here);
        }
    } else {
        assert forall|k: int| 0 <= k <= j - 1 implies #[trigger] link(t, after, k) != 0 by {
            assert(link(t, cur, k + 1) != 0);
        }
        assert(link(t, cur, j) == link(t, after, j - 1));
        if skipped {
            lemma_walked_reaches(t, d, pos, limit, after, left - 1, best, j - 1);
        } else {
            lemma_walked_reaches(t, d, pos, limit, after, left - 1, here, j - 1);
        }
    }
}

/// Each of the first eight places of a chain is tried: where one of them lies before
/// `pos`, within the window, and `len` bytes from both on agree, the match at `pos`
/// is at least as long.
pub proof fn law_eight_places_are_tried(
    t: Links,
    window: int,
    d: Seq<u8>,
    pos: int,
    j: int,
    len: int,
)
    requires
        4 <= pos < d.len(),
        0 <= j < 8,
        forall|k: int| 0 <= k <= j ==> #[trigger] link(t, t.heads[context_at(d, pos)], k) != 0,
        4 <= len <= 255,
        pos + len <= d.len(),
        ({
            let p = link(t, t.heads[context_at(d, pos)], j) as int;
            &&& p < pos
            &&& t.at - p <= window
            &&& forall|i: int| pos <= i < pos + len ==> #[trigger] d[i] == d[i - pos + p]
        }),
    ensures
        match_of(t, window, d, pos) matches Some(m) && m.0 >= len,
{
    let limit = window_start(t.at, window);
    let head = t.heads[context_at(d, pos)];
    let p = link(t, head, j) as int;
    lemma_agreement_reaches(d, pos, p, 0, len);
    lemma_walked_reaches(
        t,
        d,
        pos,
        limit,
        head,
        MAX_CHAIN as int,
        Candidate { len: 0, place: 0 },
        j,
    );
}

/// How many bytes in front of `a` and in front of `b` agree, counted backwards
/// from the `k`-th on; the count ends at 256.
pub open spec fn shared(h: Seq<u8>, a: int, b: int, k: int) -> int
    decreases 256 - k,
{
    if k > 255 || k >= a || k >= b || h[a - 1 - k] != h[b - 1 - k] {
        k
    } else {
        shared(h, a, b, k + 1)
    }
}

/// The best of a chain's candidates from `cur` on, with `left` of them to look at:
/// the one in front of which the most bytes agree with the end of the history.
pub open spec fn longest_behind(
    t: Links,
    h: Seq<u8>,
    limit: int,
    cur: u32,
    left: int,
    best: Candidate,
) -> Candidate
    decreases left,
{
    if cur == 0 || left <= 0 {
        best
    } else {
        let after = t.next[cur as int % (NEXT_SIZE as int)];
        let len = shared(h, h.len() as int, cur as int, 0);
        if cur >= h.len() || cur < limit || len <= best.len {
            longest_behind(t, h, limit, after, left - 1, best)
        } else {
            longest_behind(
                t,
                h,
                limit,
                after,
                left - 1,
                Candidate { len, place: cur as int },
            )
        }
    }
}

/// The byte that is expected behind a history: the one behind the longest match
/// of its end.
pub open spec fn expected_byte(t: Links, window: int, h: Seq<u8>) -> Option<u8> {
    if h.len() < MIN_MATCH + 1 {
        None
    } else {
        let best = longest_behind(
            t,
            h,
            window_start(t.at, window),
            t.heads[context_at(h, h.len() as int)],
            MAX_CHAIN as int,
            Candidate { len: 0, place: 0 },
        );
        if best.len >= MIN_MATCH {
            Some(h[best.place])
        } else {
            None
        }
    }
}

/// As many bytes agree as are counted.
pub proof fn lemma_shared(h: Seq<u8>, a: int, b: int, k: int)
    requires
        0 <= k <= 256,
        k <= a <= h.len(),
        k <= b <= h.len(),
        h.subrange(a - k, a) == h.subrange(b - k, b),
    ensures
        k <= shared(h, a, b, k) <= 256,
        shared(h, a, b, k) <= a,
        shared(h, a, b, k) <= b,
        h.subrange(a - shared(h, a, b, k), a) == h.subrange(b - shared(h, a, b, k), b),
    decreases 256 - k,
{
    if !(k > 255 || k >= a || k >= b || h[a - 1 - k] != h[b - 1 - k]) {
        assert(h.subrange(a - k - 1, a) =~= seq![h[a - 1 - k]] + h.subrange(a - k, a));
        assert(h.subrange(b - k - 1, b) =~= seq![h[b - 1 - k]] + h.subrange(b - k, b));
        lemma_shared(h, a, b, k + 1);
    }
}

proof fn lemma_longest_behind(
    t: Links,
    h: Seq<u8>,
    limit: int,
    cur: u32,
    left: int,
    best: Candidate,
)
    requires
        0 <= best.len,
        best.len > 0 ==> 0 <= best.place < h.len() && best.len == shared(
            h,
            h.len() as int,
            best.place,
            0,
        ),
    ensures
        ({
            let r = longest_behind(t, h, limit, cur, left, best);
            best.len <= r.len && (r.len > 0 ==> 0 <= r.place < h.len() && r.len == shared(
                h,
                h.len() as int,
                r.place,
                0,
            ))
        }),
    decreases left,
{
    if cur != 0 && left > 0 {
        let after = t.next[cur as int % (NEXT_SIZE as int)];
        let len = shared(h, h.len() as int, cur as int, 0);
        if cur >= h.len() || cur < limit || len <= best.len {
            lemma_longest_behind(t, h, limit, after, left - 1, best);
        } else {
            lemma_longest_behind(
                t,
                h,
                limit,
                after,
                left - 1,
                Candidate { len, place: cur as int },
            );
        }
    }
}

/// An expected byte follows an earlier occurrence of the last four bytes.
pub proof fn law_expected_follows(t: Links, window: int, h: Seq<u8>)
    ensures
        expected_byte(t, window, h) matches Some(b) ==> exists|p: int|
            MIN_MATCH <= p < h.len() && h[p] == b && #[trigger] h.subrange(p - MIN_MATCH, p)
                == h.subrange(h.len() - MIN_MATCH, h.len() as int),
{
    if expected_byte(t, window, h) is Some {
        let n = h.len() as int;
        let limit = window_start(t.at, window);
        let start = t.heads[context_at(h, n)];
        let none = Candidate { len: 0, place: 0 };
        lemma_longest_behind(t, h, limit, start, MAX_CHAIN as int, none);
        let best = longest_behind(t, h, limit, start, MAX_CHAIN as int, none);
        let p = best.place;
        assert(h.subrange(n, n) =~= h.subrange(p, p));
        lemma_shared(h, n, p, 0);
        let a = h.subrange(n - best.len, n);
        let b = h.subrange(p - best.len, p);
        let m = MIN_MATCH as int;
        assert(h.subrange(n - m, n) =~= a.skip(best.len - m));
        assert(h.subrange(p - m, p) =~= b.skip(best.len - m));
    }
}

proof fn lemma_longest_reaches(
    t: Links,
    h: Seq<u8>,
    limit: int,
    cur: u32,
    left: int,
    best: Candidate,
    j: int,
)
    requires
        0 <= j < left,
        forall|k: int| 0 <= k <= j ==> #[trigger] link(t, cur, k) != 0,
        limit <= link(t, cur, j) < h.len(),
        0 <= best.len,
        best.len > 0 ==> 0 <= best.place < h.len() && best.len == shared(
            h,
            h.len() as int,
            best.place,
            0,
        ),
    ensures
        longest_behind(t, h, limit, cur, left, best).len >= shared(
            h,
            h.len() as int,
            link(t, cur, j) as int,
            0,
        ),
    decreases left,
{
    assert(link(t, cur, 0) != 0);
    let after = t.next[cur as int % (NEXT_SIZE as int)];
    let len = shared(h, h.len() as int, cur as int, 0);
    let here = Candidate { len, place: cur as int };
    let skipped = cur >= h.len() || cur < limit || len <= best.len;
    if j == 0 {
        if skipped {
            lemma_longest_behind(t, h, limit, after, left - 1, best);
        } else {
            lemma_longest_behind(t, h, limit, after, left - 1, here);
        }
    } else {
        assert forall|k: int| 0 <= k <= j - 1 implies #[trigger] link(t, after, k) != 0 by {
            assert(link(t, cur, k + 1) != 0);
        }
        assert(link(t, cur, j) == link(t, after, j - 1));
        if skipped {
            lemma_longest_reaches(t, h, limit, after, left - 1, best, j - 1);
        } else {
            lemma_longest_reaches(t, h, limit, after, left - 1, here, j - 1);
        }
    }
}

/// Where one of the first eight places of the chain lies within the window and at
/// least four bytes in front of it agree with the end of the history, a byte is
/// expected: one that followed a place in front of which at least as many agree.
pub proof fn law_known_history_is_expected(t: Links, window: int, h: Seq<u8>, j: int)
    requires
        h.len() >= 5,
        0 <= j < 8,
        forall|k: int|
            0 <= k <= j ==> #[trigger] link(t, t.heads[context_at(h, h.len() as int)], k) != 0,
        ({
            let p = link(t, t.heads[context_at(h, h.len() as int)], j) as int;
            &&& p < h.len()
            &&& t.at - p <= window
            &&& shared(h, h.len() as int, p, 0) >= 4
        }),
    ensures
        ({
            let p = link(t, t.heads[context_at(h, h.len() as int)], j) as int;
            expected_byte(t, window, h) matches Some(b) && exists|q: int|
                0 <= q < h.len() && b == #[trigger] h[q] && shared(h, h.len() as int, q, 0)
                    >= shared(h, h.len() as int, p, 0)
        }),
{
    let limit = window_start(t.at, window);
    let head = t.heads[context_at(h, h.len() as int)];
    let none = Candidate { len: 0, place: 0 };
    lemma_longest_reaches(t, h, limit, head, MAX_CHAIN as int, none, j);
    lemma_longest_behind(t, h, limit, head, MAX_CHAIN as int, none);
    let best = longest_behind(t, h, limit, head, MAX_CHAIN as int, none);
    assert(expected_byte(t, window, h) == Some(h[best.place]));
}

/// Counts the bytes in front of `n` and of `p` that agree.
pub fn shared_len(h: &[u8], n: usize, p: usize) -> (len: usize)
    requires
        p <= n <= h@.len(),
    ensures
        len == shared(h@, n as int, p as int, 0),
        len <= 256,
{
    let mut len: usize = 0;
    while len <= 255 && len < p && h[n - 1 - len] == h[p - 1 - len]
        invariant
            p <= n <= h@.len(),
            len <= 256,
            len <= p,
            shared(h@, n as int, p as int, 0) == shared(h@, n as int, p as int, len as int),
        decreases 256 - len,
    {
        len = len + 1;
    }
    len
}

/// Bit `k` of a byte, counted from the most significant one.
pub open spec fn bit_from_top(b: u8, k: int) -> bool {
    (b as int / assembler::two_to((7 - k) as nat)) % 2 == 1
}

/// The probability that an expected byte gives to its bit `k`.
pub open spec fn expected_bit(b: Option<u8>, k: int) -> u16 {
    match b {
        None => 2048,
        Some(byte) => if bit_from_top(byte, k) {
            3584
        } else {
            512
        },
    }
}

/// A history with one more byte, cut at the front to its cap.
pub open spec fn remembered(h: Seq<u8>, b: u8) -> Seq<u8> {
    assembler::last_of(h.push(b), DEFAULT_WINDOW as int)
}

/// Whether bit `k` of a byte, counted from the most significant one, is set.
pub fn read_bit_from_top(b: u8, k: u8) -> (r: bool)
    requires
        k < 8,
    ensures
        r == bit_from_top(b, k as int),
{
    proof {
        reveal_with_fuel(assembler::two_to, 9);
    }
    let unit: u8 = match k {
        0 => 128,
        1 => 64,
        2 => 32,
        3 => 16,
        4 => 8,
        5 => 4,
        6 => 2,
        _ => 1,
    };
    assert(unit == assembler::two_to((7 - k) as nat));
    (b / unit) % 2 == 1
}

/// Match finder with hash chains.
pub struct Lzp {
    heads: Vec<u32>,
    next: Vec<u32>,
    current_pos: usize,
    window: usize,
    bits: ByteAssembler,
    history: Vec<u8>,
    bit_pos: u8,
}

impl Lzp {
    /// The tables have their sizes and the history keeps to its cap.
    pub closed spec fn tables_wf(&self) -> bool {
        &&& self.heads@.len() == TABLE_SIZE
        &&& self.next@.len() == NEXT_SIZE
        &&& self.history@.len() <= DEFAULT_WINDOW
        &&& self.bits.wf()
        &&& self.bits@.kept == 8
        &&& self.bit_pos < 8
    }

    /// The tables.
    pub closed spec fn links(&self) -> Links {
        Links { heads: self.heads@, next: self.next@, at: self.current_pos as int }
    }

    /// The size of the window.
    pub closed spec fn reach(&self) -> int {
        self.window as int
    }

    /// The bytes that the predictor has seen.
    pub closed spec fn seen(&self) -> Seq<u8> {
        self.history@
    }

    /// The bit that the predictor looks at.
    pub closed spec fn bit_index(&self) -> int {
        self.bit_pos as int
    }

    /// The byte in progress: how many bits, and the number that they spell.
    pub closed spec fn in_progress(&self) -> (int, int) {
        (self.bits@.len, self.bits@.part)
    }

    /// A match finder that has seen nothing, with the default window.
    pub fn new() -> (m: Self)
        ensures
            m.tables_wf(),
            is_new(m, DEFAULT_WINDOW as int),
    {
        let m = Self {
            heads: vec![0u32; TABLE_SIZE],
            next: vec![0u32; NEXT_SIZE],
            current_pos: 0,
            window: DEFAULT_WINDOW,
            bits: ByteAssembler::new(8),
            history: Vec::new(),
            bit_pos: 0,
        };
        assert(m.links() =~= no_links());
        m
    }

    /// A match finder with a window of its own.
    pub fn with_window(window: usize) -> (m: Self)
        ensures
            m.tables_wf(),
            is_new(m, window as int),
    {
        let mut m = Self::new();
        m.window = window;
        assert(m.links() =~= no_links());
        m
    }

    fn context(data: &[u8], pos: usize) -> (c: usize)
        requires
            4 <= pos <= data@.len(),
        ensures
            c == context_at(data@, pos as int),
            c < TABLE_SIZE,
    {
        (bytes::get_u32(data, pos - 4) % 524288) as usize
    }

    /// Enters `pos` into the chain of the context in front of it.
    pub fn train_at(&mut self, data: &[u8], pos: usize)
        requires
            old(self).tables_wf(),
            pos <= data@.len(),
            pos <= u32::MAX,
        ensures
            final(self).tables_wf(),
            final(self).links() == linked(old(self).links(), data@, pos as int),
            final(self).reach() == old(self).reach(),
            final(self).seen() == old(self).seen(),
            final(self).bit_index() == old(self).bit_index(),
            final(self).in_progress() == old(self).in_progress(),
    {
        if pos < 4 {
            return ;
        }
        let c: usize = Self::context(data, pos);
        let old_head: u32 = self.heads[c];
        self.heads.set(c, pos as u32);
        self.next.set(pos % NEXT_SIZE, old_head);
        self.current_pos = pos;
        assert(self.links() =~= linked(old(self).links(), data@, pos as int));
    }

    /// Takes one more byte of the stream that the predictor follows.
    pub fn train_byte(&mut self, byte: u8)
        requires
            old(self).tables_wf(),
        ensures
            final(self).tables_wf(),
            final(self).seen() == remembered(old(self).seen(), byte),
            final(self).links() == linked(
                old(self).links(),
                final(self).seen(),
                final(self).seen().len() as int,
            ),
            final(self).reach() == old(self).reach(),
            final(self).bit_index() == old(self).bit_index(),
            final(self).in_progress() == old(self).in_progress(),
    {
        self.history.push(byte);
        if self.history.len() > DEFAULT_WINDOW {
            self.history.remove(0);
        }
        assert(self.history@ =~= remembered(old(self).history@, byte));
        let n: usize = self.history.len();
        if n >= 4 {
            let c: usize = Self::context(self.history.as_slice(), n);
            let old_head: u32 = self.heads[c];
            self.heads.set(c, n as u32);
            self.next.set(n % NEXT_SIZE, old_head);
            self.current_pos = n;
        }
        assert(self.links() =~= linked(old(self).links(), self.history@, n as int));
    }

    fn limit(&self) -> (l: usize)
        ensures
            l == window_start(self.links().at, self.reach()),
    {
        if self.current_pos > self.window {
            self.current_pos - self.window
        } else {
            0
        }
    }

    /// Looks for the longest match at `pos` and returns its length and its
    /// distance, or nothing where no candidate agrees in four bytes.
    pub fn best_match(&self, data: &[u8], pos: usize) -> (r: Option<(usize, usize)>)
        requires
            self.tables_wf(),
        ensures
            match r {
                Some((len, dist)) => match_of(self.links(), self.reach(), data@, pos as int)
                    == Some((len as int, dist as int)),
                None => match_of(self.links(), self.reach(), data@, pos as int) is None,
            },
    {
        if pos < 4 || pos >= data.len() {
            return None;
        }
        let ghost t = self.links();
        let n: usize = data.len();
        let limit: usize = self.limit();
        let c: usize = Self::context(data, pos);
        let mut cur: u32 = self.heads[c];
        let mut best: usize = 0;
        let mut place: usize = 0;
        let mut left: usize = MAX_CHAIN;
        let mut full: bool = false;
        let ghost goal = walked(
            t,
            data@,
            pos as int,
            limit as int,
            cur,
            left as int,
            Candidate { len: 0, place: 0 },
        );
        while cur != 0 && left > 0 && !full
            invariant
                self.tables_wf(),
                t == self.links(),
                n == data@.len(),
                4 <= pos < n,
                left <= MAX_CHAIN,
                best <= 256,
                best > 0 ==> place < pos,
                full ==> goal == (Candidate { len: best as int, place: place as int }),
                !full ==> goal == walked(
                    t,
                    data@,
                    pos as int,
                    limit as int,
                    cur,
                    left as int,
                    Candidate { len: best as int, place: place as int },
                ),
            decreases left,
        {
            let p: usize = cur as usize;
            let after: u32 = self.next[p % NEXT_SIZE];
            if p < pos && p >= limit {
                let mut len: usize = 0;
                while len <= 255 && len < n - pos && data[pos + len] == data[p + len]
                    invariant
                        n == data@.len(),
                        p < pos < n,
                        len <= 256,
                        pos + len <= n,
                        agreement(data@, pos as int, p as int, 0) == agreement(
                            data@,
                            pos as int,
                            p as int,
                            len as int,
                        ),
                    decreases 256 - len,
                {
                    len = len + 1;
                }
                assert(len == agreement(data@, pos as int, p as int, 0));
                if len > best {
                    best = len;
                    place = p;
                    if best == 255 {
                        full = true;
                    }
                }
            }
            cur = after;
            left = left - 1;
        }
        if best >= MIN_MATCH {
            Some((best, pos - place))
        } else {
            None
        }
    }

    /// The length of the longest match at `pos`, if one agrees in four bytes.
    pub fn longest_match(&self, data: &[u8], pos: usize) -> (r: Option<usize>)
        requires
            self.tables_wf(),
        ensures
            match r {
                Some(len) => match_of(self.links(), self.reach(), data@, pos as int) matches Some(m)
                    && m.0 == len,
                None => match_of(self.links(), self.reach(), data@, pos as int) is None,
            },
    {
        match self.best_match(data, pos) {
            Some((len, _)) => Some(len),
            None => None,
        }
    }

    fn matched_byte(&self) -> (r: Option<u8>)
        requires
            self.tables_wf(),
        ensures
            r == expected_byte(self.links(), self.reach(), self.seen()),
    {
        let n: usize = self.history.len();
        if n < MIN_MATCH + 1 {
            return None;
        }
        let ghost t = self.links();
        let limit: usize = self.limit();
        let c: usize = Self::context(self.history.as_slice(), n);
        let mut cur: u32 = self.heads[c];
        let mut best: usize = 0;
        let mut place: usize = 0;
        let mut left: usize = MAX_CHAIN;
        let h: &[u8] = self.history.as_slice();
        let ghost goal = longest_behind(
            t,
            h@,
            limit as int,
            cur,
            left as int,
            Candidate { len: 0, place: 0 },
        );
        while cur != 0 && left > 0
            invariant
                self.tables_wf(),
                t == self.links(),
                h@ == self.history@,
                n == h@.len(),
                n >= 5,
                place < n,
                best <= 256,
                goal == longest_behind(
                    t,
                    h@,
                    limit as int,
                    cur,
                    left as int,
                    Candidate { len: best as int, place: place as int },
                ),
            decreases left,
        {
            let p: usize = cur as usize;
            let after: u32 = self.next[p % NEXT_SIZE];
            if p < n && p >= limit {
                let len: usize = shared_len(h, n, p);
                if len > best {
                    best = len;
                    place = p;
                }
            }
            cur = after;
            left = left - 1;
        }
        if best >= MIN_MATCH {
            Some(self.history[place])
        } else {
            None
        }
    }
}

/// Whether a finder has seen nothing, with the given window.
pub open spec fn is_new(m: Lzp, window: int) -> bool {
    &&& m.links() == no_links()
    &&& m.reach() == window
    &&& m.seen().len() == 0
    &&& m.bit_index() == 0
    &&& m.in_progress() == (0int, 0int)
}

/// Whether `b` is what `a` becomes with one more bit seen: a completed byte joins
/// the history, and the end of the history joins its chain.
pub open spec fn follows(a: Lzp, b: Lzp, bit: bool) -> bool {
    let (len, part) = a.in_progress();
    &&& b.reach() == a.reach()
    &&& len < 7 ==> {
        &&& b.in_progress() == (len + 1, assembler::with_bit(part, bit))
        &&& b.bit_index() == len + 1
        &&& b.seen() == a.seen()
        &&& b.links() == a.links()
    }
    &&& len == 7 ==> {
        &&& b.in_progress() == (0int, 0int)
        &&& b.bit_index() == 0
        &&& b.seen() == remembered(a.seen(), assembler::with_bit(part, bit) as u8)
        &&& b.links() == linked(a.links(), b.seen(), b.seen().len() as int)
    }
}

impl BitModel for Lzp {
    open spec fn wf(&self) -> bool {
        self.tables_wf()
    }

    fn predict(&self) -> (p: u16)
        ensures
            p == expected_bit(
                expected_byte(self.links(), self.reach(), self.seen()),
                self.bit_index(),
            ),
    {
        match self.matched_byte() {
            None => 2048,
            Some(b) => if read_bit_from_top(b, self.bit_pos) {
                3584
            } else {
                512
            },
        }
    }

    fn update(&mut self, bit: bool)
        ensures
            follows(*old(self), *final(self), bit),
    {
        proof {
            self.bits.lemma_part();
        }
        match self.bits.push_bit(bit) {
            Some(byte) => {
                self.train_byte(byte);
                self.bit_pos = 0;
            },
            None => {
                self.bit_pos = self.bits.nbits();
            },
        }
    }

    fn reset(&mut self)
        ensures
            is_new(*final(self), old(self).reach()),
    {
        self.heads = vec![0u32; TABLE_SIZE];
        self.next = vec![0u32; NEXT_SIZE];
        self.current_pos = 0;
        self.bits.reset();
        self.history.clear();
        self.bit_pos = 0;
        assert(self.links() =~= no_links());
    }
}

impl Default for Lzp {
    fn default() -> (m: Self)
        ensures
            m.tables_wf(),
            is_new(m, DEFAULT_WINDOW as int),
    {
        Self::new()
    }
}

} // verus!
