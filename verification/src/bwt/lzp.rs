//! LZP pre-filter: a token stream of literals and back-references found with
//! hash chains over byte pairs.

use crate::backref;
use crate::bwt::rle;
use crate::bytes;
use vstd::prelude::*;

verus! {

/// How far back a match may reach.
pub const WINDOW: usize = 4194304;

/// Number of byte pairs.
pub const HASH_SIZE: usize = 65536;

/// How many candidates of a chain are tried.
pub const MAX_PROBES: usize = 32;

/// The shortest match that is used.
pub const MIN_MATCH: usize = 4;

/// The chains of earlier places: `head` has the latest place of each byte pair,
/// `prev` the place before each place; -1 ends a chain.
#[verifier::ext_equal]
pub struct Chains {
    pub head: Seq<i32>,
    pub prev: Seq<i32>,
}

/// A match: its length and how far back it lies.
pub struct Match {
    pub len: int,
    pub dist: int,
}

/// The number of the byte pair at `i`.
pub open spec fn pair_at(d: Seq<u8>, i: int) -> int {
    d[i] * 256 + d[i + 1]
}

/// The chains before any place was entered.
pub open spec fn no_chains(n: int) -> Chains {
    Chains {
        head: Seq::new(HASH_SIZE as nat, |h: int| -1i32),
        prev: Seq::new(n as nat, |i: int| -1i32),
    }
}

/// The chains after place `p` was entered; the last place starts no pair.
pub open spec fn entered(ch: Chains, d: Seq<u8>, p: int) -> Chains {
    if p + 1 < d.len() {
        Chains {
            head: ch.head.update(pair_at(d, p), p as i32),
            prev: ch.prev.update(p, ch.head[pair_at(d, p)]),
        }
    } else {
        ch
    }
}

/// The chains after the places from `p` up to `q` were entered in turn.
pub open spec fn entered_all(ch: Chains, d: Seq<u8>, p: int, q: int) -> Chains
    decreases q - p,
{
    if p >= q {
        ch
    } else {
        entered_all(entered(ch, d, p), d, p + 1, q)
    }
}

/// How many bytes from `c` on agree with those from `i` on, counted from `len`
/// on and at most 255.
pub open spec fn agreeing(d: Seq<u8>, c: int, i: int, len: int) -> int
    decreases 255 - len,
{
    if i + len < d.len() && len < 255 && d[c + len] == d[i + len] {
        agreeing(d, c, i, len + 1)
    } else {
        len
    }
}

/// The better of `best` and the match of place `i` with candidate `c`.
pub open spec fn improved(d: Seq<u8>, i: int, c: int, best: Match) -> Match {
    if i - c <= WINDOW && agreeing(d, c, i, 0) > best.len {
        Match { len: agreeing(d, c, i, 0), dist: i - c }
    } else {
        best
    }
}

/// The longest match of place `i` among the candidates of the chain from `c`
/// on; the first of the longest, after at most `MAX_PROBES` candidates.
pub open spec fn searched(
    d: Seq<u8>,
    prev: Seq<i32>,
    i: int,
    c: int,
    probes: int,
    best: Match,
) -> Match
    decreases MAX_PROBES - probes,
{
    if c < 0 || probes >= MAX_PROBES {
        best
    } else {
        let next = improved(d, i, c, best);
        if next.len >= 255 {
            next
        } else {
            searched(d, prev, i, prev[c] as int, probes + 1, next)
        }
    }
}

/// The match that is found at place `i`; none where fewer than four bytes are
/// left.
pub open spec fn match_at(d: Seq<u8>, ch: Chains, i: int) -> Match {
    if i + 4 <= d.len() {
        searched(d, ch.prev, i, ch.head[pair_at(d, i)] as int, 0, Match { len: 0, dist: 0 })
    } else {
        Match { len: 0, dist: 0 }
    }
}

/// The chains after the search at place `i`.
pub open spec fn after_search(d: Seq<u8>, ch: Chains, i: int) -> Chains {
    if i + 4 <= d.len() {
        entered(ch, d, i)
    } else {
        ch
    }
}

/// The token of a match: marker, length, three-byte distance, high byte first.
pub open spec fn match_token(m: Match) -> Seq<u8> {
    seq![
        1u8,
        m.len as u8,
        (m.dist / 65536 % 256) as u8,
        (m.dist / 256 % 256) as u8,
        (m.dist % 256) as u8,
    ]
}

/// The tokens for the data from place `i` on.
pub open spec fn lzp_tokens(d: Seq<u8>, ch: Chains, i: int) -> Seq<u8>
    decreases
        if i < d.len() {
            d.len() - i
        } else {
            0
        },
{
    if i < 0 || i >= d.len() {
        Seq::empty()
    } else {
        let m = match_at(d, ch, i);
        let next = after_search(d, ch, i);
        if m.len >= MIN_MATCH {
            match_token(m) + lzp_tokens(d, entered_all(next, d, i, i + m.len), i + m.len)
        } else {
            seq![0u8, d[i]] + lzp_tokens(d, next, i + 1)
        }
    }
}

/// The filtered form of `d`: its length, then the tokens.
pub open spec fn lzp_coded(d: Seq<u8>) -> Seq<u8> {
    bytes::le32(d.len() as int) + lzp_tokens(d, no_chains(d.len() as int), 0)
}

/// What the tokens `t` append to `out`, up to `orig` bytes in all; reading
/// stops at a cut or impossible token.
pub open spec fn lzp_expanded(t: Seq<u8>, out: Seq<u8>, orig: int) -> Seq<u8>
    decreases t.len(),
{
    if t.len() == 0 || out.len() >= orig {
        out
    } else if t[0] == 1 {
        if t.len() < 5 {
            out
        } else {
            let len = t[1] as int;
            let dist = t[2] * 65536 + t[3] * 256 + t[4];
            if dist == 0 || dist > out.len() || dist > WINDOW {
                out
            } else {
                let room = orig - out.len();
                lzp_expanded(
                    t.skip(5),
                    backref::copied(
                        out,
                        dist,
                        if len < room {
                            len
                        } else {
                            room
                        },
                    ),
                    orig,
                )
            }
        }
    } else if t.len() < 2 {
        out
    } else {
        lzp_expanded(t.skip(2), out.push(t[1]), orig)
    }
}

/// What a filtered stream stands for: what its tokens give, filled up with
/// zeros to the recorded length.
pub open spec fn lzp_plain(s: Seq<u8>) -> Seq<u8> {
    if s.len() < 4 {
        Seq::empty()
    } else {
        let orig = bytes::un_le32(s, 0);
        let out = lzp_expanded(s.skip(4), Seq::empty(), orig);
        out + rle::zeros(orig - out.len())
    }
}

/// The chains hold earlier places only.
pub open spec fn chains_ok(ch: Chains, n: int, i: int) -> bool {
    &&& ch.head.len() == HASH_SIZE
    &&& ch.prev.len() == n
    &&& forall|h: int| 0 <= h < HASH_SIZE ==> -1 <= #[trigger] ch.head[h] < i
    &&& forall|p: int| 0 <= p < n ==> -1 <= #[trigger] ch.prev[p] <= p
}

/// A match that really is one.
pub open spec fn true_match(d: Seq<u8>, i: int, m: Match) -> bool {
    &&& 0 <= m.len <= 255
    &&& m.len > 0 ==> {
        &&& 1 <= m.dist <= WINDOW
        &&& m.dist <= i
        &&& i + m.len <= d.len()
        &&& forall|t: int| 0 <= t < m.len ==> #[trigger] d[i + t] == d[i + t - m.dist]
    }
}

proof fn lemma_agreeing(d: Seq<u8>, c: int, i: int, len: int)
    requires
        0 <= c < i < d.len(),
        0 <= len <= 255,
        i + len <= d.len(),
        forall|t: int| 0 <= t < len ==> #[trigger] d[i + t] == d[i + t - (i - c)],
    ensures
        len <= agreeing(d, c, i, len) <= 255,
        i + agreeing(d, c, i, len) <= d.len(),
        forall|t: int|
            0 <= t < agreeing(d, c, i, len) ==> #[trigger] d[i + t] == d[i + t - (i - c)],
    decreases 255 - len,
{
    if i + len < d.len() && len < 255 && d[c + len] == d[i + len] {
        assert(d[i + len] == d[i + len - (i - c)]);
        lemma_agreeing(d, c, i, len + 1);
    }
}

proof fn lemma_improved(d: Seq<u8>, i: int, c: int, best: Match)
    requires
        0 <= c < i < d.len(),
        true_match(d, i, best),
    ensures
        true_match(d, i, improved(d, i, c, best)),
{
    lemma_agreeing(d, c, i, 0);
}

proof fn lemma_searched(d: Seq<u8>, prev: Seq<i32>, i: int, c: int, probes: int, best: Match)
    requires
        i < d.len(),
        c < i,
        prev.len() == d.len(),
        forall|p: int| 0 <= p < prev.len() ==> -1 <= #[trigger] prev[p] <= p,
        true_match(d, i, best),
    ensures
        true_match(d, i, searched(d, prev, i, c, probes, best)),
    decreases MAX_PROBES - probes,
{
    if c >= 0 && probes < MAX_PROBES {
        lemma_improved(d, i, c, best);
        let next = improved(d, i, c, best);
        if next.len < 255 {
            lemma_searched(d, prev, i, prev[c] as int, probes + 1, next);
        }
    }
}

/// What is found at a place is a match.
pub proof fn lemma_match_at(d: Seq<u8>, ch: Chains, i: int)
    requires
        chains_ok(ch, d.len() as int, i),
        0 <= i < d.len(),
    ensures
        true_match(d, i, match_at(d, ch, i)),
{
    if i + 4 <= d.len() {
        lemma_searched(
            d,
            ch.prev,
            i,
            ch.head[pair_at(d, i)] as int,
            0,
            Match { len: 0, dist: 0 },
        );
    }
}

proof fn lemma_entered(ch: Chains, d: Seq<u8>, p: int, i: int)
    requires
        chains_ok(ch, d.len() as int, i),
        0 <= p < d.len() <= i32::MAX,
        i <= p + 1,
    ensures
        chains_ok(entered(ch, d, p), d.len() as int, p + 1),
{
    if p + 1 < d.len() {
        assert(0 <= pair_at(d, p) < HASH_SIZE);
    }
}

proof fn lemma_entered_all(ch: Chains, d: Seq<u8>, p: int, q: int, i: int)
    requires
        chains_ok(ch, d.len() as int, i),
        0 <= p,
        i <= p + 1,
        i <= q <= d.len() <= i32::MAX,
    ensures
        chains_ok(entered_all(ch, d, p, q), d.len() as int, q),
    decreases q - p,
{
    if p < q {
        lemma_entered(ch, d, p, i);
        lemma_entered_all(entered(ch, d, p), d, p + 1, q, p + 1);
    }
}

proof fn lemma_after_search(d: Seq<u8>, ch: Chains, i: int)
    requires
        chains_ok(ch, d.len() as int, i),
        0 <= i < d.len() <= i32::MAX,
    ensures
        chains_ok(after_search(d, ch, i), d.len() as int, i + 1),
{
    lemma_entered(ch, d, i, i);
}

/// Expanding the tokens from place `i` on, with the data before it at hand,
/// gives the data.
proof fn lemma_expanded(d: Seq<u8>, ch: Chains, i: int)
    requires
        0 <= i <= d.len() <= i32::MAX,
        chains_ok(ch, d.len() as int, i),
    ensures
        lzp_expanded(lzp_tokens(d, ch, i), d.take(i), d.len() as int) == d,
        lzp_tokens(d, ch, i).len() <= 2 * (d.len() - i),
    decreases d.len() - i,
{
    let n = d.len() as int;
    let t = lzp_tokens(d, ch, i);
    if i >= n {
        assert(d.take(i) =~= d);
    } else {
        let m = match_at(d, ch, i);
        let next = after_search(d, ch, i);
        lemma_match_at(d, ch, i);
        lemma_after_search(d, ch, i);
        if m.len >= MIN_MATCH {
            let ch2 = entered_all(next, d, i, i + m.len);
            lemma_entered_all(next, d, i, i + m.len, i + 1);
            let rest = lzp_tokens(d, ch2, i + m.len);
            lemma_expanded(d, ch2, i + m.len);
            assert(t.skip(5) =~= rest);
            assert(t[0] == 1 && t[1] == m.len);
            assert(t[2] * 65536 + t[3] * 256 + t[4] == m.dist);
            backref::lemma_copied(d, i, m.dist, m.len);
        } else {
            let rest = lzp_tokens(d, next, i + 1);
            lemma_expanded(d, next, i + 1);
            assert(t.skip(2) =~= rest);
            assert(t[0] == 0 && t[1] == d[i]);
            assert(d.take(i).push(d[i]) =~= d.take(i + 1));
        }
    }
}

/// Whether the head of the chain of every byte pair is its latest place before `i`,
/// and there is none where the pair was not entered.
pub open spec fn heads_known(ch: Chains, d: Seq<u8>, i: int) -> bool {
    &&& forall|p: int| 0 <= p < i && p + 1 < d.len() ==> p <= #[trigger] ch.head[pair_at(d, p)]
    &&& forall|h: int|
        0 <= h < HASH_SIZE && #[trigger] ch.head[h] >= 0 ==> ch.head[h] + 1 < d.len() && pair_at(
            d,
            ch.head[h] as int,
        ) == h
}

/// Heads are known from the start on, and entering places in turn keeps them so.
pub proof fn law_heads_known(ch: Chains, d: Seq<u8>, p: int, i: int)
    requires
        d.len() <= i32::MAX,
    ensures
        heads_known(no_chains(d.len() as int), d, 0),
        heads_known(ch, d, i) && chains_ok(ch, d.len() as int, i) && 0 <= p < d.len() && p <= i <= p
            + 1 ==> heads_known(entered(ch, d, p), d, p + 1),
{
    if heads_known(ch, d, i) && chains_ok(ch, d.len() as int, i) && 0 <= p < d.len() && p <= i <= p
        + 1 {
        let next = entered(ch, d, p);
        if p + 1 < d.len() {
            assert(0 <= pair_at(d, p) < HASH_SIZE);
            assert forall|q: int| 0 <= q < p + 1 && q + 1 < d.len() implies q
                <= #[trigger] next.head[pair_at(d, q)] by {
                assert(0 <= pair_at(d, q) < HASH_SIZE);
                if q < i {
                    assert(q <= ch.head[pair_at(d, q)]);
                }
            }
        }
    }
}

proof fn lemma_searched_grows(d: Seq<u8>, prev: Seq<i32>, i: int, c: int, probes: int, best: Match)
    ensures
        searched(d, prev, i, c, probes, best).len >= best.len,
    decreases MAX_PROBES - probes,
{
    if c >= 0 && probes < MAX_PROBES {
        let next = improved(d, i, c, best);
        if next.len < 255 {
            lemma_searched_grows(d, prev, i, prev[c] as int, probes + 1, next);
        }
    }
}

proof fn lemma_agreeing_reaches(d: Seq<u8>, c: int, i: int, k: int, len: int)
    requires
        0 <= c < i,
        0 <= k <= len <= 255,
        i + len <= d.len(),
        forall|t: int| i <= t < i + len ==> #[trigger] d[t] == d[t - (i - c)],
    ensures
        agreeing(d, c, i, k) >= len,
    decreases len - k,
{
    if k < len {
        let t = i + k;
        assert(d[t] == d[t - (i - c)]);
        lemma_agreeing_reaches(d, c, i, k + 1, len);
    } else {
        lemma_agreeing_grows(d, c, i, k);
    }
}

proof fn lemma_agreeing_grows(d: Seq<u8>, c: int, i: int, k: int)
    ensures
        agreeing(d, c, i, k) >= k,
    decreases 255 - k,
{
    if i + k < d.len() && k < 255 && d[c + k] == d[i + k] {
        lemma_agreeing_grows(d, c, i, k + 1);
    }
}

/// A repeat up to 4 MiB back is found: where `len` bytes, up to 255, from place `c` on
/// stand from place `i` on too, and the two bytes there stand nowhere between, the
/// match at `i` is at least that long; and it is coded in five bytes.
pub proof fn law_repeat_is_coded(d: Seq<u8>, ch: Chains, i: int, c: int, len: int)
    requires
        chains_ok(ch, d.len() as int, i),
        heads_known(ch, d, i),
        0 <= c < i,
        i - c <= 0x40_0000,
        4 <= len <= 255,
        i + len <= d.len() <= i32::MAX,
        forall|t: int| i <= t < i + len ==> #[trigger] d[t] == d[t - (i - c)],
        forall|q: int|
            c < q < i ==> #[trigger] d[q] != d[i] || d[q + 1] != d[i + 1],
    ensures
        match_at(d, ch, i).len >= len,
        lzp_tokens(d, ch, i).len() <= 5 + 2 * (d.len() - i - len),
        lzp_tokens(d, ch, i)[0] == 1,
        lzp_tokens(d, ch, i)[1] >= len,
{
    assert(d[i] == d[i - (i - c)] && d[i + 1] == d[i + 1 - (i - c)]);
    assert(pair_at(d, c) == pair_at(d, i));
    let h = ch.head[pair_at(d, c)] as int;
    assert(0 <= pair_at(d, c) < HASH_SIZE);
    assert(c <= h < i);
    assert(pair_at(d, h) == pair_at(d, i));
    assert(d[h] == d[i] && d[h + 1] == d[i + 1]) by {
        assert(pair_at(d, h) / 256 == d[h] && pair_at(d, i) / 256 == d[i]);
    }
    assert(h == c);
    lemma_agreeing_reaches(d, c, i, 0, len);
    let none = Match { len: 0, dist: 0 };
    let first = improved(d, i, c, none);
    lemma_searched_grows(d, ch.prev, i, ch.prev[c] as int, 1, first);
    lemma_match_at(d, ch, i);
    let m = match_at(d, ch, i);
    assert(m.len >= len);
    let next = after_search(d, ch, i);
    lemma_after_search(d, ch, i);
    let ch2 = entered_all(next, d, i, i + m.len);
    lemma_entered_all(next, d, i, i + m.len, i + 1);
    lemma_expanded(d, ch2, i + m.len);
}

proof fn lemma_literals_first(d: Seq<u8>, ch: Chains, k: int, i: int) -> (r: Chains)
    requires
        0 <= k <= i,
        i + 4 <= d.len() <= i32::MAX,
        chains_ok(ch, d.len() as int, k),
        heads_known(ch, d, k),
        forall|a: int, b: int|
            0 <= a < b < i ==> #[trigger] d[a] != #[trigger] d[b] || d[a + 1] != d[b + 1],
    ensures
        chains_ok(r, d.len() as int, i),
        heads_known(r, d, i),
        lzp_tokens(d, ch, k).len() == 2 * (i - k) + lzp_tokens(d, r, i).len(),
    decreases i - k,
{
    if k < i {
        let h = ch.head[pair_at(d, k)] as int;
        assert(0 <= pair_at(d, k) < HASH_SIZE);
        if h >= 0 {
            assert(pair_at(d, h) == pair_at(d, k));
            assert(pair_at(d, h) / 256 == d[h] && pair_at(d, k) / 256 == d[k]);
            assert(d[h] == d[k] && d[h + 1] == d[k + 1]);
        }
        let next = after_search(d, ch, k);
        lemma_after_search(d, ch, k);
        law_heads_known(ch, d, k, k);
        lemma_literals_first(d, next, k + 1, i)
    } else {
        ch
    }
}

/// The first repeat is coded: where no byte pair stands twice before `i`, all before
/// it is coded as literals of two bytes each, and the repeat in five bytes.
pub proof fn law_first_repeat_is_coded(d: Seq<u8>, i: int, c: int, len: int)
    requires
        0 <= c < i,
        i - c <= 0x40_0000,
        4 <= len <= 255,
        i + len <= d.len() <= i32::MAX,
        forall|t: int| i <= t < i + len ==> #[trigger] d[t] == d[t - (i - c)],
        forall|a: int, b: int|
            0 <= a < b < i ==> #[trigger] d[a] != #[trigger] d[b] || d[a + 1] != d[b + 1],
    ensures
        lzp_coded(d).len() <= 4 + 2 * i + 5 + 2 * (d.len() - i - len),
{
    let start = no_chains(d.len() as int);
    law_heads_known(start, d, 0, 0);
    let ch = lemma_literals_first(d, start, 0, i);
    assert(d[i] == d[i - (i - c)] && d[i + 1] == d[i + 1 - (i - c)]);
    assert forall|q: int| c < q < i implies #[trigger] d[q] != d[i] || d[q + 1] != d[i + 1] by {
        assert(d[c] != d[q] || d[c + 1] != d[q + 1]);
    }
    law_repeat_is_coded(d, ch, i, c, len);
}

proof fn lemma_all_known(ch: Chains, d: Seq<u8>, p: int, q: int, i: int)
    requires
        chains_ok(ch, d.len() as int, i),
        heads_known(ch, d, i),
        0 <= p <= i <= p + 1,
        i <= q <= d.len() <= i32::MAX,
    ensures
        heads_known(entered_all(ch, d, p, q), d, q),
    decreases q - p,
{
    if p < q {
        lemma_entered(ch, d, p, i);
        law_heads_known(ch, d, p, i);
        lemma_all_known(entered(ch, d, p), d, p + 1, q, p + 1);
    }
}

/// Every place is known once it is passed, whether a literal or a match covers it: the
/// tokens from `i` on are one token and those from the next place on, or from the end
/// of the match, with the latest place of each byte pair before it known.
pub proof fn law_passed_places_are_known(d: Seq<u8>, ch: Chains, i: int) -> (r: (
    Seq<u8>,
    Chains,
    int,
))
    requires
        chains_ok(ch, d.len() as int, i),
        heads_known(ch, d, i),
        0 <= i,
        i + 4 <= d.len() <= i32::MAX,
    ensures
        lzp_tokens(d, ch, i) == r.0 + lzp_tokens(d, r.1, r.2),
        chains_ok(r.1, d.len() as int, r.2),
        heads_known(r.1, d, r.2),
        match_at(d, ch, i).len < 4 ==> r.2 == i + 1 && r.0 == seq![0u8, d[i]],
        match_at(d, ch, i).len >= 4 ==> r.2 == i + match_at(d, ch, i).len && r.0.len() == 5,
{
    let m = match_at(d, ch, i);
    let next = after_search(d, ch, i);
    lemma_match_at(d, ch, i);
    lemma_after_search(d, ch, i);
    law_heads_known(ch, d, i, i);
    if m.len >= MIN_MATCH {
        let end = i + m.len;
        lemma_entered_all(next, d, i, end, i + 1);
        lemma_all_known(next, d, i, end, i + 1);
        (match_token(m), entered_all(next, d, i, end), end)
    } else {
        (seq![0u8, d[i]], next, i + 1)
    }
}

/// The place `j` links of a chain behind `c`.
pub open spec fn linked(prev: Seq<i32>, c: int, j: int) -> int
    decreases j,
{
    if j <= 0 {
        c
    } else {
        linked(prev, prev[c] as int, j - 1)
    }
}

proof fn lemma_searched_reaches(
    d: Seq<u8>,
    prev: Seq<i32>,
    i: int,
    c: int,
    probes: int,
    best: Match,
    j: int,
)
    requires
        0 <= j < MAX_PROBES - probes,
        forall|k: int| 0 <= k <= j ==> #[trigger] linked(prev, c, k) >= 0,
        i - linked(prev, c, j) <= WINDOW,
    ensures
        ({
            let r = searched(d, prev, i, c, probes, best);
            r.len >= agreeing(d, linked(prev, c, j), i, 0) || r.len >= 255
        }),
    decreases j,
{
    assert(linked(prev, c, 0) >= 0);
    let next = improved(d, i, c, best);
    if j == 0 {
        lemma_searched_grows(d, prev, i, prev[c] as int, probes + 1, next);
    } else if next.len < 255 {
        assert forall|k: int| 0 <= k <= j - 1 implies #[trigger] linked(
            prev,
            prev[c] as int,
            k,
        ) >= 0 by {
            assert(linked(prev, c, k + 1) >= 0);
        }
        lemma_searched_reaches(d, prev, i, prev[c] as int, probes + 1, next, j - 1);
    }
}

/// Each of the last 32 places of a byte pair is tried: the match at place `i` is at
/// least as long as what agrees with any of them up to 4 MiB back.
pub proof fn law_last_places_are_tried(d: Seq<u8>, ch: Chains, i: int, j: int, len: int)
    requires
        0 <= i,
        i + 4 <= d.len(),
        0 <= j < 32,
        forall|k: int| 0 <= k <= j ==> #[trigger] linked(ch.prev, ch.head[pair_at(d, i)] as int, k)
            >= 0,
        4 <= len <= 255,
        i + len <= d.len(),
        ({
            let c = linked(ch.prev, ch.head[pair_at(d, i)] as int, j);
            &&& c < i
            &&& i - c <= 0x40_0000
            &&& forall|t: int| i <= t < i + len ==> #[trigger] d[t] == d[t - (i - c)]
        }),
    ensures
        match_at(d, ch, i).len >= len,
{
    let head = ch.head[pair_at(d, i)] as int;
    let none = Match { len: 0, dist: 0 };
    lemma_agreeing_reaches(d, linked(ch.prev, head, j), i, 0, len);
    lemma_searched_reaches(d, ch.prev, i, head, 0, none, j);
}

/// Undoing the filter gives the data back; the filter at most doubles the data
/// and adds the four bytes of the length.
pub proof fn law_lzp_round_trip(d: Seq<u8>)
    requires
        d.len() <= i32::MAX,
    ensures
        lzp_plain(lzp_coded(d)) == d,
        lzp_coded(d).len() <= 2 * d.len() + 4,
{
    let n = d.len() as int;
    let s = lzp_coded(d);
    let ch = no_chains(n);
    lemma_expanded(d, ch, 0);
    assert(s.subrange(0, 4) =~= bytes::le32(n));
    bytes::lemma_un_le32(s, 0, n);
    assert(s.skip(4) =~= lzp_tokens(d, ch, 0));
    assert(d.take(0) =~= Seq::<u8>::empty());
    assert(d + rle::zeros(0) =~= d);
}

/// The chains as the encoder keeps them.
struct ChainTable {
    head: Vec<i32>,
    prev: Vec<i32>,
}

impl View for ChainTable {
    type V = Chains;

    closed spec fn view(&self) -> Chains {
        Chains { head: self.head@, prev: self.prev@ }
    }
}

impl ChainTable {
    fn new(n: usize) -> (t: Self)
        requires
            n <= i32::MAX,
        ensures
            t@ == no_chains(n as int),
            chains_ok(t@, n as int, 0),
    {
        let t = Self { head: vec![-1i32; HASH_SIZE], prev: vec![-1i32; n] };
        assert(t@ =~= no_chains(n as int));
        t
    }

    fn enter(&mut self, data: &[u8], p: usize)
        requires
            p < data@.len() <= i32::MAX,
            old(self)@.head.len() == HASH_SIZE,
            old(self)@.prev.len() == data@.len(),
        ensures
            final(self)@ == entered(old(self)@, data@, p as int),
    {
        if p + 1 < data.len() {
            let h: usize = data[p] as usize * 256 + data[p + 1] as usize;
            self.prev[p] = self.head[h];
            self.head[h] = p as i32;
        }
    }

    /// Finds the match at place `i`.
    fn find(&self, data: &[u8], i: usize) -> (r: (usize, usize))
        requires
            i < data@.len() <= i32::MAX,
            chains_ok(self@, data@.len() as int, i as int),
        ensures
            r.0 == match_at(data@, self@, i as int).len,
            r.1 == match_at(data@, self@, i as int).dist,
    {
        let n: usize = data.len();
        let ghost d = data@;
        if n - i < 4 {
            return (0, 0);
        }
        let h: usize = data[i] as usize * 256 + data[i + 1] as usize;
        let mut best_len: usize = 0;
        let mut best_dist: usize = 0;
        let mut cand: i32 = self.head[h];
        let mut probes: usize = 0;
        let ghost goal = match_at(d, self@, i as int);
        while cand >= 0 && probes < MAX_PROBES
            invariant
                d == data@,
                n == d.len(),
                i < n <= i32::MAX,
                chains_ok(self@, n as int, i as int),
                -1 <= cand < i,
                probes <= MAX_PROBES,
                best_len < 255,
                goal == match_at(d, self@, i as int),
                true_match(d, i as int, Match { len: best_len as int, dist: best_dist as int }),
                goal == searched(
                    d,
                    self@.prev,
                    i as int,
                    cand as int,
                    probes as int,
                    Match { len: best_len as int, dist: best_dist as int },
                ),
            decreases MAX_PROBES - probes,
        {
            let c: usize = cand as usize;
            proof {
                lemma_improved(
                    d,
                    i as int,
                    c as int,
                    Match { len: best_len as int, dist: best_dist as int },
                );
            }
            if i - c <= WINDOW {
                let mut len: usize = 0;
                while i + len < n && len < 255 && data[c + len] == data[i + len]
                    invariant
                        d == data@,
                        n == d.len(),
                        c < i < n <= i32::MAX,
                        len <= 255,
                        agreeing(d, c as int, i as int, 0) == agreeing(
                            d,
                            c as int,
                            i as int,
                            len as int,
                        ),
                    decreases 255 - len,
                {
                    len = len + 1;
                }
                if len > best_len {
                    best_len = len;
                    best_dist = i - c;
                    if best_len >= 255 {
                        return (best_len, best_dist);
                    }
                }
            }
            assert(-1 <= self@.prev[c as int] <= c);
            cand = self.prev[c];
            probes = probes + 1;
        }
        (best_len, best_dist)
    }
}

/// Filters `data`: its length as four little-endian bytes, then
/// `[1, len, dist (3 bytes)]` for matches of 4 to 255 bytes and `[0, byte]` for
/// all other bytes.
pub fn lzp_encode(data: &[u8]) -> (out: Vec<u8>)
    requires
        data@.len() <= i32::MAX,
    ensures
        out@ == lzp_coded(data@),
{
    let n: usize = data.len();
    let ghost d = data@;
    let mut out: Vec<u8> = Vec::new();
    bytes::push_u32(&mut out, n as u32);
    let mut table = ChainTable::new(n);
    let mut i: usize = 0;
    assert(out@ + lzp_tokens(d, table@, 0) =~= lzp_coded(d));
    while i < n
        invariant
            d == data@,
            n == d.len(),
            i <= n <= i32::MAX,
            chains_ok(table@, n as int, i as int),
            out@ + lzp_tokens(d, table@, i as int) =~= lzp_coded(d),
        decreases n - i,
    {
        let ghost ch = table@;
        let ghost before = out@;
        let ghost rest = lzp_tokens(d, ch, i as int);
        proof {
            lemma_match_at(d, ch, i as int);
            lemma_after_search(d, ch, i as int);
        }
        let (len, dist) = table.find(data, i);
        if n - i >= 4 {
            table.enter(data, i);
        }
        let ghost next = table@;
        if len >= MIN_MATCH {
            let ghost m = match_at(d, ch, i as int);
            out.push(1);
            out.push(len as u8);
            out.push((dist / 65536) as u8);
            out.push((dist / 256 % 256) as u8);
            out.push((dist % 256) as u8);
            assert(out@ =~= before + match_token(m));
            proof {
                lemma_entered_all(next, d, i as int, i + len, i + 1);
            }
            let end: usize = i + len;
            let ghost goal = entered_all(next, d, i as int, end as int);
            let start: usize = i;
            let mut p: usize = i;
            while p < end
                invariant
                    d == data@,
                    start <= p <= end <= d.len() <= i32::MAX,
                    table@.head.len() == HASH_SIZE,
                    table@.prev.len() == d.len(),
                    goal == entered_all(table@, d, p as int, end as int),
                decreases end - p,
            {
                table.enter(data, p);
                p = p + 1;
            }
            i = end;
            assert(table@ == goal);
            assert(out@ + lzp_tokens(d, table@, i as int) =~= before + rest);
        } else {
            out.push(0);
            out.push(data[i]);
            i = i + 1;
            assert(out@ + lzp_tokens(d, table@, i as int) =~= before + rest);
        }
    }
    out
}

/// Expands a stream from `lzp_encode`. The stream records its own length; the
/// length that the caller expects is not consulted.
pub fn lzp_decode(data: &[u8], orig_len: usize) -> (out: Vec<u8>)
    ensures
        out@ == lzp_plain(data@),
{
    let _ = orig_len;
    if data.len() < 4 {
        return Vec::new();
    }
    let orig: usize = bytes::get_u32(data, 0) as usize;
    let ghost d = data@;
    let ghost goal = lzp_expanded(d.skip(4), Seq::empty(), orig as int);
    let mut out: Vec<u8> = Vec::new();
    let mut i: usize = 4;
    let mut done: bool = false;
    while !done && i < data.len() && out.len() < orig
        invariant
            d == data@,
            4 <= i <= d.len(),
            out@.len() <= orig,
            done ==> goal == out@,
            !done ==> goal == lzp_expanded(d.skip(i as int), out@, orig as int),
        decreases
            d.len() - i,
            if done {
                0int
            } else {
                1
            },
    {
        let ghost t = d.skip(i as int);
        let flag: u8 = data[i];
        assert(t[0] == flag);
        if flag == 1 {
            if data.len() - i < 5 {
                done = true;
            } else {
                let len: usize = data[i + 1] as usize;
                let dist: usize = data[i + 2] as usize * 65536 + data[i + 3] as usize * 256
                    + data[i + 4] as usize;
                assert(t[1] == len && t[2] == d[i + 2] && t[3] == d[i + 3] && t[4] == d[i + 4]);
                if dist == 0 || dist > out.len() || dist > WINDOW {
                    done = true;
                } else {
                    let room: usize = orig - out.len();
                    let count: usize = if len < room {
                        len
                    } else {
                        room
                    };
                    backref::copy_back(&mut out, dist, count);
                    assert(t.skip(5) =~= d.skip(i + 5));
                    i = i + 5;
                }
            }
        } else if data.len() - i < 2 {
            done = true;
        } else {
            assert(t[1] == d[i + 1]);
            assert(t.skip(2) =~= d.skip(i + 2));
            out.push(data[i + 1]);
            i = i + 2;
        }
    }
    assert(goal == out@);
    let missing: usize = orig - out.len();
    rle::push_zeros(&mut out, missing);
    out
}

} // verus!
