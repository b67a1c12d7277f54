//! Wire engine: hash-chain LZ77 with an optional order-0 rANS pass.
//!
//! The token stream is LZ4-style: a token byte with two lengths, extra length
//! bytes, literals and a two-byte offset. The tokens are packed with
//! `entropy::side_fse` where that shrinks them.

use crate::backref;
use crate::bytes;
use crate::entropy::side_fse;
use crate::error;
use crate::error::{Fault, RcnError};
use crate::text;
use vstd::prelude::*;
use vstd::string::*;

verus! {

/// Number of hash slots.
pub const HASH_SIZE: usize = 65536;

/// The shortest match.
pub const MIN_MATCH: usize = 4;

/// How far back a match may reach.
pub const WINDOW: usize = 65535;

/// The longest match.
pub const MAX_MATCH: usize = 65535;

/// Payload flag: raw LZ tokens.
pub const FLAG_RAW: u8 = 0;

/// Payload flag: order-0 rANS over the token stream.
pub const FLAG_FSE: u8 = 1;

/// The latest place of each hash and the one before it; 0 stands for none.
#[verifier::ext_equal]
pub struct Slots {
    pub table: Seq<u32>,
    pub chain: Seq<u32>,
}

/// A match: its length and how far back it lies.
pub struct Match {
    pub len: int,
    pub dist: int,
}

/// The hash of the four bytes at `i`.
pub open spec fn slot_at(d: Seq<u8>, i: int) -> int {
    (bytes::un_le32(d, i) * 0x9E3779B1) % 4294967296 / 65536
}

/// How many bytes from `a` on agree with those from `b` on, counted from `k` on
/// and at most `max`.
pub open spec fn agreeing(d: Seq<u8>, a: int, b: int, max: int, k: int) -> int
    decreases max - k,
{
    if k < max && d[a + k] == d[b + k] {
        agreeing(d, a, b, max, k + 1)
    } else {
        k
    }
}

/// The longest match that could start at `i`.
pub open spec fn match_room(d: Seq<u8>, i: int) -> int {
    if d.len() - i < MAX_MATCH {
        d.len() - i
    } else {
        MAX_MATCH as int
    }
}

/// The better of `best` and the match of place `i` with candidate `c`.
pub open spec fn improved(d: Seq<u8>, i: int, c: int, best: Match) -> Match {
    if c == 0 || c >= i || i - c > WINDOW {
        best
    } else {
        let len = agreeing(d, c, i, match_room(d, i), 0);
        if len >= MIN_MATCH && len > best.len {
            Match { len, dist: i - c }
        } else {
            best
        }
    }
}

/// The match that is found at place `i`: the longer one of the two places that
/// its slot knows, the later one if both are as long.
pub open spec fn match_at(d: Seq<u8>, s: Slots, i: int) -> Match {
    let none = Match { len: 0, dist: 0 };
    if i + MIN_MATCH > d.len() {
        none
    } else {
        let h = slot_at(d, i);
        improved(d, i, s.chain[h] as int, improved(d, i, s.table[h] as int, none))
    }
}

/// The slots after place `i` was entered.
pub open spec fn entered(s: Slots, d: Seq<u8>, i: int) -> Slots {
    if i + MIN_MATCH > d.len() {
        s
    } else {
        let h = slot_at(d, i);
        Slots { table: s.table.update(h, i as u32), chain: s.chain.update(h, s.table[h]) }
    }
}

/// The slots after the places from `p` up to `q` were entered in turn.
pub open spec fn entered_all(s: Slots, d: Seq<u8>, p: int, q: int) -> Slots
    decreases q - p,
{
    if p >= q {
        s
    } else {
        entered_all(entered(s, d, p), d, p + 1, q)
    }
}

/// The bytes that continue a length of 15 or more.
pub open spec fn extra_bytes(len: int) -> Seq<u8> {
    if len < 15 {
        Seq::empty()
    } else {
        long_bytes(len - 15)
    }
}

/// A number as a run of 255s and a last smaller byte.
pub open spec fn long_bytes(rem: int) -> Seq<u8>
    decreases rem,
{
    if rem >= 255 {
        seq![255u8] + long_bytes(rem - 255)
    } else {
        seq![rem as u8]
    }
}

/// A length as far as it fits into half a token byte.
pub open spec fn half(len: int) -> int {
    if len < 15 {
        len
    } else {
        15
    }
}

/// The token for literals followed by a match.
pub open spec fn seq_token(lits: Seq<u8>, m: Match) -> Seq<u8> {
    seq![(half(lits.len() as int) * 16 + half(m.len - MIN_MATCH)) as u8] + extra_bytes(
        lits.len() as int,
    ) + lits + bytes::le16(m.dist) + extra_bytes(m.len - MIN_MATCH)
}

/// The token for the literals at the end.
pub open spec fn last_token(lits: Seq<u8>) -> Seq<u8> {
    seq![(half(lits.len() as int) * 16) as u8] + extra_bytes(lits.len() as int) + lits
}

/// The match that is taken at place `i`, and where: a longer one at the next
/// place wins.
pub open spec fn taken_at(d: Seq<u8>, s: Slots, i: int) -> (Match, int) {
    let here = match_at(d, s, i);
    let next = match_at(d, s, i + 1);
    if next.len > here.len {
        (next, i + 1)
    } else {
        (here, i)
    }
}

/// The end of the places that are entered for a match that ends at `end`.
pub open spec fn entry_end(d: Seq<u8>, end: int) -> int {
    if end < d.len() - 3 {
        end
    } else {
        d.len() - 3
    }
}

/// The tokens for the data from `lit` on, when matches are sought from `i` on.
pub open spec fn lz_tokens(d: Seq<u8>, s: Slots, i: int, lit: int) -> Seq<u8>
    decreases
        if i < d.len() {
            d.len() - i
        } else {
            0
        },
{
    if i + MIN_MATCH + 1 < d.len() {
        if match_at(d, s, i).len < MIN_MATCH {
            lz_tokens(d, entered(s, d, i), i + 1, lit)
        } else {
            let (m, at) = taken_at(d, s, i);
            let end = at + m.len;
            seq_token(d.subrange(lit, at), m) + if end > i {
                lz_tokens(d, entered_all(s, d, i, entry_end(d, end)), end, end)
            } else {
                Seq::empty()
            }
        }
    } else if lit == d.len() && lit > 0 {
        Seq::empty()
    } else {
        last_token(d.subrange(lit, d.len() as int))
    }
}

/// Slots without any place.
pub open spec fn no_slots() -> Slots {
    Slots {
        table: Seq::new(HASH_SIZE as nat, |h: int| 0u32),
        chain: Seq::new(HASH_SIZE as nat, |h: int| 0u32),
    }
}

/// The token stream for `d`.
pub open spec fn lz_coded(d: Seq<u8>) -> Seq<u8> {
    lz_tokens(d, no_slots(), 0, 0)
}

/// The payload for `d`: a flag and the packed tokens.
pub open spec fn wire_coded(d: Seq<u8>) -> Seq<u8> {
    if d.len() == 0 {
        seq![FLAG_RAW]
    } else {
        seq![side_fse::packed(lz_coded(d)).0] + side_fse::packed(lz_coded(d)).1
    }
}

/// A length whose first 15 are known and what follows it; nothing if the stream
/// ends within it.
pub open spec fn read_extra(t: Seq<u8>, len: int) -> Option<(Seq<u8>, int)> {
    if len < 15 {
        Some((t, len))
    } else {
        read_long(t, len)
    }
}

/// A length that goes on at the start of `t`.
pub open spec fn read_long(t: Seq<u8>, len: int) -> Option<(Seq<u8>, int)>
    decreases t.len(),
{
    if t.len() == 0 {
        None
    } else if t[0] != 255 {
        Some((t.drop_first(), len + t[0]))
    } else {
        read_long(t.drop_first(), len + 255)
    }
}

/// A corrupt stream, for the given reason.
pub open spec fn bad(msg: Seq<char>) -> Result<Seq<u8>, Fault> {
    Err(Fault::CorruptBlock(msg))
}

/// What the tokens `t` append to `out` until it has `orig` bytes.
pub open spec fn lz_expanded(t: Seq<u8>, out: Seq<u8>, orig: int) -> Result<Seq<u8>, Fault>
    decreases t.len(), 1nat,
{
    if out.len() >= orig {
        Ok(out)
    } else if t.len() == 0 {
        bad("wire: truncated token"@)
    } else {
        match read_extra(t.drop_first(), t[0] as int / 16) {
            None => bad("wire: truncated extra length"@),
            Some((rest, lit)) => if lit > rest.len() {
                bad("wire: truncated literals"@)
            } else if out.len() + lit > orig {
                bad("wire: literal overrun"@)
            } else if out.len() + lit == orig {
                Ok(out + rest.take(lit))
            } else {
                match_expanded(t, rest.skip(lit), out + rest.take(lit), orig)
            },
        }
    }
}

/// What the match part `r` of the tokens `t` and all that follows it append to
/// `out`.
pub open spec fn match_expanded(
    t: Seq<u8>,
    r: Seq<u8>,
    out: Seq<u8>,
    orig: int,
) -> Result<Seq<u8>, Fault>
    decreases t.len(), 0nat,
{
    if r.len() < 2 {
        bad("wire: truncated offset"@)
    } else if bytes::un_le16(r, 0) == 0 {
        bad("wire: zero offset"@)
    } else {
        match read_extra(r.skip(2), t[0] as int % 16) {
            None => bad("wire: truncated extra length"@),
            Some((rest, extra)) => {
                let dist = bytes::un_le16(r, 0);
                let len = extra + MIN_MATCH;
                if dist > out.len() || out.len() + len > orig {
                    bad("wire: bad match"@)
                } else if rest.len() < t.len() {
                    lz_expanded(rest, backref::copied(out, dist, len), orig)
                } else {
                    bad("wire: bad match"@)
                }
            },
        }
    }
}

/// What a payload stands for as a block of `orig` bytes.
pub open spec fn wire_decoded(src: Seq<u8>, orig: int) -> Result<Seq<u8>, Fault> {
    if orig == 0 {
        Ok(Seq::empty())
    } else if src.len() == 0 {
        bad("wire: empty payload"@)
    } else if src[0] != FLAG_RAW && src[0] != FLAG_FSE {
        bad("wire: unknown flag "@ + text::decimal(src[0] as int))
    } else {
        match side_fse::unpacked(src[0], src.drop_first()) {
            None => bad("wire: token entropy"@),
            Some(tokens) => lz_expanded(tokens, Seq::empty(), orig),
        }
    }
}

/// The slots hold earlier places only.
spec fn slots_ok(s: Slots) -> bool {
    s.table.len() == HASH_SIZE && s.chain.len() == HASH_SIZE
}

/// A match that really is one.
spec fn true_match(d: Seq<u8>, i: int, m: Match) -> bool {
    &&& 0 <= m.len <= MAX_MATCH
    &&& m.len > 0 ==> {
        &&& 1 <= m.dist <= WINDOW
        &&& m.dist <= i
        &&& i + m.len <= d.len()
        &&& forall|t: int| 0 <= t < m.len ==> #[trigger] d[i + t] == d[i + t - m.dist]
    }
}

proof fn lemma_agreeing(d: Seq<u8>, a: int, b: int, max: int, k: int)
    requires
        0 <= a < b <= d.len(),
        0 <= k <= max,
        b + max <= d.len(),
        forall|t: int| 0 <= t < k ==> #[trigger] d[b + t] == d[b + t - (b - a)],
    ensures
        k <= agreeing(d, a, b, max, k) <= max,
        forall|t: int|
            0 <= t < agreeing(d, a, b, max, k) ==> #[trigger] d[b + t] == d[b + t - (b - a)],
    decreases max - k,
{
    if k < max && d[a + k] == d[b + k] {
        assert(d[b + k] == d[b + k - (b - a)]);
        lemma_agreeing(d, a, b, max, k + 1);
    }
}

proof fn lemma_improved(d: Seq<u8>, i: int, c: int, best: Match)
    requires
        0 <= c,
        0 <= i <= d.len(),
        true_match(d, i, best),
    ensures
        true_match(d, i, improved(d, i, c, best)),
{
    if c < i {
        lemma_agreeing(d, c, i, match_room(d, i), 0);
    }
}

proof fn lemma_match_at(d: Seq<u8>, s: Slots, i: int)
    requires
        0 <= i <= d.len(),
    ensures
        true_match(d, i, match_at(d, s, i)),
{
    if i + MIN_MATCH <= d.len() {
        let h = slot_at(d, i);
        let none = Match { len: 0, dist: 0 };
        lemma_improved(d, i, s.table[h] as int, none);
        lemma_improved(d, i, s.chain[h] as int, improved(d, i, s.table[h] as int, none));
    }
}

proof fn lemma_long_bytes(len: int, rem: int, rest: Seq<u8>)
    requires
        0 <= rem,
    ensures
        read_long(long_bytes(rem) + rest, len) == Some((rest, len + rem)),
        long_bytes(rem).len() == rem / 255 + 1,
    decreases rem,
{
    let t = long_bytes(rem) + rest;
    if rem >= 255 {
        lemma_long_bytes(len + 255, rem - 255, rest);
        assert(t.drop_first() =~= long_bytes(rem - 255) + rest);
    } else {
        assert(t.drop_first() =~= rest);
    }
}

proof fn lemma_extra_bytes(len: int, rest: Seq<u8>)
    requires
        0 <= len,
    ensures
        read_extra(extra_bytes(len) + rest, half(len)) == Some((rest, len)),
        extra_bytes(len).len() <= len,
        len >= 15 ==> extra_bytes(len).len() == (len - 15) / 255 + 1,
{
    if len >= 15 {
        lemma_long_bytes(15, len - 15, rest);
    } else {
        assert(extra_bytes(len) + rest =~= rest);
    }
}

/// Expanding a token with a match adds its literals and its match.
proof fn lemma_seq_token(d: Seq<u8>, lit: int, at: int, m: Match, rest: Seq<u8>, orig: int)
    requires
        0 <= lit <= at,
        m.len >= MIN_MATCH,
        true_match(d, at, m),
        orig == d.len(),
    ensures
        lz_expanded(seq_token(d.subrange(lit, at), m) + rest, d.take(lit), orig) == lz_expanded(
            rest,
            d.take(at + m.len),
            orig,
        ),
        seq_token(d.subrange(lit, at), m).len() <= 2 * (at + m.len - lit),
{
    let lits = d.subrange(lit, at);
    let t = seq_token(lits, m) + rest;
    let extra = m.len - MIN_MATCH;
    let tail = bytes::le16(m.dist) + extra_bytes(extra) + rest;
    lemma_extra_bytes(lits.len() as int, lits + tail);
    assert(t.drop_first() =~= extra_bytes(lits.len() as int) + (lits + tail));
    let h1 = half(lits.len() as int);
    let h2 = half(extra);
    assert(t[0] as int == h1 * 16 + h2);
    assert(t[0] as int / 16 == h1 && t[0] as int % 16 == h2);
    assert((lits + tail).take(lits.len() as int) =~= lits);
    assert((lits + tail).skip(lits.len() as int) =~= tail);
    assert(d.take(lit) + lits =~= d.take(at));
    lemma_extra_bytes(extra, rest);
    assert(tail.skip(2) =~= extra_bytes(extra) + rest);
    assert(tail.subrange(0, 2) =~= bytes::le16(m.dist));
    bytes::lemma_un_le16(tail, 0, m.dist);
    backref::lemma_copied(d, at, m.dist, m.len);
    assert(seq_token(lits, m).len() == 3 + extra_bytes(lits.len() as int).len() + lits.len()
        + extra_bytes(extra).len());
}

/// Expanding the last token completes the data.
proof fn lemma_last_token(d: Seq<u8>, lit: int)
    requires
        0 <= lit <= d.len(),
    ensures
        lz_expanded(last_token(d.subrange(lit, d.len() as int)), d.take(lit), d.len() as int)
            == Ok::<Seq<u8>, Fault>(d),
        last_token(d.subrange(lit, d.len() as int)).len() <= 2 * (d.len() - lit) + 1,
{
    let n = d.len() as int;
    let lits = d.subrange(lit, n);
    let t = last_token(lits);
    lemma_extra_bytes(lits.len() as int, lits);
    assert(t.drop_first() =~= extra_bytes(lits.len() as int) + lits);
    assert(t[0] as int / 16 == half(lits.len() as int));
    assert(lits.take(lits.len() as int) =~= lits);
    assert(d.take(lit) + lits =~= d);
    assert(d.take(n) =~= d);
}

proof fn lemma_expanded(d: Seq<u8>, s: Slots, i: int, lit: int)
    requires
        0 <= lit <= i,
        lit <= d.len(),
    ensures
        lz_expanded(lz_tokens(d, s, i, lit), d.take(lit), d.len() as int) == Ok::<Seq<u8>, Fault>(
            d,
        ),
        lz_tokens(d, s, i, lit).len() <= 2 * (d.len() - lit) + 1,
    decreases
        if i < d.len() {
            d.len() - i
        } else {
            0
        },
{
    let n = d.len() as int;
    if i + MIN_MATCH + 1 < n {
        lemma_match_at(d, s, i);
        lemma_match_at(d, s, i + 1);
        if match_at(d, s, i).len < MIN_MATCH {
            lemma_expanded(d, entered(s, d, i), i + 1, lit);
        } else {
            let (m, at) = taken_at(d, s, i);
            let end = at + m.len;
            let s2 = entered_all(s, d, i, entry_end(d, end));
            lemma_expanded(d, s2, end, end);
            lemma_seq_token(d, lit, at, m, lz_tokens(d, s2, end, end), n);
        }
    } else if lit == n && lit > 0 {
        assert(d.take(lit) =~= d);
    } else {
        lemma_last_token(d, lit);
    }
}

/// The token stream is at most twice as long as the data, and one byte more.
pub proof fn lemma_lz_len(d: Seq<u8>)
    ensures
        lz_coded(d).len() <= 2 * d.len() + 1,
{
    lemma_expanded(d, no_slots(), 0, 0);
}

/// Decompressing a payload gives the block back.
pub proof fn law_wire_round_trip(d: Seq<u8>)
    requires
        lz_coded(d).len() <= u32::MAX,
    ensures
        wire_decoded(wire_coded(d), d.len() as int) == Ok::<Seq<u8>, Fault>(d),
{
    if d.len() > 0 {
        let s = wire_coded(d);
        let (flag, p) = side_fse::packed(lz_coded(d));
        lemma_expanded(d, no_slots(), 0, 0);
        side_fse::law_side_stream_round_trip(lz_coded(d));
        assert(s.drop_first() =~= p);
        assert(d.take(0) =~= Seq::<u8>::empty());
    } else {
        assert(d =~= Seq::<u8>::empty());
    }
}

/// Whether `len` bytes from place `c` on stand from place `i` on too.
pub open spec fn repeated(d: Seq<u8>, c: int, i: int, len: int) -> bool {
    &&& 0 <= c < i
    &&& i + len <= d.len()
    &&& forall|t: int| i <= t < i + len ==> #[trigger] d[t] == d[t - (i - c)]
}

proof fn lemma_agreeing_reaches(d: Seq<u8>, c: int, i: int, max: int, k: int, len: int)
    requires
        repeated(d, c, i, len),
        0 <= k <= len <= max,
    ensures
        agreeing(d, c, i, max, k) >= len,
    decreases len - k,
{
    if k < len {
        let t = i + k;
        assert(d[t] == d[t - (i - c)]);
        lemma_agreeing_reaches(d, c, i, max, k + 1, len);
    } else {
        lemma_agreeing_grows(d, c, i, max, k);
    }
}

proof fn lemma_agreeing_grows(d: Seq<u8>, c: int, i: int, max: int, k: int)
    ensures
        agreeing(d, c, i, max, k) >= k,
    decreases max - k,
{
    if k < max && d[c + k] == d[i + k] {
        lemma_agreeing_grows(d, c, i, max, k + 1);
    }
}

/// A candidate other than place 0 that lies at most 65535 bytes back and agrees in at
/// least four bytes yields a match at least as long as that agreement, and no
/// candidate makes a match shorter.
pub proof fn law_candidate_is_taken(d: Seq<u8>, i: int, c: int, len: int, best: Match)
    requires
        1 <= c < i,
        i - c <= 65535,
        4 <= len <= 65535,
        repeated(d, c, i, len),
    ensures
        improved(d, i, c, best).len >= len,
        improved(d, i, c, best).len >= best.len,
{
    lemma_agreeing_reaches(d, c, i, match_room(d, i), 0, len);
}

/// Whether the four bytes at two places have one slot: the upper half of their
/// product with the multiplier, modulo two to the power of 32.
pub open spec fn share_slot(d: Seq<u8>, a: int, b: int) -> bool {
    (bytes::un_le32(d, a) * 0x9E3779B1) % 0x1_0000_0000 / 0x1_0000 == (bytes::un_le32(d, b)
        * 0x9E3779B1) % 0x1_0000_0000 / 0x1_0000
}

proof fn lemma_slot_bounds(d: Seq<u8>, i: int)
    requires
        0 <= i,
        i + 4 <= d.len(),
    ensures
        0 <= slot_at(d, i) < HASH_SIZE,
{
}

proof fn lemma_entered_len(s: Slots, d: Seq<u8>, p: int, q: int)
    requires
        slots_ok(s),
    ensures
        slots_ok(entered_all(s, d, p, q)),
    decreases q - p,
{
    if p < q {
        lemma_entered_len(entered(s, d, p), d, p + 1, q);
    }
}

proof fn lemma_entered_last(s: Slots, d: Seq<u8>, p: int, q: int)
    requires
        p <= q,
    ensures
        entered_all(s, d, p, q + 1) == entered(entered_all(s, d, p, q), d, q),
    decreases q - p,
{
    if p < q {
        lemma_entered_last(entered(s, d, p), d, p + 1, q);
    } else {
        assert(entered_all(entered(s, d, p), d, p + 1, q + 1) == entered(s, d, p));
    }
}

/// The latest place of a slot is the one that it knows first.
proof fn lemma_latest_known(d: Seq<u8>, i: int, c: int, k: int)
    requires
        0 <= c < k <= i,
        i + 4 <= d.len() <= u32::MAX,
        share_slot(d, c, i),
        forall|q: int| c < q < k ==> !#[trigger] share_slot(d, q, i),
    ensures
        entered_all(no_slots(), d, 0, k).table[slot_at(d, i)] == c,
    decreases k,
{
    lemma_entered_len(no_slots(), d, 0, k - 1);
    lemma_entered_last(no_slots(), d, 0, k - 1);
    lemma_slot_bounds(d, k - 1);
    lemma_slot_bounds(d, i);
    if c < k - 1 {
        lemma_latest_known(d, i, c, k - 1);
        assert(!share_slot(d, k - 1, i));
    }
}

/// A repeat at most 65535 bytes back is found: where `len` bytes, four to 65535, from
/// place `c` on stand from place `i` on too, and no place between them has the same
/// slot, the match at `i` is at least that long, once all places before `i` are
/// entered.
pub proof fn law_repeat_is_found(d: Seq<u8>, i: int, c: int, len: int)
    requires
        1 <= c,
        i - c <= 65535,
        4 <= len <= 65535,
        d.len() <= u32::MAX,
        repeated(d, c, i, len),
        forall|q: int| c < q < i ==> !#[trigger] share_slot(d, q, i),
    ensures
        match_at(d, entered_all(no_slots(), d, 0, i), i).len >= len,
{
    let t = i;
    assert(d[i] == d[i - (i - c)] && d[i + 1] == d[i + 1 - (i - c)] && d[i + 2] == d[i + 2 - (i
        - c)] && d[i + 3] == d[i + 3 - (i - c)]);
    assert(bytes::un_le32(d, c) == bytes::un_le32(d, i));
    lemma_latest_known(d, i, c, i);
    let s = entered_all(no_slots(), d, 0, i);
    let h = slot_at(d, i);
    let none = Match { len: 0, dist: 0 };
    let first = improved(d, i, c, none);
    law_candidate_is_taken(d, i, c, len, none);
    assert(improved(d, i, s.chain[h] as int, first).len >= first.len);
}

proof fn lemma_extra_len(len: int)
    requires
        0 <= len,
    ensures
        extra_bytes(len).len() <= len / 255 + 1,
{
    lemma_extra_bytes(len, Seq::empty());
}

/// A slot knows its last two places: the match at `i` is at least as long as what
/// repeats either of them, up to 65535 bytes back.
pub proof fn law_two_places_are_tried(d: Seq<u8>, s: Slots, a: int, b: int, i: int, len: int)
    requires
        s.table.len() == 65536,
        s.chain.len() == 65536,
        0 < a < b < i,
        i - a <= 65535,
        i + len <= d.len() <= u32::MAX,
        4 <= len <= 65535,
        share_slot(d, a, i),
        share_slot(d, b, i),
        repeated(d, a, i, len) || repeated(d, b, i, len),
    ensures
        match_at(d, entered(entered(s, d, a), d, b), i).len >= len,
{
    let t = entered(entered(s, d, a), d, b);
    let h = slot_at(d, i);
    lemma_slot_bounds(d, i);
    lemma_slot_bounds(d, a);
    lemma_slot_bounds(d, b);
    assert(t.table[h] == b && t.chain[h] == a);
    let none = Match { len: 0, dist: 0 };
    let first = improved(d, i, b, none);
    if repeated(d, b, i, len) {
        law_candidate_is_taken(d, i, b, len, none);
    }
    if repeated(d, a, i, len) {
        law_candidate_is_taken(d, i, a, len, first);
    } else {
        assert(improved(d, i, a, first).len >= first.len);
    }
}

/// A match waits for a longer one at the next place: the first token has the longer of
/// the two matches, and the byte between as a literal where it is the later one.
pub proof fn law_longer_match_wins(d: Seq<u8>, s: Slots, i: int, lit: int)
    requires
        0 <= lit <= i,
        i + 5 < d.len(),
        match_at(d, s, i).len >= 4,
    ensures
        ({
            let here = match_at(d, s, i).len;
            let next = match_at(d, s, i + 1).len;
            let len = if next > here {
                next
            } else {
                here
            };
            let n = if next > here {
                i + 1 - lit
            } else {
                i - lit
            };
            lz_tokens(d, s, i, lit)[0] == ((if n < 15 {
                n
            } else {
                15
            }) * 16 + if len - 4 < 15 {
                len - 4
            } else {
                15
            }) as u8
        }),
{
}

proof fn lemma_entered_on(s: Slots, d: Seq<u8>, p: int, q: int, r: int)
    requires
        p <= q <= r,
    ensures
        entered_all(entered_all(s, d, p, q), d, q, r) == entered_all(s, d, p, r),
    decreases q - p,
{
    if p < q {
        lemma_entered_on(entered(s, d, p), d, p + 1, q, r);
    }
}

proof fn lemma_end_not_entered(s: Slots, d: Seq<u8>, p: int, q: int)
    requires
        p + 4 > d.len(),
    ensures
        entered_all(s, d, p, q) == s,
    decreases q - p,
{
    if p < q {
        lemma_end_not_entered(s, d, p + 1, q);
    }
}

proof fn lemma_slots_behind(d: Seq<u8>, i: int, end: int)
    requires
        0 <= i <= end,
        i + 5 < d.len(),
    ensures
        entered_all(entered_all(no_slots(), d, 0, i), d, i, entry_end(d, end)) == entered_all(
            no_slots(),
            d,
            0,
            end,
        ),
{
    let stop = entry_end(d, end);
    lemma_entered_on(no_slots(), d, 0, i, stop);
    if stop < end {
        lemma_entered_on(no_slots(), d, 0, stop, end);
        lemma_end_not_entered(entered_all(no_slots(), d, 0, stop), d, stop, end);
    }
}

/// A place that a literal covers is entered before it is passed: where all places
/// before `i` are, all before the next one are.
pub proof fn law_literal_place_is_entered(d: Seq<u8>, i: int, lit: int)
    requires
        0 <= lit <= i,
        i + 5 < d.len(),
        match_at(d, entered_all(no_slots(), d, 0, i), i).len < 4,
    ensures
        lz_tokens(d, entered_all(no_slots(), d, 0, i), i, lit) == lz_tokens(
            d,
            entered_all(no_slots(), d, 0, i + 1),
            i + 1,
            lit,
        ),
{
    let s = entered_all(no_slots(), d, 0, i);
    lemma_entered_on(no_slots(), d, 0, i, i + 1);
    assert(entered_all(entered(s, d, i), d, i + 1, i + 1) == entered(s, d, i));
    assert(entered_all(s, d, i, i + 1) == entered(s, d, i));
}

/// The places that a match covers are entered too: where all places before `i` are,
/// the tokens behind the match at `i`, or the longer one at the next place, are those
/// with all places before its end entered.
pub proof fn law_covered_places_are_entered(d: Seq<u8>, i: int, lit: int) -> (token: Seq<u8>)
    requires
        0 <= lit <= i,
        i + 5 < d.len(),
        match_at(d, entered_all(no_slots(), d, 0, i), i).len >= 4,
    ensures
        ({
            let s = entered_all(no_slots(), d, 0, i);
            let m = match_at(d, s, i);
            let next = match_at(d, s, i + 1);
            let end = if next.len > m.len {
                i + 1 + next.len
            } else {
                i + m.len
            };
            lz_tokens(d, s, i, lit) == token + lz_tokens(
                d,
                entered_all(no_slots(), d, 0, end),
                end,
                end,
            )
        }),
{
    let s = entered_all(no_slots(), d, 0, i);
    let (m, at) = taken_at(d, s, i);
    let end = at + m.len;
    lemma_slots_behind(d, i, end);
    seq_token(d.subrange(lit, at), m)
}

/// A payload is a flag and the tokens, packed where that is shorter.
pub proof fn law_payload(d: Seq<u8>)
    requires
        d.len() > 0,
    ensures
        wire_coded(d).len() <= 1 + lz_coded(d).len(),
        wire_coded(d)[0] == 0 ==> wire_coded(d).drop_first() == lz_coded(d),
        wire_coded(d)[0] == 0 || wire_coded(d)[0] == 1,
{
    assert(wire_coded(d).drop_first() =~= side_fse::packed(lz_coded(d)).1);
}

/// A match saves what it covers: where the match at place `i` has `len` bytes, the
/// tokens from the literals at `lit` on take, besides the literals, a few bytes and
/// one for each 255 of a length, and at most twice what lies behind the match.
pub proof fn law_match_is_coded(d: Seq<u8>, s: Slots, i: int, lit: int)
    requires
        0 <= lit <= i,
        i + 5 < d.len(),
        match_at(d, s, i).len >= 4,
    ensures
        lz_tokens(d, s, i, lit).len() <= (i - lit) + (i - lit) / 255 + match_at(d, s, i).len / 255
            + 7 + 2 * (d.len() - i - match_at(d, s, i).len),
{
    lemma_match_at(d, s, i);
    lemma_match_at(d, s, i + 1);
    let here = match_at(d, s, i).len;
    let (m, at) = taken_at(d, s, i);
    let end = at + m.len;
    let s2 = entered_all(s, d, i, entry_end(d, end));
    let lits = d.subrange(lit, at);
    let rest = lz_tokens(d, s2, end, end);
    assert(rest.len() <= 2 * (d.len() - end) + 1) by {
        lemma_expanded(d, s2, end, end);
    }
    lemma_extra_len(at - lit);
    lemma_extra_len(m.len - MIN_MATCH);
    assert(lits.len() == at - lit);
    let token = seq_token(lits, m);
    assert(token.len() == 3 + extra_bytes(at - lit).len() + (at - lit) + extra_bytes(
        m.len - MIN_MATCH,
    ).len());
    assert(lz_tokens(d, s, i, lit) == token + rest);
    lemma_saved(i - lit, here, at - i, m.len, d.len() - i);
}

proof fn lemma_saved(lits: int, here: int, late: int, len: int, room: int)
    requires
        0 <= lits,
        4 <= here,
        late == 0 && len == here || late == 1 && len > here,
    ensures
        3 + ((lits + late) / 255 + 1) + (lits + late) + ((len - 4) / 255 + 1) + 2 * (room - late
            - len) + 1 <= lits + lits / 255 + here / 255 + 7 + 2 * (room - here),
{
    assert((lits + late) / 255 <= lits / 255 + 1);
    assert((len - 4) / 255 <= len / 255);
    if late == 1 {
        let more = len - here;
        assert(len / 255 <= here / 255 + more / 255 + 1);
        assert(more / 255 <= more - 1);
    }
}

/// The first repeat is coded: where no place before `i` has the slot of an earlier one
/// but place 0, and `len` bytes at `i` repeat those at `c`, all before `i` is coded
/// as literals, and the repeat takes a few bytes and one for each 255.
pub proof fn law_first_repeat_is_coded(d: Seq<u8>, i: int, c: int, len: int)
    requires
        1 <= c,
        i - c <= 65535,
        4 <= len <= 65535,
        d.len() <= u32::MAX,
        i + 5 < d.len(),
        repeated(d, c, i, len),
        forall|q: int| c < q < i ==> !#[trigger] share_slot(d, q, i),
        forall|a: int, b: int| 1 <= a < b < i ==> !#[trigger] share_slot(d, a, b),
    ensures
        lz_coded(d).len() <= i + i / 255 + len / 255 + 7 + 2 * (d.len() - i - len),
{
    lemma_literals_first(d, i, 0);
    law_repeat_is_found(d, i, c, len);
    let s = entered_all(no_slots(), d, 0, i);
    lemma_match_at(d, s, i);
    law_match_is_coded(d, s, i, 0);
    let here = match_at(d, s, i).len;
    assert(here / 255 <= len / 255 + (here - len) / 255 + 1);
}

proof fn lemma_no_place(d: Seq<u8>, i: int, k: int)
    requires
        0 <= k <= i,
        i + 4 <= d.len() <= u32::MAX,
        forall|q: int| 1 <= q < k ==> !#[trigger] share_slot(d, q, i),
    ensures
        entered_all(no_slots(), d, 0, k).table[slot_at(d, i)] == 0,
        entered_all(no_slots(), d, 0, k).chain[slot_at(d, i)] == 0,
    decreases k,
{
    lemma_slot_bounds(d, i);
    if k > 0 {
        lemma_no_place(d, i, k - 1);
        lemma_entered_len(no_slots(), d, 0, k - 1);
        lemma_entered_last(no_slots(), d, 0, k - 1);
        lemma_slot_bounds(d, k - 1);
        if k > 1 {
            assert(!share_slot(d, k - 1, i));
        }
    }
}

proof fn lemma_literals_first(d: Seq<u8>, i: int, k: int)
    requires
        0 <= k <= i,
        i + 5 < d.len() <= u32::MAX,
        forall|a: int, b: int| 1 <= a < b < i ==> !#[trigger] share_slot(d, a, b),
    ensures
        lz_tokens(d, entered_all(no_slots(), d, 0, k), k, 0) == lz_tokens(
            d,
            entered_all(no_slots(), d, 0, i),
            i,
            0,
        ),
    decreases i - k,
{
    if k < i {
        let s = entered_all(no_slots(), d, 0, k);
        lemma_no_place(d, k, k);
        lemma_entered_last(no_slots(), d, 0, k);
        lemma_literals_first(d, i, k + 1);
    }
}

/// Hashes the four bytes at `i`.
fn hash4(data: &[u8], i: usize) -> (h: usize)
    requires
        i + 4 <= data@.len(),
    ensures
        h == slot_at(data@, i as int),
        h < HASH_SIZE,
{
    let v: u64 = bytes::get_u32(data, i) as u64;
    proof {
        assert(v * 0x9E3779B1 <= 4294967295 * 0x9E3779B1) by (nonlinear_arith)
            requires
                v <= 4294967295,
        ;
    }
    ((v * 0x9E3779B1u64) % 4294967296 / 65536) as usize
}

/// Counts how many bytes from `a` on agree with those from `b` on.
fn match_len(data: &[u8], a: usize, b: usize, max: usize) -> (n: usize)
    requires
        a <= b,
        b + max <= data@.len(),
    ensures
        n == agreeing(data@, a as int, b as int, max as int, 0),
        n <= max,
{
    let mut n: usize = 0;
    while n < max && data[a + n] == data[b + n]
        invariant
            n <= max,
            a <= b,
            b + max <= data.len(),
            agreeing(data@, a as int, b as int, max as int, 0) == agreeing(
                data@,
                a as int,
                b as int,
                max as int,
                n as int,
            ),
        decreases max - n,
    {
        n = n + 1;
    }
    n
}

/// The slots as the encoder keeps them.
struct SlotTable {
    table: Vec<u32>,
    chain: Vec<u32>,
}

impl View for SlotTable {
    type V = Slots;

    closed spec fn view(&self) -> Slots {
        Slots { table: self.table@, chain: self.chain@ }
    }
}

impl SlotTable {
    fn new() -> (t: Self)
        ensures
            t@ == no_slots(),
            slots_ok(t@),
    {
        let t = Self { table: vec![0u32; HASH_SIZE], chain: vec![0u32; HASH_SIZE] };
        assert(t@ =~= no_slots());
        t
    }

    fn insert(&mut self, data: &[u8], i: usize)
        requires
            slots_ok(old(self)@),
            i + MIN_MATCH <= data@.len() <= u32::MAX,
        ensures
            slots_ok(final(self)@),
            final(self)@ == entered(old(self)@, data@, i as int),
    {
        let h: usize = hash4(data, i);
        self.chain[h] = self.table[h];
        self.table[h] = i as u32;
    }

    fn find_match(&self, data: &[u8], i: usize) -> (r: (usize, usize))
        requires
            slots_ok(self@),
            i <= data@.len(),
        ensures
            r.0 == match_at(data@, self@, i as int).len,
            r.1 == match_at(data@, self@, i as int).dist,
            true_match(data@, i as int, match_at(data@, self@, i as int)),
    {
        proof {
            lemma_match_at(data@, self@, i as int);
        }
        if data.len() - i < MIN_MATCH {
            return (0, 0);
        }
        let h: usize = hash4(data, i);
        let first = consider(data, i, self.table[h], (0, 0));
        consider(data, i, self.chain[h], first)
    }
}

/// Takes the match with candidate `cand` where it is longer than `best`.
fn consider(data: &[u8], i: usize, cand: u32, best: (usize, usize)) -> (r: (usize, usize))
    requires
        i <= data@.len(),
    ensures
        (Match { len: r.0 as int, dist: r.1 as int }) == improved(
            data@,
            i as int,
            cand as int,
            Match { len: best.0 as int, dist: best.1 as int },
        ),
{
    let j: usize = cand as usize;
    if j == 0 || j >= i || i - j > WINDOW {
        return best;
    }
    let room: usize = data.len() - i;
    let max: usize = if room < MAX_MATCH {
        room
    } else {
        MAX_MATCH
    };
    let len: usize = match_len(data, j, i, max);
    if len >= MIN_MATCH && len > best.0 {
        (len, i - j)
    } else {
        best
    }
}

fn write_extra_len(out: &mut Vec<u8>, len: usize)
    ensures
        final(out)@ == old(out)@ + extra_bytes(len as int),
{
    let ghost before = out@;
    if len < 15 {
        assert(out@ =~= before + extra_bytes(len as int));
        return ;
    }
    let mut rem: usize = len - 15;
    let ghost goal = before + extra_bytes(len as int);
    while rem >= 255
        invariant
            out@ + long_bytes(rem as int) =~= goal,
        decreases rem,
    {
        let ghost mid = out@;
        out.push(255);
        rem = rem - 255;
        assert(out@ + long_bytes(rem as int) =~= mid + long_bytes(rem + 255));
    }
    out.push(rem as u8);
    assert(out@ =~= goal);
}

fn half_len(len: usize) -> (h: u8)
    ensures
        h == half(len as int),
        h <= 15,
{
    if len < 15 {
        len as u8
    } else {
        15
    }
}

fn emit_seq(out: &mut Vec<u8>, lits: &[u8], offset: u16, len: usize)
    requires
        len >= MIN_MATCH,
    ensures
        final(out)@ == old(out)@ + seq_token(
            lits@,
            Match { len: len as int, dist: offset as int },
        ),
{
    let ghost before = out@;
    let extra: usize = len - MIN_MATCH;
    out.push(half_len(lits.len()) * 16 + half_len(extra));
    write_extra_len(out, lits.len());
    bytes::push_slice(out, lits);
    bytes::push_u16(out, offset);
    write_extra_len(out, extra);
    assert(out@ =~= before + seq_token(lits@, Match { len: len as int, dist: offset as int }));
}

fn emit_literals(out: &mut Vec<u8>, lits: &[u8])
    ensures
        final(out)@ == old(out)@ + last_token(lits@),
{
    let ghost before = out@;
    out.push(half_len(lits.len()) * 16);
    write_extra_len(out, lits.len());
    bytes::push_slice(out, lits);
    assert(out@ =~= before + last_token(lits@));
}

/// Turns `data` into LZ tokens.
pub fn lz_encode(data: &[u8]) -> (out: Vec<u8>)
    requires
        data@.len() <= u32::MAX,
    ensures
        out@ == lz_coded(data@),
{
    let ghost d = data@;
    let n: usize = data.len();
    let mut out: Vec<u8> = Vec::new();
    let mut slots = SlotTable::new();
    let mut lit: usize = 0;
    let mut i: usize = 0;
    assert(out@ + lz_tokens(d, slots@, 0, 0) =~= lz_coded(d));
    while i < n && n - i > MIN_MATCH + 1
        invariant
            d == data@,
            n == d.len(),
            n <= u32::MAX,
            slots_ok(slots@),
            lit <= i,
            lit <= n,
            out@ + lz_tokens(d, slots@, i as int, lit as int) =~= lz_coded(d),
        decreases
            if i < n {
                n - i
            } else {
                0
            },
    {
        let ghost before = out@;
        let ghost s = slots@;
        let ghost rest = lz_tokens(d, s, i as int, lit as int);
        let (best_len, best_off) = slots.find_match(data, i);
        if best_len < MIN_MATCH {
            slots.insert(data, i);
            i = i + 1;
        } else {
            let (lazy_len, lazy_off) = slots.find_match(data, i + 1);
            let (len, off, at) = if lazy_len > best_len {
                (lazy_len, lazy_off, i + 1)
            } else {
                (best_len, best_off, i)
            };
            let ghost (m, place) = taken_at(d, s, i as int);
            assert(m.len == len && m.dist == off && place == at);
            emit_seq(&mut out, vstd::slice::slice_subrange(data, lit, at), off as u16, len);
            let end: usize = at + len;
            let stop: usize = if end < n - 3 {
                end
            } else {
                n - 3
            };
            let ghost goal = entered_all(s, d, i as int, stop as int);
            let mut p: usize = i;
            while p < stop
                invariant
                    d == data@,
                    n == d.len(),
                    p <= stop <= n - 3,
                    3 <= n <= u32::MAX,
                    slots_ok(slots@),
                    goal == entered_all(slots@, d, p as int, stop as int),
                decreases stop - p,
            {
                slots.insert(data, p);
                p = p + 1;
            }
            assert(slots@ == goal);
            lit = end;
            i = end;
            assert(out@ + lz_tokens(d, slots@, i as int, lit as int) =~= before + rest);
        }
    }
    if lit == n && lit > 0 {
        return out;
    }
    emit_literals(&mut out, vstd::slice::slice_subrange(data, lit, n));
    out
}

/// Continues a length of 15 or more. The length saturates where it does not fit.
fn read_extra_len(src: &[u8], p: usize, len: usize) -> (r: Option<(usize, usize)>)
    requires
        p <= src@.len(),
        len <= 15,
    ensures
        r is Some <==> read_extra(src@.skip(p as int), len as int) is Some,
        r matches Some((q, l)) ==> {
            &&& p <= q <= src@.len()
            &&& len < 15 ==> q == p && l == len
            &&& read_extra(src@.skip(p as int), len as int).unwrap().0 == src@.skip(q as int)
            &&& l == usize::MAX || l == read_extra(src@.skip(p as int), len as int).unwrap().1
            &&& l <= read_extra(src@.skip(p as int), len as int).unwrap().1
        },
{
    if len < 15 {
        return Some((p, len));
    }
    let ghost goal = read_extra(src@.skip(p as int), len as int);
    let ghost mut total: int = len as int;
    let mut l: usize = len;
    let mut q: usize = p;
    while q < src.len()
        invariant
            p <= q <= src@.len(),
            len == 15,
            goal == read_extra(src@.skip(p as int), len as int),
            goal == read_long(src@.skip(q as int), total),
            l == usize::MAX || l == total,
            l <= total,
        decreases src@.len() - q,
    {
        let b: u8 = src[q];
        assert(src@.skip(q as int)[0] == b);
        assert(src@.skip(q as int).drop_first() =~= src@.skip(q + 1));
        q = q + 1;
        l = if l <= usize::MAX - b as usize {
            l + b as usize
        } else {
            usize::MAX
        };
        proof {
            total = total + b;
        }
        if b != 255 {
            return Some((q, l));
        }
    }
    assert(src@.skip(q as int).len() == 0);
    None
}

/// Reads the literals of the token at `p`; returns the place behind them.
fn take_literals(src: &[u8], p: usize, out: &mut Vec<u8>, orig_len: usize) -> (r: Result<
    usize,
    RcnError,
>)
    requires
        p < src@.len(),
        old(out)@.len() < orig_len,
    ensures
        r matches Ok(q) ==> {
            &&& p < q <= src@.len()
            &&& old(out)@.len() <= final(out)@.len() <= orig_len
            &&& lz_expanded(src@.skip(p as int), old(out)@, orig_len as int) == if final(out)@.len()
                == orig_len {
                Ok(final(out)@)
            } else {
                match_expanded(
                    src@.skip(p as int),
                    src@.skip(q as int),
                    final(out)@,
                    orig_len as int,
                )
            }
        },
        r matches Err(e) ==> lz_expanded(src@.skip(p as int), old(out)@, orig_len as int) == Err::<
            Seq<u8>,
            Fault,
        >(e@),
{
    let ghost t = src@.skip(p as int);
    let ghost before = out@;
    let token: u8 = src[p];
    assert(t[0] == token);
    assert(t.drop_first() =~= src@.skip(p + 1));
    let (q, lit) = match read_extra_len(src, p + 1, (token / 16) as usize) {
        Some(x) => x,
        None => return Err(error::corrupt("wire: truncated extra length")),
    };
    if lit > src.len() - q {
        return Err(error::corrupt("wire: truncated literals"));
    }
    if lit > orig_len - out.len() {
        return Err(error::corrupt("wire: literal overrun"));
    }
    let ghost rest = src@.skip(q as int);
    bytes::push_slice(out, vstd::slice::slice_subrange(src, q, q + lit));
    assert(src@.subrange(q as int, q + lit) =~= rest.take(lit as int));
    assert(rest.skip(lit as int) =~= src@.skip(q + lit));
    Ok(q + lit)
}

/// Reads the match of the token at `p`, whose offset stands at `q`; returns the
/// place behind it.
fn take_match(src: &[u8], p: usize, q: usize, out: &mut Vec<u8>, orig_len: usize) -> (r: Result<
    usize,
    RcnError,
>)
    requires
        p < q <= src@.len(),
        old(out)@.len() < orig_len,
    ensures
        r matches Ok(next) ==> {
            &&& q < next <= src@.len()
            &&& final(out)@.len() <= orig_len
            &&& match_expanded(
                src@.skip(p as int),
                src@.skip(q as int),
                old(out)@,
                orig_len as int,
            ) == lz_expanded(src@.skip(next as int), final(out)@, orig_len as int)
        },
        r matches Err(e) ==> match_expanded(
            src@.skip(p as int),
            src@.skip(q as int),
            old(out)@,
            orig_len as int,
        ) == Err::<Seq<u8>, Fault>(e@),
{
    let ghost t = src@.skip(p as int);
    let ghost r = src@.skip(q as int);
    let token: u8 = src[p];
    assert(t[0] == token);
    if src.len() - q < 2 {
        return Err(error::corrupt("wire: truncated offset"));
    }
    let offset: usize = bytes::get_u16(src, q) as usize;
    assert(r[0] == src@[q as int] && r[1] == src@[q + 1]);
    if offset == 0 {
        return Err(error::corrupt("wire: zero offset"));
    }
    assert(r.skip(2) =~= src@.skip(q + 2));
    let (next, extra) = match read_extra_len(src, q + 2, (token % 16) as usize) {
        Some(x) => x,
        None => return Err(error::corrupt("wire: truncated extra length")),
    };
    let room: usize = orig_len - out.len();
    if offset > out.len() || extra > room || room - extra < MIN_MATCH {
        return Err(error::corrupt("wire: bad match"));
    }
    backref::copy_back(out, offset, extra + MIN_MATCH);
    Ok(next)
}

/// Expands LZ tokens to `orig_len` bytes.
pub fn lz_decode(src: &[u8], orig_len: usize) -> (r: Result<Vec<u8>, RcnError>)
    ensures
        error::outcome(r) == lz_expanded(src@, Seq::empty(), orig_len as int),
{
    let ghost goal = lz_expanded(src@, Seq::empty(), orig_len as int);
    let mut out: Vec<u8> = Vec::new();
    let mut p: usize = 0;
    assert(src@.skip(0) =~= src@);
    while out.len() < orig_len
        invariant
            p <= src@.len(),
            out@.len() <= orig_len,
            goal == lz_expanded(src@, Seq::empty(), orig_len as int),
            goal == lz_expanded(src@.skip(p as int), out@, orig_len as int),
        decreases src@.len() - p, orig_len - out@.len(),
    {
        if p >= src.len() {
            return Err(error::corrupt("wire: truncated token"));
        }
        match take_literals(src, p, &mut out, orig_len) {
            Err(e) => return Err(e),
            Ok(q) => {
                if out.len() == orig_len {
                    return Ok(out);
                }
                match take_match(src, p, q, &mut out, orig_len) {
                    Err(e) => return Err(e),
                    Ok(next) => {
                        p = next;
                    },
                }
            },
        }
    }
    Ok(out)
}

/// Compresses `data` to a payload.
pub fn compress(data: &[u8]) -> (out: Vec<u8>)
    requires
        data@.len() <= u32::MAX,
        lz_coded(data@).len() <= u32::MAX,
    ensures
        out@ == wire_coded(data@),
{
    let mut out: Vec<u8> = Vec::new();
    if data.len() == 0 {
        out.push(FLAG_RAW);
        assert(out@ =~= seq![FLAG_RAW]);
        return out;
    }
    let tokens: Vec<u8> = lz_encode(data);
    let (flag, packed) = side_fse::pack_side_stream(tokens.as_slice());
    out.push(flag);
    bytes::push_slice(&mut out, packed.as_slice());
    assert(out@ =~= wire_coded(data@));
    out
}

/// Inverse of `compress`. `orig_len` is the original block length.
pub fn decompress(src: &[u8], orig_len: usize) -> (r: Result<Vec<u8>, RcnError>)
    ensures
        error::outcome(r) == wire_decoded(src@, orig_len as int),
{
    if orig_len == 0 {
        return Ok(Vec::new());
    }
    if src.len() == 0 {
        return Err(error::corrupt("wire: empty payload"));
    }
    let flag: u8 = src[0];
    if flag != FLAG_RAW && flag != FLAG_FSE {
        let mut msg = String::from_str("wire: unknown flag ");
        text::push_decimal(&mut msg, flag as u64);
        return Err(RcnError::corrupt_block(msg));
    }
    let body: &[u8] = vstd::slice::slice_subrange(src, 1, src.len());
    assert(body@ =~= src@.drop_first());
    match side_fse::unpack_side_stream(flag, body) {
        Ok(tokens) => lz_decode(tokens.as_slice(), orig_len),
        Err(_) => Err(error::corrupt("wire: token entropy")),
    }
}

} // verus!
