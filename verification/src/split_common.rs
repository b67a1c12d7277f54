//! Shared framing helpers for the JSON/CSV/XML stream splitters.
//!
//! A marked split routes a text into a structural stream and several content
//! channels. The structural stream holds single bytes and fragment markers:
//! `0xFE`, a four-byte little-endian length and the channel's identifier.

use crate::bytes;
use crate::text;
use vstd::prelude::*;
use vstd::string::*;

verus! {

/// Prefix byte that marks a length-prefixed fragment in a structural stream.
pub const MARK_PREFIX: u8 = 0xFE;

/// Sample window of the `looks_like_*` heuristics.
pub const LOOKS_LIKE_SAMPLE: usize = 8192;

/// A part of a split text: a byte that stays in the structural stream, or a
/// fragment that goes to the channel with the given number.
pub enum Piece {
    Raw(u8),
    Frag(int, Seq<u8>),
}

/// What a piece leaves in the structural stream.
pub open spec fn mark_of(p: Piece, ids: Seq<u8>) -> Seq<u8> {
    match p {
        Piece::Raw(b) => seq![b],
        Piece::Frag(c, s) => seq![MARK_PREFIX] + bytes::le32(s.len() as int) + seq![ids[c]],
    }
}

/// What a piece adds to channel `c`.
pub open spec fn content_of(p: Piece, c: int) -> Seq<u8> {
    match p {
        Piece::Raw(b) => Seq::empty(),
        Piece::Frag(k, s) => if k == c {
            s
        } else {
            Seq::empty()
        },
    }
}

/// The text of a piece.
pub open spec fn text_of(p: Piece) -> Seq<u8> {
    match p {
        Piece::Raw(b) => seq![b],
        Piece::Frag(c, s) => s,
    }
}

/// The structural stream of a split text.
pub open spec fn marks(ps: Seq<Piece>, ids: Seq<u8>) -> Seq<u8>
    decreases ps.len(),
{
    if ps.len() == 0 {
        Seq::empty()
    } else {
        mark_of(ps[0], ids) + marks(ps.drop_first(), ids)
    }
}

/// The content of channel `c` of a split text.
pub open spec fn content(ps: Seq<Piece>, c: int) -> Seq<u8>
    decreases ps.len(),
{
    if ps.len() == 0 {
        Seq::empty()
    } else {
        content_of(ps[0], c) + content(ps.drop_first(), c)
    }
}

/// The text that was split.
pub open spec fn plain(ps: Seq<Piece>) -> Seq<u8>
    decreases ps.len(),
{
    if ps.len() == 0 {
        Seq::empty()
    } else {
        text_of(ps[0]) + plain(ps.drop_first())
    }
}

/// Every fragment goes to one of `n` channels and its length fits its marker.
pub open spec fn pieces_ok(ps: Seq<Piece>, n: int) -> bool {
    forall|i: int|
        0 <= i < ps.len() ==> (#[trigger] ps[i] matches Piece::Frag(c, s) ==> 0 <= c < n && s.len()
            <= u32::MAX)
}

/// No byte of the structural stream looks like a marker.
pub open spec fn raws_ok(ps: Seq<Piece>) -> bool {
    forall|i: int| 0 <= i < ps.len() ==> (#[trigger] ps[i] matches Piece::Raw(b) ==> b
        != MARK_PREFIX)
}

/// Every piece leaves at most six bytes in the structural stream, and the
/// channels hold no more than the text.
pub proof fn lemma_sizes(ps: Seq<Piece>, ids: Seq<u8>, c: int)
    ensures
        marks(ps, ids).len() <= 6 * ps.len(),
        content(ps, c).len() <= plain(ps).len(),
    decreases ps.len(),
{
    if ps.len() > 0 {
        lemma_sizes(ps.drop_first(), ids, c);
    }
}

/// The streams of a split text and of what follows it.
pub proof fn lemma_append(a: Seq<Piece>, b: Seq<Piece>, ids: Seq<u8>)
    ensures
        marks(a + b, ids) == marks(a, ids) + marks(b, ids),
        forall|c: int| #[trigger] content(a + b, c) == content(a, c) + content(b, c),
        plain(a + b) == plain(a) + plain(b),
    decreases a.len(),
{
    if a.len() == 0 {
        assert(a + b =~= b);
        assert(marks(a, ids) + marks(b, ids) =~= marks(b, ids));
        assert(plain(a) + plain(b) =~= plain(b));
        assert forall|c: int| #[trigger] content(a + b, c) == content(a, c) + content(b, c) by {
            assert(content(a, c) + content(b, c) =~= content(b, c));
        }
    } else {
        lemma_append(a.drop_first(), b, ids);
        assert((a + b).drop_first() =~= a.drop_first() + b);
        assert((a + b)[0] == a[0]);
        assert(marks(a + b, ids) =~= marks(a, ids) + marks(b, ids));
        assert(plain(a + b) =~= plain(a) + plain(b));
        assert forall|c: int| #[trigger] content(a + b, c) == content(a, c) + content(b, c) by {
            assert(content(a.drop_first() + b, c) == content(a.drop_first(), c) + content(b, c));
            assert(content(a + b, c) =~= content(a, c) + content(b, c));
        }
    }
}

/// Pieces that are valid in two lists are valid in both together.
pub proof fn lemma_pieces_ok_append(a: Seq<Piece>, b: Seq<Piece>, n: int)
    requires
        pieces_ok(a, n),
        pieces_ok(b, n),
    ensures
        pieces_ok(a + b, n),
{
    let all = a + b;
    assert forall|i: int| 0 <= i < all.len() implies (#[trigger] all[i] matches Piece::Frag(
        c,
        s,
    ) ==> 0 <= c < n && s.len() <= u32::MAX) by {
        if i < a.len() {
            assert(all[i] == a[i]);
        } else {
            assert(all[i] == b[i - a.len()]);
        }
    }
}

/// Structural bytes that are no markers in two lists are none in both together.
pub proof fn lemma_raws_ok_append(a: Seq<Piece>, b: Seq<Piece>)
    requires
        raws_ok(a),
        raws_ok(b),
    ensures
        raws_ok(a + b),
{
    let all = a + b;
    assert forall|i: int| 0 <= i < all.len() implies (#[trigger] all[i] matches Piece::Raw(
        x,
    ) ==> x != MARK_PREFIX) by {
        if i < a.len() {
            assert(all[i] == a[i]);
        } else {
            assert(all[i] == b[i - a.len()]);
        }
    }
}

/// Why the streams of a split text could not be merged.
pub enum MarkFault {
    /// A marker at this offset is cut short.
    Truncated(int),
    /// A marker before this offset names an unknown channel.
    Unknown(u8, int),
    /// A channel has fewer bytes than a marker asks for: channel, position,
    /// length.
    Exhausted(int, int, int),
}

/// The number of the channel with identifier `id`; the number of channels if
/// there is none.
pub open spec fn channel_of(ids: Seq<u8>, id: u8) -> int
    decreases ids.len(),
{
    if ids.len() == 0 || ids[0] == id {
        0
    } else {
        1 + channel_of(ids.drop_first(), id)
    }
}

/// What merging appends to `out` from offset `si` of the structural stream on;
/// `at` has the positions in the channels.
pub open spec fn merged(
    s: Seq<u8>,
    ids: Seq<u8>,
    channels: Seq<Seq<u8>>,
    si: int,
    at: Seq<int>,
    out: Seq<u8>,
) -> Result<Seq<u8>, MarkFault>
    decreases s.len() - si,
{
    if si < 0 || si >= s.len() {
        Ok(out)
    } else if s[si] != MARK_PREFIX {
        merged(s, ids, channels, si + 1, at, out.push(s[si]))
    } else if si + 5 >= s.len() {
        Err(MarkFault::Truncated(si))
    } else {
        let len = bytes::un_le32(s, si + 1);
        let c = channel_of(ids, s[si + 5]);
        if c >= ids.len() {
            Err(MarkFault::Unknown(s[si + 5], si + 6))
        } else if at[c] + len > channels[c].len() {
            Err(MarkFault::Exhausted(c, at[c], len))
        } else {
            merged(
                s,
                ids,
                channels,
                si + 6,
                at.update(c, at[c] + len),
                out + channels[c].subrange(at[c], at[c] + len),
            )
        }
    }
}

/// Merging from the start.
pub open spec fn merged_all(
    s: Seq<u8>,
    ids: Seq<u8>,
    channels: Seq<Seq<u8>>,
) -> Result<Seq<u8>, MarkFault> {
    merged(s, ids, channels, 0, Seq::new(ids.len(), |c: int| 0int), Seq::empty())
}

/// The channels of a split text.
pub open spec fn channels_of(ps: Seq<Piece>, n: int) -> Seq<Seq<u8>> {
    Seq::new(n as nat, |c: int| content(ps, c))
}

proof fn lemma_channel_of(ids: Seq<u8>, c: int)
    requires
        0 <= c < ids.len(),
        ids.no_duplicates(),
    ensures
        channel_of(ids, ids[c]) == c,
    decreases ids.len(),
{
    if c > 0 {
        let t = ids.drop_first();
        assert(t[c - 1] == ids[c]);
        assert(t.no_duplicates()) by {
            assert forall|i: int, j: int| 0 <= i < t.len() && 0 <= j < t.len() && i
                != j implies t[i] != t[j] by {
                assert(t[i] == ids[i + 1] && t[j] == ids[j + 1]);
            }
        }
        lemma_channel_of(t, c - 1);
        assert(ids[0] != ids[c]);
    }
}

proof fn lemma_channel_range(ids: Seq<u8>, id: u8)
    ensures
        0 <= channel_of(ids, id) <= ids.len(),
    decreases ids.len(),
{
    if ids.len() > 0 && ids[0] != id {
        lemma_channel_range(ids.drop_first(), id);
    }
}

/// Merging what is left of the streams of a split text appends its text.
proof fn lemma_merged(
    ps: Seq<Piece>,
    s: Seq<u8>,
    ids: Seq<u8>,
    channels: Seq<Seq<u8>>,
    si: int,
    at: Seq<int>,
    out: Seq<u8>,
)
    requires
        pieces_ok(ps, ids.len() as int),
        raws_ok(ps),
        ids.no_duplicates(),
        channels.len() == ids.len(),
        at.len() == ids.len(),
        0 <= si <= s.len(),
        s.skip(si) == marks(ps, ids),
        forall|c: int|
            0 <= c < ids.len() ==> 0 <= #[trigger] at[c] <= channels[c].len()
                && channels[c].skip(at[c]) == content(ps, c),
    ensures
        merged(s, ids, channels, si, at, out) == Ok::<Seq<u8>, MarkFault>(out + plain(ps)),
    decreases ps.len(),
{
    if ps.len() == 0 {
        assert(s.skip(si).len() == 0);
        assert(out + plain(ps) =~= out);
    } else {
        let p = ps[0];
        let rest = ps.drop_first();
        let m = s.skip(si);
        assert(m =~= mark_of(p, ids) + marks(rest, ids));
        assert(m.len() == s.len() - si);
        assert(pieces_ok(rest, ids.len() as int)) by {
            assert forall|i: int| 0 <= i < rest.len() implies (#[trigger] rest[i] matches
                Piece::Frag(c, f) ==> 0 <= c < ids.len() && f.len() <= u32::MAX) by {
                assert(rest[i] == ps[i + 1]);
            }
        }
        assert(raws_ok(rest)) by {
            assert forall|i: int| 0 <= i < rest.len() implies (#[trigger] rest[i] matches
                Piece::Raw(b) ==> b != MARK_PREFIX) by {
                assert(rest[i] == ps[i + 1]);
            }
        }
        match p {
            Piece::Raw(b) => {
                assert(mark_of(p, ids)[0] == b);
                assert(m[0] == b);
                assert(s[si] == b);
                assert(s.skip(si + 1) =~= m.skip(1));
                assert(m.skip(1) =~= marks(rest, ids));
                assert forall|c: int| 0 <= c < ids.len() implies 0 <= #[trigger] at[c]
                    <= channels[c].len() && channels[c].skip(at[c]) == content(rest, c) by {
                    assert(content(ps, c) =~= content(rest, c));
                }
                lemma_merged(rest, s, ids, channels, si + 1, at, out.push(b));
                assert(out.push(b) + plain(rest) =~= out + plain(ps));
            },
            Piece::Frag(c, f) => {
                assert(0 <= c < ids.len() && f.len() <= u32::MAX);
                let mark = mark_of(p, ids);
                assert(mark.len() == 6);
                assert(forall|k: int| 0 <= k < 6 ==> m[k] == #[trigger] mark[k]);
                assert(m.len() >= 6);
                assert(m[0] == s[si] && m[5] == s[si + 5]);
                assert(mark[0] == MARK_PREFIX && mark[5] == ids[c]);
                assert(s.subrange(si + 1, si + 5) =~= bytes::le32(f.len() as int)) by {
                    let sub = s.subrange(si + 1, si + 5);
                    let w = bytes::le32(f.len() as int);
                    assert forall|k: int| 0 <= k < 4 implies sub[k] == w[k] by {
                        assert(sub[k] == m[k + 1]);
                        assert(mark[k + 1] == w[k]);
                    }
                }
                bytes::lemma_un_le32(s, si + 1, f.len() as int);
                lemma_channel_of(ids, c);
                assert(0 <= at[c]);
                assert(channels[c].skip(at[c]) =~= f + content(rest, c));
                let at2 = at.update(c, at[c] + f.len());
                let piece = channels[c].subrange(at[c], at[c] + f.len());
                assert(piece =~= f) by {
                    assert(piece =~= channels[c].skip(at[c]).take(f.len() as int));
                    assert((f + content(rest, c)).take(f.len() as int) =~= f);
                }
                assert(s.skip(si + 6) =~= m.skip(6));
                assert(m.skip(6) =~= marks(rest, ids));
                assert forall|k: int| 0 <= k < ids.len() implies 0 <= #[trigger] at2[k]
                    <= channels[k].len() && channels[k].skip(at2[k]) == content(rest, k) by {
                    assert(0 <= at[k]);
                    if k == c {
                        assert(channels[c].skip(at2[c]) =~= channels[c].skip(at[c]).skip(
                            f.len() as int,
                        ));
                        assert((f + content(rest, c)).skip(f.len() as int) =~= content(rest, c));
                    } else {
                        assert(content(ps, k) =~= content(rest, k));
                    }
                }
                lemma_merged(rest, s, ids, channels, si + 6, at2, out + piece);
                assert(out + f + plain(rest) =~= out + plain(ps));
            },
        }
    }
}

proof fn lemma_fault_channel(
    s: Seq<u8>,
    ids: Seq<u8>,
    channels: Seq<Seq<u8>>,
    si: int,
    at: Seq<int>,
    out: Seq<u8>,
)
    ensures
        merged(s, ids, channels, si, at, out) matches Err(MarkFault::Exhausted(c, start, len))
            ==> 0 <= c < ids.len(),
    decreases s.len() - si,
{
    if 0 <= si < s.len() {
        if s[si] != MARK_PREFIX {
            lemma_fault_channel(s, ids, channels, si + 1, at, out.push(s[si]));
        } else if si + 5 < s.len() {
            let len = bytes::un_le32(s, si + 1);
            let c = channel_of(ids, s[si + 5]);
            lemma_channel_range(ids, s[si + 5]);
            if c < ids.len() && at[c] + len <= channels[c].len() {
                lemma_fault_channel(
                    s,
                    ids,
                    channels,
                    si + 6,
                    at.update(c, at[c] + len),
                    out + channels[c].subrange(at[c], at[c] + len),
                );
            }
        }
    }
}

/// The channel that a fault names exists.
pub proof fn lemma_exhausted_channel(s: Seq<u8>, ids: Seq<u8>, channels: Seq<Seq<u8>>)
    ensures
        merged_all(s, ids, channels) matches Err(MarkFault::Exhausted(c, start, len)) ==> 0 <= c
            < ids.len(),
{
    lemma_fault_channel(s, ids, channels, 0, Seq::new(ids.len(), |c: int| 0int), Seq::empty());
}

/// Merging the streams of a split text gives the text back.
pub proof fn law_merge_undoes_split(ps: Seq<Piece>, ids: Seq<u8>)
    requires
        pieces_ok(ps, ids.len() as int),
        raws_ok(ps),
        ids.no_duplicates(),
    ensures
        merged_all(marks(ps, ids), ids, channels_of(ps, ids.len() as int)) == Ok::<
            Seq<u8>,
            MarkFault,
        >(plain(ps)),
{
    let s = marks(ps, ids);
    let channels = channels_of(ps, ids.len() as int);
    let at = Seq::new(ids.len(), |c: int| 0int);
    assert(s.skip(0) =~= s);
    assert forall|c: int| 0 <= c < ids.len() implies 0 <= #[trigger] at[c] <= channels[c].len()
        && channels[c].skip(at[c]) == content(ps, c) by {
        assert(channels[c].skip(0) =~= channels[c]);
    }
    lemma_merged(ps, s, ids, channels, 0, at, Seq::empty());
    assert(Seq::<u8>::empty() + plain(ps) =~= plain(ps));
}

/// Emits the marker of the fragment `buf`, appends `buf` to `content` and
/// empties it.
pub fn emit_marked_fragment(
    structural: &mut Vec<u8>,
    content: &mut Vec<u8>,
    buf: &mut Vec<u8>,
    channel: u8,
)
    requires
        old(buf)@.len() <= u32::MAX,
    ensures
        final(structural)@ == old(structural)@ + (seq![MARK_PREFIX] + bytes::le32(
            old(buf)@.len() as int,
        ) + seq![channel]),
        final(content)@ == old(content)@ + old(buf)@,
        final(buf)@ == Seq::<u8>::empty(),
{
    let ghost before = structural@;
    let len: u32 = buf.len() as u32;
    structural.push(MARK_PREFIX);
    bytes::push_u32(structural, len);
    structural.push(channel);
    content.append(buf);
    assert(structural@ =~= before + (seq![MARK_PREFIX] + bytes::le32(len as int)
        + seq![channel]));
}

/// Parses the marker at `si`: its length, its channel and the offset behind it;
/// `None` if it is cut short.
pub fn parse_marked_fragment(s: &[u8], si: usize) -> (r: Option<(usize, u8, usize)>)
    ensures
        r is None <==> si + 5 >= s@.len(),
        r matches Some((len, channel, next)) ==> {
            &&& len == bytes::un_le32(s@, si + 1)
            &&& channel == s@[si + 5]
            &&& next == si + 6
        },
{
    if s.len() <= si || s.len() - si <= 5 {
        return None;
    }
    let len: u32 = bytes::get_u32(s, si + 1);
    Some((len as usize, s[si + 5], si + 6))
}

/// The message about a content stream that has too few bytes.
pub open spec fn exhausted_text(start: int, len: int, total: int, name: Seq<char>) -> Seq<char> {
    "stream '"@ + name + "' exhausted: need "@ + text::decimal(len) + " bytes at offset "@
        + text::decimal(start) + ", only "@ + text::decimal(
        if total > start {
            total - start
        } else {
            0
        },
    ) + " remaining"@
}

/// Ensures `start + len <= total` for a content stream named `name`.
pub fn check_stream_bounds(start: usize, len: usize, total: usize, name: &str) -> (r: Result<
    (),
    String,
>)
    ensures
        r is Ok <==> start + len <= total,
        r matches Err(m) ==> m@ == exhausted_text(
            start as int,
            len as int,
            total as int,
            name@,
        ),
{
    if start <= total && len <= total - start {
        return Ok(());
    }
    let mut m = String::from_str("stream '");
    m.append(name);
    m.append("' exhausted: need ");
    text::push_decimal(&mut m, len as u64);
    m.append(" bytes at offset ");
    text::push_decimal(&mut m, start as u64);
    m.append(", only ");
    let left: usize = if total > start {
        total - start
    } else {
        0
    };
    text::push_decimal(&mut m, left as u64);
    m.append(" remaining");
    Err(m)
}

/// Space, tab, line feed, form feed or carriage return.
pub open spec fn is_space(b: u8) -> bool {
    b == 0x20 || b == 0x09 || b == 0x0A || b == 0x0C || b == 0x0D
}

/// The number of white-space bytes that `d` starts with.
pub open spec fn leading_spaces(d: Seq<u8>) -> int
    decreases d.len(),
{
    if d.len() == 0 || !is_space(d[0]) {
        0
    } else {
        1 + leading_spaces(d.drop_first())
    }
}

/// Index of the first byte that is no ASCII white space; the length if there is
/// none.
pub fn skip_ascii_whitespace(data: &[u8]) -> (idx: usize)
    ensures
        idx == leading_spaces(data@),
        idx <= data@.len(),
{
    let mut idx: usize = 0;
    assert(data@.skip(0) =~= data@);
    while idx < data.len() && (data[idx] == 0x20 || data[idx] == 0x09 || data[idx] == 0x0A
        || data[idx] == 0x0C || data[idx] == 0x0D)
        invariant
            idx <= data@.len(),
            leading_spaces(data@) == idx + leading_spaces(data@.skip(idx as int)),
        decreases data@.len() - idx,
    {
        assert(data@.skip(idx as int).drop_first() =~= data@.skip(idx + 1));
        idx = idx + 1;
    }
    idx
}

/// At most `LOOKS_LIKE_SAMPLE` bytes from the start of `d`.
pub open spec fn sample(d: Seq<u8>) -> Seq<u8> {
    if d.len() > LOOKS_LIKE_SAMPLE {
        d.take(LOOKS_LIKE_SAMPLE as int)
    } else {
        d
    }
}

/// The first `LOOKS_LIKE_SAMPLE` bytes of `data`, or all of it if shorter.
pub fn sample_prefix(data: &[u8]) -> (s: &[u8])
    ensures
        s@ == sample(data@),
        s@.len() <= LOOKS_LIKE_SAMPLE,
{
    if data.len() > LOOKS_LIKE_SAMPLE {
        let s: &[u8] = vstd::slice::slice_subrange(data, 0, LOOKS_LIKE_SAMPLE);
        assert(s@ =~= sample(data@));
        s
    } else {
        data
    }
}

/// How often byte `b` occurs in `d`.
pub open spec fn count_of(d: Seq<u8>, b: u8) -> int
    decreases d.len(),
{
    if d.len() == 0 {
        0
    } else {
        count_of(d.drop_last(), b) + if d.last() == b {
            1int
        } else {
            0
        }
    }
}

/// Counts the occurrences of `b`.
pub fn count_byte(data: &[u8], b: u8) -> (n: usize)
    ensures
        n == count_of(data@, b),
        n <= data@.len(),
{
    let mut n: usize = 0;
    let mut i: usize = 0;
    assert(data@.take(0) =~= Seq::<u8>::empty());
    while i < data.len()
        invariant
            i <= data@.len(),
            n <= i,
            n == count_of(data@.take(i as int), b),
        decreases data@.len() - i,
    {
        assert(data@.take(i + 1).drop_last() =~= data@.take(i as int));
        if data[i] == b {
            n = n + 1;
        }
        i = i + 1;
    }
    assert(data@.take(i as int) =~= data@);
    n
}

/// Every byte is below 128.
pub open spec fn all_ascii(d: Seq<u8>) -> bool {
    forall|i: int| 0 <= i < d.len() ==> d[i] < 128
}

/// Whether every byte is ASCII.
pub fn is_all_ascii(data: &[u8]) -> (r: bool)
    ensures
        r == all_ascii(data@),
{
    let mut i: usize = 0;
    while i < data.len()
        invariant
            i <= data@.len(),
            forall|j: int| 0 <= j < i ==> data@[j] < 128,
        decreases data@.len() - i,
    {
        if data[i] >= 128 {
            return false;
        }
        i = i + 1;
    }
    true
}

/// `d` behind its length in four little-endian bytes.
pub open spec fn len_prefixed(d: Seq<u8>) -> Seq<u8> {
    bytes::le32(d.len() as int) + d
}

/// Writes a four-byte little-endian length followed by `data`.
pub fn write_len_prefixed(out: &mut Vec<u8>, data: &[u8])
    requires
        data@.len() <= u32::MAX,
    ensures
        final(out)@ == old(out)@ + len_prefixed(data@),
{
    let ghost before = out@;
    bytes::push_u32(out, data.len() as u32);
    bytes::push_slice(out, data);
    assert(out@ =~= before + len_prefixed(data@));
}

/// A length-prefixed blob at `pos` and the position behind it, or why it cannot
/// be read.
pub open spec fn blob_at(d: Seq<u8>, pos: int) -> Result<(Seq<u8>, int), Seq<char>> {
    if pos + 4 > d.len() {
        Err("truncated length prefix at offset "@ + text::decimal(pos))
    } else {
        let len = bytes::un_le32(d, pos);
        if pos + 4 + len > d.len() {
            Err(
                "length-prefixed blob of "@ + text::decimal(len) + " bytes at offset "@
                    + text::decimal(pos + 4) + " overruns buffer"@,
            )
        } else {
            Ok((d.subrange(pos + 4, pos + 4 + len), pos + 4 + len))
        }
    }
}

/// Reading a blob gives back what was written.
pub proof fn law_blob_round_trip(before: Seq<u8>, d: Seq<u8>, after: Seq<u8>)
    requires
        d.len() <= u32::MAX,
    ensures
        blob_at(before + len_prefixed(d) + after, before.len() as int) == Ok::<
            (Seq<u8>, int),
            Seq<char>,
        >((d, (before.len() + 4 + d.len()) as int)),
{
    let s = before + len_prefixed(d) + after;
    let pos = before.len() as int;
    assert(s.subrange(pos, pos + 4) =~= bytes::le32(d.len() as int));
    bytes::lemma_un_le32(s, pos, d.len() as int);
    assert(s.subrange(pos + 4, pos + 4 + d.len()) =~= d);
}

/// A blob can be read at the end of a prefix of a stream where it was written.
pub proof fn lemma_blob_within(s: Seq<u8>, before: Seq<u8>, d: Seq<u8>)
    requires
        d.len() <= u32::MAX,
        before.len() + 4 + d.len() <= s.len(),
        s.take((before.len() + 4 + d.len()) as int) == before + len_prefixed(d),
    ensures
        blob_at(s, before.len() as int) == Ok::<(Seq<u8>, int), Seq<char>>(
            (d, (before.len() + 4 + d.len()) as int),
        ),
{
    let k = (before.len() + 4 + d.len()) as int;
    assert(s =~= s.take(k) + s.skip(k));
    law_blob_round_trip(before, d, s.skip(k));
}

/// Reads a length-prefixed blob at `pos`; returns it with the position behind
/// it, or a message.
pub fn read_len_prefixed(buf: &[u8], pos: usize) -> (r: Result<(Vec<u8>, usize), String>)
    ensures
        r matches Ok((v, next)) ==> blob_at(buf@, pos as int) == Ok::<(Seq<u8>, int), Seq<char>>(
            (v@, next as int),
        ),
        r matches Err(m) ==> blob_at(buf@, pos as int) == Err::<(Seq<u8>, int), Seq<char>>(m@),
{
    if pos > buf.len() || buf.len() - pos < 4 {
        let mut m = String::from_str("truncated length prefix at offset ");
        text::push_decimal(&mut m, pos as u64);
        return Err(m);
    }
    let len: usize = bytes::get_u32(buf, pos) as usize;
    let start: usize = pos + 4;
    if buf.len() - start < len {
        let mut m = String::from_str("length-prefixed blob of ");
        text::push_decimal(&mut m, len as u64);
        m.append(" bytes at offset ");
        text::push_decimal(&mut m, start as u64);
        m.append(" overruns buffer");
        return Err(m);
    }
    let v: Vec<u8> = vstd::slice::slice_to_vec(
        vstd::slice::slice_subrange(buf, start, start + len),
    );
    Ok((v, start + len))
}

/// Reads a little-endian `u32` at `pos`; the message tells where it is cut.
pub fn read_u32_le(buf: &[u8], pos: usize) -> (r: Result<u32, String>)
    ensures
        r is Ok <==> pos + 4 <= buf@.len(),
        r matches Ok(v) ==> v == bytes::un_le32(buf@, pos as int),
        r matches Err(m) ==> m@ == "truncated u32 at offset "@ + text::decimal(pos as int),
{
    if pos > buf.len() || buf.len() - pos < 4 {
        let mut m = String::from_str("truncated u32 at offset ");
        text::push_decimal(&mut m, pos as u64);
        return Err(m);
    }
    Ok(bytes::get_u32(buf, pos))
}

/// Reads a little-endian `u16` at `pos`; the message tells where it is cut.
pub fn read_u16_le(buf: &[u8], pos: usize) -> (r: Result<u16, String>)
    ensures
        r is Ok <==> pos + 2 <= buf@.len(),
        r matches Ok(v) ==> v == bytes::un_le16(buf@, pos as int),
        r matches Err(m) ==> m@ == "truncated u16 at offset "@ + text::decimal(pos as int),
{
    if pos > buf.len() || buf.len() - pos < 2 {
        let mut m = String::from_str("truncated u16 at offset ");
        text::push_decimal(&mut m, pos as u64);
        return Err(m);
    }
    Ok(bytes::get_u16(buf, pos))
}

/// Why streams could not be merged, with the message about an exhausted one.
pub enum MarkError {
    Truncated(usize),
    Unknown(u8, usize),
    Exhausted(String),
}

/// The message that goes with a fault.
pub open spec fn mark_error_is(
    e: MarkError,
    f: MarkFault,
    names: Seq<&str>,
    channels: Seq<Seq<u8>>,
) -> bool {
    match (e, f) {
        (MarkError::Truncated(a), MarkFault::Truncated(b)) => a == b,
        (MarkError::Unknown(c, a), MarkFault::Unknown(k, b)) => c == k && a == b,
        (MarkError::Exhausted(m), MarkFault::Exhausted(c, start, len)) => m@ == exhausted_text(
            start,
            len,
            channels[c].len() as int,
            names[c]@,
        ),
        _ => false,
    }
}

/// The contents of a list of slices.
pub open spec fn views(v: Seq<&[u8]>) -> Seq<Seq<u8>> {
    Seq::new(v.len(), |i: int| v[i]@)
}

fn find_channel(ids: &[u8], id: u8) -> (c: usize)
    ensures
        c == channel_of(ids@, id),
        c <= ids@.len(),
{
    let mut c: usize = 0;
    assert(ids@.skip(0) =~= ids@);
    while c < ids.len() && ids[c] != id
        invariant
            c <= ids@.len(),
            channel_of(ids@, id) == c + channel_of(ids@.skip(c as int), id),
        decreases ids@.len() - c,
    {
        assert(ids@.skip(c as int).drop_first() =~= ids@.skip(c + 1));
        c = c + 1;
    }
    c
}

spec fn as_ints(v: Seq<usize>) -> Seq<int> {
    Seq::new(v.len(), |i: int| v[i] as int)
}

/// Merges a structural stream with its channels.
pub fn merge_marked(s: &[u8], ids: &[u8], names: &[&str], channels: &[&[u8]]) -> (r: Result<
    Vec<u8>,
    MarkError,
>)
    requires
        ids@.len() == channels@.len(),
        ids@.len() == names@.len(),
    ensures
        r matches Ok(v) ==> merged_all(s@, ids@, views(channels@)) == Ok::<Seq<u8>, MarkFault>(
            v@,
        ),
        r matches Err(e) ==> (merged_all(s@, ids@, views(channels@)) matches Err(f)
            && mark_error_is(e, f, names@, views(channels@))),
{
    let ghost ch = views(channels@);
    let ghost goal = merged_all(s@, ids@, ch);
    let mut at: Vec<usize> = vec![0usize; ids.len()];
    let mut out: Vec<u8> = Vec::new();
    let mut si: usize = 0;
    assert(as_ints(at@) =~= Seq::new(ids@.len(), |c: int| 0int));
    while si < s.len()
        invariant
            si <= s@.len(),
            ch == views(channels@),
            goal == merged_all(s@, ids@, ch),
            ids@.len() == channels@.len(),
            ids@.len() == names@.len(),
            at@.len() == ids@.len(),
            goal == merged(s@, ids@, ch, si as int, as_ints(at@), out@),
        decreases s@.len() - si,
    {
        let b: u8 = s[si];
        if b == MARK_PREFIX {
            match parse_marked_fragment(s, si) {
                None => return Err(MarkError::Truncated(si)),
                Some((len, channel, next)) => {
                    let c: usize = find_channel(ids, channel);
                    if c >= ids.len() {
                        return Err(MarkError::Unknown(channel, next));
                    }
                    let data: &[u8] = channels[c];
                    let start: usize = at[c];
                    assert(ch[c as int] == data@);
                    match check_stream_bounds(start, len, data.len(), names[c]) {
                        Err(m) => return Err(MarkError::Exhausted(m)),
                        Ok(_) => {},
                    }
                    bytes::push_slice(
                        &mut out,
                        vstd::slice::slice_subrange(data, start, start + len),
                    );
                    let ghost before = at@;
                    at[c] = start + len;
                    assert(as_ints(at@) =~= as_ints(before).update(c as int, start + len));
                    si = next;
                },
            }
        } else {
            out.push(b);
            si = si + 1;
        }
    }
    Ok(out)
}

} // verus!
