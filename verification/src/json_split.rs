//! JSON-aware stream splitting for specialized modeling.
//!
//! A block of JSON text is routed into four streams (structure, keys, string
//! values, numbers and other words), each of which is highly repetitive. The
//! split is a single-pass state machine, no full parser. All bytes that stay in
//! the structural stream are ASCII, so that a marker is unambiguous there.

use crate::bytes;
use crate::error::{Fault, RcnError};
use crate::split_common;
use crate::split_common::{MarkError, MarkFault, Piece};
use crate::text;
use vstd::prelude::*;
use vstd::string::*;

verus! {

/// Channel identifier of key strings (`K`).
pub const CHANNEL_KEY: u8 = 0x4B;

/// Channel identifier of value strings (`V`).
pub const CHANNEL_VALUE: u8 = 0x56;

/// Channel identifier of numbers and other words (`N`).
pub const CHANNEL_NUMBER: u8 = 0x4E;

/// The double quote.
pub const QUOTE: u8 = 0x22;

/// The backslash.
pub const BACKSLASH: u8 = 0x5C;

/// Four output streams produced by `split`.
#[derive(Debug, Clone, Default, PartialEq, Eq)]
pub struct JsonStreams {
    /// Structural characters, quotes and white space, and the fragment markers.
    pub structural: Vec<u8>,
    /// All key string content, concatenated in order.
    pub keys: Vec<u8>,
    /// All value string content, concatenated in order.
    pub string_values: Vec<u8>,
    /// All numeric/other content, concatenated in order.
    pub numbers: Vec<u8>,
}

/// The four streams as sequences.
#[verifier::ext_equal]
pub struct JsonView {
    pub structural: Seq<u8>,
    pub keys: Seq<u8>,
    pub string_values: Seq<u8>,
    pub numbers: Seq<u8>,
}

impl View for JsonStreams {
    type V = JsonView;

    open spec fn view(&self) -> JsonView {
        JsonView {
            structural: self.structural@,
            keys: self.keys@,
            string_values: self.string_values@,
            numbers: self.numbers@,
        }
    }
}

/// The channel identifiers, in the order of the channels.
pub open spec fn ids() -> Seq<u8> {
    seq![CHANNEL_KEY, CHANNEL_VALUE, CHANNEL_NUMBER]
}

/// White space between JSON tokens.
pub open spec fn is_gap(b: u8) -> bool {
    b == 0x20 || b == 0x09 || b == 0x0A || b == 0x0D
}

/// A byte that ends a word outside strings: punctuation or white space.
pub open spec fn is_structure(b: u8) -> bool {
    b == 0x7B || b == 0x7D || b == 0x5B || b == 0x5D || b == 0x3A || b == 0x2C || is_gap(b)
}

/// Whether the first byte that is no gap is a colon.
pub open spec fn colon_ahead(d: Seq<u8>) -> bool
    decreases d.len(),
{
    if d.len() == 0 {
        false
    } else if is_gap(d[0]) {
        colon_ahead(d.drop_first())
    } else {
        d[0] == 0x3A
    }
}

/// Where the splitter stands: inside a string, behind a backslash, and the
/// content that was not routed yet.
#[verifier::ext_equal]
pub struct JsonState {
    pub in_string: bool,
    pub in_escape: bool,
    pub buf: Seq<u8>,
}

/// Pending content outside strings as a number fragment; no content, no
/// fragment.
pub open spec fn flushed(buf: Seq<u8>) -> Seq<Piece> {
    if buf.len() == 0 {
        Seq::empty()
    } else {
        seq![Piece::Frag(2, buf)]
    }
}

/// The pieces that the first byte of `d` completes.
pub open spec fn json_head(st: JsonState, d: Seq<u8>) -> Seq<Piece> {
    let b = d[0];
    if st.in_string {
        if !st.in_escape && b == QUOTE {
            let c = if colon_ahead(d.drop_first()) {
                0int
            } else {
                1
            };
            seq![Piece::Frag(c, st.buf), Piece::Raw(b)]
        } else {
            Seq::empty()
        }
    } else if b == QUOTE || is_structure(b) {
        flushed(st.buf) + seq![Piece::Raw(b)]
    } else {
        Seq::empty()
    }
}

/// Where the splitter stands after byte `b`.
pub open spec fn json_next(st: JsonState, b: u8) -> JsonState {
    if st.in_string {
        if !st.in_escape && b == QUOTE {
            JsonState { in_string: false, in_escape: false, buf: Seq::empty() }
        } else {
            JsonState {
                in_string: true,
                in_escape: !st.in_escape && b == BACKSLASH,
                buf: st.buf.push(b),
            }
        }
    } else if b == QUOTE || is_structure(b) {
        JsonState { in_string: b == QUOTE, in_escape: false, buf: Seq::empty() }
    } else {
        JsonState { in_string: false, in_escape: false, buf: st.buf.push(b) }
    }
}

/// The pieces of `d` from state `st` on.
pub open spec fn json_pieces(st: JsonState, d: Seq<u8>) -> Seq<Piece>
    decreases d.len(),
{
    if d.len() == 0 {
        flushed(st.buf)
    } else {
        json_head(st, d) + json_pieces(json_next(st, d[0]), d.drop_first())
    }
}

/// The state at the start of a block.
pub open spec fn json_start() -> JsonState {
    JsonState { in_string: false, in_escape: false, buf: Seq::empty() }
}

/// The pieces of a block.
pub open spec fn json_split_pieces(d: Seq<u8>) -> Seq<Piece> {
    json_pieces(json_start(), d)
}

/// The streams of a list of pieces.
pub open spec fn json_streams(ps: Seq<Piece>) -> JsonView {
    JsonView {
        structural: split_common::marks(ps, ids()),
        keys: split_common::content(ps, 0),
        string_values: split_common::content(ps, 1),
        numbers: split_common::content(ps, 2),
    }
}

/// The contents of the channels.
pub open spec fn json_channels(v: JsonView) -> Seq<Seq<u8>> {
    seq![v.keys, v.string_values, v.numbers]
}

/// What the streams merge to, whatever its length.
pub open spec fn json_unchecked(v: JsonView) -> Result<Seq<u8>, Fault> {
    match split_common::merged_all(v.structural, ids(), json_channels(v)) {
        Ok(t) => Ok(t),
        Err(f) => Err(Fault::JsonSplitError(json_fault_text(v, f))),
    }
}

/// The message about streams that cannot be merged.
pub open spec fn json_fault_text(v: JsonView, f: MarkFault) -> Seq<char> {
    match f {
        MarkFault::Truncated(si) => "truncated marker at structural offset "@ + text::decimal(si),
        MarkFault::Unknown(c, si) => "unknown channel byte "@ + text::decimal(c as int)
            + " at structural offset "@ + text::decimal(si),
        MarkFault::Exhausted(c, start, len) => split_common::exhausted_text(
            start,
            len,
            json_channels(v)[c].len() as int,
            if c == 0 {
                "keys"@
            } else if c == 1 {
                "string_values"@
            } else {
                "numbers"@
            },
        ),
    }
}

/// What the streams merge to as a text of `n` bytes.
pub open spec fn json_merged(v: JsonView, n: int) -> Result<Seq<u8>, Fault> {
    match json_unchecked(v) {
        Ok(t) => if t.len() == n {
            Ok(t)
        } else {
            Err(
                Fault::JsonSplitError(
                    "merge produced "@ + text::decimal(t.len() as int) + " bytes, expected "@
                        + text::decimal(n),
                ),
            )
        },
        Err(e) => Err(e),
    }
}

/// The pieces that a byte completes and what is pending behind it hold what was
/// pending before it and the byte.
proof fn lemma_json_head(st: JsonState, d: Seq<u8>)
    requires
        d.len() > 0,
    ensures
        split_common::plain(json_head(st, d)) + json_next(st, d[0]).buf == st.buf.push(d[0]),
{
    reveal_with_fuel(split_common::plain, 4);
    let head = json_head(st, d);
    if head.len() == 1 {
        assert(head.drop_first() =~= Seq::empty());
    } else if head.len() == 2 {
        assert(head.drop_first() =~= seq![head[1]]);
        assert(head.drop_first().drop_first() =~= Seq::empty());
    }
    assert(split_common::plain(head) + json_next(st, d[0]).buf =~= st.buf.push(d[0]));
}

/// The pieces hold the pending content and the rest of the block.
proof fn lemma_json_plain(st: JsonState, d: Seq<u8>)
    ensures
        split_common::plain(json_pieces(st, d)) == st.buf + d,
    decreases d.len(),
{
    if d.len() == 0 {
        reveal_with_fuel(split_common::plain, 2);
        let f = flushed(st.buf);
        if st.buf.len() > 0 {
            assert(f.drop_first() =~= Seq::empty());
        }
        assert(split_common::plain(f) =~= st.buf + d);
    } else {
        let head = json_head(st, d);
        let next = json_next(st, d[0]);
        let rest = json_pieces(next, d.drop_first());
        lemma_json_plain(next, d.drop_first());
        lemma_json_head(st, d);
        split_common::lemma_append(head, rest, ids());
        assert(split_common::plain(head) + (next.buf + d.drop_first()) =~= (split_common::plain(
            head,
        ) + next.buf) + d.drop_first());
        assert(st.buf.push(d[0]) + d.drop_first() =~= st.buf + d);
    }
}

/// Fragments are short enough and no structural byte looks like a marker.
proof fn lemma_json_ok(st: JsonState, d: Seq<u8>)
    requires
        st.buf.len() + d.len() <= u32::MAX,
    ensures
        split_common::pieces_ok(json_pieces(st, d), 3),
        split_common::raws_ok(json_pieces(st, d)),
    decreases d.len(),
{
    if d.len() > 0 {
        let head = json_head(st, d);
        let next = json_next(st, d[0]);
        lemma_json_ok(next, d.drop_first());
        assert(split_common::pieces_ok(head, 3));
        assert(split_common::raws_ok(head));
        split_common::lemma_pieces_ok_append(head, json_pieces(next, d.drop_first()), 3);
        split_common::lemma_raws_ok_append(head, json_pieces(next, d.drop_first()));
    }
}

/// Merging the streams of a block gives the block back.
pub proof fn law_json_round_trip(d: Seq<u8>)
    requires
        d.len() <= u32::MAX,
    ensures
        json_merged(json_streams(json_split_pieces(d)), d.len() as int) == Ok::<Seq<u8>, Fault>(d),
{
    let ps = json_split_pieces(d);
    lemma_json_plain(json_start(), d);
    lemma_json_ok(json_start(), d);
    assert(Seq::<u8>::empty() + d =~= d);
    split_common::law_merge_undoes_split(ps, ids());
    assert(json_channels(json_streams(ps)) =~= split_common::channels_of(ps, 3));
}

/// Whether `k` can stand between quotes: no quote in it stands alone, and no backslash
/// waits for a byte at its end. `escaped` tells whether a backslash stands in front.
pub open spec fn string_body(k: Seq<u8>, escaped: bool) -> bool
    decreases k.len(),
{
    if k.len() == 0 {
        !escaped
    } else if escaped {
        string_body(k.drop_first(), false)
    } else {
        k[0] != 0x22 && string_body(k.drop_first(), k[0] == 0x5C)
    }
}

proof fn lemma_in_string(escaped: bool, buf: Seq<u8>, k: Seq<u8>, t: Seq<u8>)
    requires
        string_body(k, escaped),
    ensures
        json_pieces(
            JsonState { in_string: true, in_escape: escaped, buf },
            k + seq![0x22u8] + t,
        ) == seq![
            Piece::Frag(
                if colon_ahead(t) {
                    0
                } else {
                    1
                },
                buf + k,
            ),
            Piece::Raw(0x22),
        ] + json_pieces(json_start(), t),
    decreases k.len(),
{
    let d = k + seq![0x22u8] + t;
    let st = JsonState { in_string: true, in_escape: escaped, buf };
    if k.len() == 0 {
        assert(d[0] == 0x22);
        assert(d.drop_first() =~= t);
        assert(buf + k =~= buf);
    } else {
        let rest = k.drop_first();
        let next = !escaped && k[0] == 0x5C;
        assert(d[0] == k[0]);
        assert(d.drop_first() =~= rest + seq![0x22u8] + t);
        lemma_in_string(next, buf.push(k[0]), rest, t);
        assert(buf.push(k[0]) + rest =~= buf + k);
        let tail = json_pieces(json_next(st, d[0]), d.drop_first());
        assert(json_head(st, d) + tail =~= tail);
    }
}

proof fn lemma_three_pieces(c: int, s: Seq<u8>, rest: Seq<Piece>)
    requires
        0 <= c < 3,
    ensures
        json_streams(seq![Piece::Raw(0x22), Piece::Frag(c, s), Piece::Raw(0x22)] + rest)
            == (JsonView {
            structural: seq![0x22u8, 0xFEu8] + bytes::le32(s.len() as int) + seq![ids()[c], 0x22u8]
                + json_streams(rest).structural,
            keys: if c == 0 {
                s + json_streams(rest).keys
            } else {
                json_streams(rest).keys
            },
            string_values: if c == 1 {
                s + json_streams(rest).string_values
            } else {
                json_streams(rest).string_values
            },
            numbers: if c == 2 {
                s + json_streams(rest).numbers
            } else {
                json_streams(rest).numbers
            },
        }),
{
    let head = seq![Piece::Raw(0x22), Piece::Frag(c, s), Piece::Raw(0x22)];
    split_common::lemma_append(head, rest, ids());
    reveal_with_fuel(split_common::marks, 4);
    reveal_with_fuel(split_common::content, 4);
    assert(head.drop_first() =~= seq![Piece::Frag(c, s), Piece::Raw(0x22)]);
    assert(head.drop_first().drop_first() =~= seq![Piece::Raw(0x22)]);
    assert(head.drop_first().drop_first().drop_first() =~= Seq::<Piece>::empty());
    assert(json_streams(head + rest).structural =~= seq![0x22u8, 0xFEu8] + bytes::le32(
        s.len() as int,
    ) + seq![ids()[c], 0x22u8] + json_streams(rest).structural);
    assert(split_common::content(head, 0) =~= if c == 0 {
        s
    } else {
        Seq::empty()
    });
    assert(split_common::content(head, 1) =~= if c == 1 {
        s
    } else {
        Seq::empty()
    });
    assert(split_common::content(head, 2) =~= if c == 2 {
        s
    } else {
        Seq::empty()
    });
    assert(split_common::content(head + rest, 0) == split_common::content(head, 0)
        + split_common::content(rest, 0));
    assert(split_common::content(head + rest, 1) == split_common::content(head, 1)
        + split_common::content(rest, 1));
    assert(split_common::content(head + rest, 2) == split_common::content(head, 2)
        + split_common::content(rest, 2));
    assert(Seq::<u8>::empty() + split_common::content(rest, 0) =~= split_common::content(rest, 0));
    assert(Seq::<u8>::empty() + split_common::content(rest, 1) =~= split_common::content(rest, 1));
    assert(Seq::<u8>::empty() + split_common::content(rest, 2) =~= split_common::content(rest, 2));
}

/// What stands between quotes goes to the keys where a colon follows, and to the
/// string values where none does; the structure keeps the quotes and a marker with
/// the length between them, and nothing else changes.
pub proof fn law_json_strings(k: Seq<u8>, t: Seq<u8>)
    requires
        string_body(k, false),
    ensures
        ({
            let all = json_streams(json_split_pieces(seq![0x22u8] + k + seq![0x22u8] + t));
            let rest = json_streams(json_split_pieces(t));
            let mark = |id: u8|
                seq![0x22u8, 0xFEu8] + bytes::le32(k.len() as int) + seq![id, 0x22u8];
            &&& colon_ahead(t) ==> all == (JsonView {
                structural: mark(0x4B) + rest.structural,
                keys: k + rest.keys,
                ..rest
            })
            &&& !colon_ahead(t) ==> all == (JsonView {
                structural: mark(0x56) + rest.structural,
                string_values: k + rest.string_values,
                ..rest
            })
        }),
{
    let d = seq![0x22u8] + k + seq![0x22u8] + t;
    let inner = k + seq![0x22u8] + t;
    let st = json_start();
    assert(d[0] == 0x22);
    assert(d.drop_first() =~= inner);
    lemma_in_string(false, Seq::empty(), k, t);
    assert(Seq::<u8>::empty() + k =~= k);
    let c: int = if colon_ahead(t) {
        0
    } else {
        1
    };
    let rest = json_split_pieces(t);
    assert(json_split_pieces(d) =~= seq![Piece::Raw(0x22), Piece::Frag(c, k), Piece::Raw(0x22)]
        + rest);
    lemma_three_pieces(c, k, rest);
}

/// A colon follows where only spaces, tabs, line feeds and carriage returns stand in
/// front of it; any other byte in front of it means that none follows.
pub proof fn law_json_colon(gap: Seq<u8>, t: Seq<u8>)
    requires
        forall|i: int|
            0 <= i < gap.len() ==> #[trigger] gap[i] == 0x20 || gap[i] == 0x09 || gap[i] == 0x0A
                || gap[i] == 0x0D,
        t.len() > 0 ==> t[0] != 0x20 && t[0] != 0x09 && t[0] != 0x0A && t[0] != 0x0D,
    ensures
        colon_ahead(gap + t) == (t.len() > 0 && t[0] == 0x3A),
    decreases gap.len(),
{
    let d = gap + t;
    if gap.len() > 0 {
        assert(d[0] == gap[0]);
        assert(d.drop_first() =~= gap.drop_first() + t);
        assert forall|i: int| 0 <= i < gap.drop_first().len() implies #[trigger] gap.drop_first()[i]
            == 0x20 || gap.drop_first()[i] == 0x09 || gap.drop_first()[i] == 0x0A
            || gap.drop_first()[i] == 0x0D by {
            assert(gap[i + 1] == gap.drop_first()[i]);
        }
        law_json_colon(gap.drop_first(), t);
    } else {
        assert(d =~= t);
    }
}

proof fn lemma_outside(buf: Seq<u8>, x: Seq<u8>, t: Seq<u8>)
    requires
        forall|i: int| 0 <= i < x.len() ==> #[trigger] x[i] != 0x22 && !is_structure(x[i]),
        t.len() > 0 ==> t[0] == 0x22 || is_structure(t[0]),
        buf.len() + x.len() > 0,
    ensures
        json_pieces(JsonState { in_string: false, in_escape: false, buf }, x + t) == seq![
            Piece::Frag(2, buf + x),
        ] + json_pieces(json_start(), t),
    decreases x.len(),
{
    let st = JsonState { in_string: false, in_escape: false, buf };
    let d = x + t;
    if x.len() > 0 {
        let rest = x.drop_first();
        assert(d[0] == x[0]);
        assert(d.drop_first() =~= rest + t);
        assert forall|i: int| 0 <= i < rest.len() implies #[trigger] rest[i] != 0x22
            && !is_structure(rest[i]) by {
            assert(x[i + 1] == rest[i]);
        }
        lemma_outside(buf.push(x[0]), rest, t);
        assert(buf.push(x[0]) + rest =~= buf + x);
        let tail = json_pieces(json_next(st, d[0]), d.drop_first());
        assert(json_head(st, d) + tail =~= tail);
    } else {
        assert(d =~= t);
        assert(buf + x =~= buf);
        if t.len() > 0 {
            let tail = json_pieces(json_next(st, t[0]), t.drop_first());
            assert(json_pieces(st, t) =~= seq![Piece::Frag(2, buf)] + (seq![Piece::Raw(t[0])]
                + tail));
            assert(json_pieces(json_start(), t) =~= seq![Piece::Raw(t[0])] + tail);
        } else {
            assert(json_pieces(st, t) =~= seq![Piece::Frag(2, buf)]);
            assert(json_pieces(json_start(), t) =~= Seq::<Piece>::empty());
        }
    }
}

/// A number or another word outside quotes goes to the numbers, and the structure
/// keeps a marker with its length; a brace, a bracket, a colon, a comma and white space
/// outside quotes stay in the structure.
pub proof fn law_json_numbers(x: Seq<u8>, b: u8, t: Seq<u8>)
    requires
        x.len() > 0,
        forall|i: int|
            0 <= i < x.len() ==> !seq![
                0x22u8,
                0x7Bu8,
                0x7Du8,
                0x5Bu8,
                0x5Du8,
                0x3Au8,
                0x2Cu8,
                0x20u8,
                0x09u8,
                0x0Au8,
                0x0Du8,
            ].contains(#[trigger] x[i]),
        seq![0x7Bu8, 0x7Du8, 0x5Bu8, 0x5Du8, 0x3Au8, 0x2Cu8, 0x20u8, 0x09u8, 0x0Au8, 0x0Du8].contains(
            b,
        ),
    ensures
        ({
            let all = json_streams(json_split_pieces(x + seq![b] + t));
            let rest = json_streams(json_split_pieces(t));
            let mark = seq![0xFEu8] + bytes::le32(x.len() as int) + seq![0x4Eu8, b];
            all == (JsonView {
                structural: mark + rest.structural,
                numbers: x + rest.numbers,
                ..rest
            })
        }),
        ({
            let rest = json_streams(json_split_pieces(t));
            json_streams(json_split_pieces(seq![b] + t)) == (JsonView {
                structural: seq![b] + rest.structural,
                ..rest
            })
        }),
{
    let stops = seq![
        0x22u8,
        0x7Bu8,
        0x7Du8,
        0x5Bu8,
        0x5Du8,
        0x3Au8,
        0x2Cu8,
        0x20u8,
        0x09u8,
        0x0Au8,
        0x0Du8,
    ];
    assert forall|i: int| 0 <= i < x.len() implies #[trigger] x[i] != 0x22 && !is_structure(
        x[i],
    ) by {
        assert(!stops.contains(x[i]));
        assert(stops[0] == 0x22 && stops[1] == 0x7B && stops[2] == 0x7D && stops[3] == 0x5B
            && stops[4] == 0x5D && stops[5] == 0x3A && stops[6] == 0x2C && stops[7] == 0x20
            && stops[8] == 0x09 && stops[9] == 0x0A && stops[10] == 0x0D);
    }
    assert(is_structure(b));
    let tail = seq![b] + t;
    assert(tail.drop_first() =~= t);
    let rest = json_split_pieces(t);
    assert(json_split_pieces(tail) =~= seq![Piece::Raw(b)] + rest);
    lemma_outside(Seq::empty(), x, tail);
    assert(Seq::<u8>::empty() + x =~= x);
    assert(x + tail =~= x + seq![b] + t);
    let one = seq![Piece::Raw(b)];
    let two = seq![Piece::Frag(2, x)];
    split_common::lemma_append(one, rest, ids());
    split_common::lemma_append(two, one + rest, ids());
    reveal_with_fuel(split_common::marks, 2);
    reveal_with_fuel(split_common::content, 2);
    assert(one.drop_first() =~= Seq::<Piece>::empty());
    assert(two.drop_first() =~= Seq::<Piece>::empty());
    assert forall|c: int| #[trigger] split_common::content(one + rest, c) == split_common::content(
        rest,
        c,
    ) by {
        assert(split_common::content(one, c) =~= Seq::<u8>::empty());
        assert(split_common::content(one + rest, c) == split_common::content(one, c)
            + split_common::content(rest, c));
        assert(Seq::<u8>::empty() + split_common::content(rest, c) =~= split_common::content(
            rest,
            c,
        ));
    }
    assert forall|c: int| #[trigger]
        split_common::content(two + (one + rest), c) == if c == 2 {
            x + split_common::content(rest, c)
        } else {
            split_common::content(rest, c)
        } by {
        assert(split_common::content(two, c) =~= if c == 2 {
            x
        } else {
            Seq::empty()
        });
        assert(split_common::content(two + (one + rest), c) == split_common::content(two, c)
            + split_common::content(one + rest, c));
        assert(Seq::<u8>::empty() + split_common::content(rest, c) =~= split_common::content(
            rest,
            c,
        ));
    }
    let v = json_streams(two + (one + rest));
    assert(v.structural =~= seq![0xFEu8] + bytes::le32(x.len() as int) + seq![0x4Eu8, b]
        + json_streams(rest).structural);
    assert(json_streams(one + rest).structural =~= seq![b] + json_streams(rest).structural);
}

proof fn lemma_piece_count(st: JsonState, d: Seq<u8>)
    ensures
        json_pieces(st, d).len() <= 2 * d.len() + 1,
    decreases d.len(),
{
    if d.len() > 0 {
        lemma_piece_count(json_next(st, d[0]), d.drop_first());
    }
}

/// The streams of a block are not much longer than the block.
pub proof fn lemma_json_sizes(d: Seq<u8>)
    ensures
        json_streams(json_split_pieces(d)).structural.len() <= 12 * d.len() + 6,
        json_streams(json_split_pieces(d)).keys.len() <= d.len(),
        json_streams(json_split_pieces(d)).string_values.len() <= d.len(),
        json_streams(json_split_pieces(d)).numbers.len() <= d.len(),
{
    let ps = json_split_pieces(d);
    lemma_json_plain(json_start(), d);
    lemma_piece_count(json_start(), d);
    split_common::lemma_sizes(ps, ids(), 0);
    split_common::lemma_sizes(ps, ids(), 1);
    split_common::lemma_sizes(ps, ids(), 2);
}

impl JsonStreams {
    /// Total length of all four streams combined.
    pub fn total_len(&self) -> (n: usize)
        requires
            self@.structural.len() + self@.keys.len() + self@.string_values.len()
                + self@.numbers.len() <= usize::MAX,
        ensures
            n == self@.structural.len() + self@.keys.len() + self@.string_values.len()
                + self@.numbers.len(),
    {
        self.structural.len() + self.keys.len() + self.string_values.len() + self.numbers.len()
    }
}

/// The streams so far and those of the pieces to come make up the whole.
spec fn on_track(out: JsonView, rest: Seq<Piece>, all: Seq<Piece>) -> bool {
    &&& out.structural + split_common::marks(rest, ids()) =~= split_common::marks(all, ids())
    &&& out.keys + split_common::content(rest, 0) =~= split_common::content(all, 0)
    &&& out.string_values + split_common::content(rest, 1) =~= split_common::content(all, 1)
    &&& out.numbers + split_common::content(rest, 2) =~= split_common::content(all, 2)
}

proof fn lemma_on_track(
    out: JsonView,
    next: JsonView,
    head: Seq<Piece>,
    rest: Seq<Piece>,
    all: Seq<Piece>,
)
    requires
        on_track(out, head + rest, all),
        next.structural == out.structural + split_common::marks(head, ids()),
        next.keys == out.keys + split_common::content(head, 0),
        next.string_values == out.string_values + split_common::content(head, 1),
        next.numbers == out.numbers + split_common::content(head, 2),
    ensures
        on_track(next, rest, all),
{
    split_common::lemma_append(head, rest, ids());
    assert(split_common::content(head + rest, 0) == split_common::content(head, 0)
        + split_common::content(rest, 0));
    assert(split_common::content(head + rest, 1) == split_common::content(head, 1)
        + split_common::content(rest, 1));
    assert(split_common::content(head + rest, 2) == split_common::content(head, 2)
        + split_common::content(rest, 2));
}

fn exec_is_gap(b: u8) -> (r: bool)
    ensures
        r == is_gap(b),
{
    b == 0x20 || b == 0x09 || b == 0x0A || b == 0x0D
}

fn exec_is_structure(b: u8) -> (r: bool)
    ensures
        r == is_structure(b),
{
    b == 0x7B || b == 0x7D || b == 0x5B || b == 0x5D || b == 0x3A || b == 0x2C || exec_is_gap(b)
}

/// Looks for a colon behind white space from `i` on.
fn is_key_end(data: &[u8], i: usize) -> (r: bool)
    requires
        i <= data@.len(),
    ensures
        r == colon_ahead(data@.skip(i as int)),
{
    let mut j: usize = i;
    while j < data.len() && exec_is_gap(data[j])
        invariant
            i <= j <= data@.len(),
            colon_ahead(data@.skip(i as int)) == colon_ahead(data@.skip(j as int)),
        decreases data@.len() - j,
    {
        assert(data@.skip(j as int).drop_first() =~= data@.skip(j + 1));
        j = j + 1;
    }
    j < data.len() && data[j] == 0x3A
}

/// Routes pending content outside strings into the number stream.
fn flush_number(out: &mut JsonStreams, buf: &mut Vec<u8>)
    requires
        old(buf)@.len() <= u32::MAX,
    ensures
        final(buf)@ == Seq::<u8>::empty(),
        final(out)@.structural == old(out)@.structural + split_common::marks(
            flushed(old(buf)@),
            ids(),
        ),
        final(out)@.keys == old(out)@.keys + split_common::content(flushed(old(buf)@), 0),
        final(out)@.string_values == old(out)@.string_values + split_common::content(
            flushed(old(buf)@),
            1,
        ),
        final(out)@.numbers == old(out)@.numbers + split_common::content(flushed(old(buf)@), 2),
{
    let ghost ps = flushed(buf@);
    let ghost before = out@;
    proof {
        reveal_with_fuel(split_common::marks, 2);
        reveal_with_fuel(split_common::content, 2);
        if buf@.len() > 0 {
            assert(ps.drop_first() =~= Seq::empty());
        }
    }
    if buf.len() > 0 {
        split_common::emit_marked_fragment(
            &mut out.structural,
            &mut out.numbers,
            buf,
            CHANNEL_NUMBER,
        );
    } else {
        assert(buf@ =~= Seq::<u8>::empty());
    }
    assert(out@.structural =~= before.structural + split_common::marks(ps, ids()));
    assert(out@.keys =~= before.keys + split_common::content(ps, 0));
    assert(out@.string_values =~= before.string_values + split_common::content(ps, 1));
    assert(out@.numbers =~= before.numbers + split_common::content(ps, 2));
}

/// Routes the content of a string that ends here, and its closing quote.
fn close_string(out: &mut JsonStreams, buf: &mut Vec<u8>, is_key: bool)
    requires
        old(buf)@.len() <= u32::MAX,
    ensures
        final(buf)@ == Seq::<u8>::empty(),
        ({
            let c = if is_key {
                0int
            } else {
                1
            };
            let head = seq![Piece::Frag(c, old(buf)@), Piece::Raw(QUOTE)];
            &&& final(out)@.structural == old(out)@.structural + split_common::marks(head, ids())
            &&& final(out)@.keys == old(out)@.keys + split_common::content(head, 0)
            &&& final(out)@.string_values == old(out)@.string_values + split_common::content(
                head,
                1,
            )
            &&& final(out)@.numbers == old(out)@.numbers + split_common::content(head, 2)
        }),
{
    let ghost before = out@;
    let ghost c = if is_key {
        0int
    } else {
        1
    };
    let ghost head = seq![Piece::Frag(c, buf@), Piece::Raw(QUOTE)];
    proof {
        reveal_with_fuel(split_common::marks, 3);
        reveal_with_fuel(split_common::content, 3);
        assert(head.drop_first() =~= seq![Piece::Raw(QUOTE)]);
        assert(head.drop_first().drop_first() =~= Seq::empty());
    }
    if is_key {
        split_common::emit_marked_fragment(&mut out.structural, &mut out.keys, buf, CHANNEL_KEY);
    } else {
        split_common::emit_marked_fragment(
            &mut out.structural,
            &mut out.string_values,
            buf,
            CHANNEL_VALUE,
        );
    }
    out.structural.push(QUOTE);
    assert(out@.structural =~= before.structural + split_common::marks(head, ids()));
    assert(out@.keys =~= before.keys + split_common::content(head, 0));
    assert(out@.string_values =~= before.string_values + split_common::content(head, 1));
    assert(out@.numbers =~= before.numbers + split_common::content(head, 2));
}

/// Splits `data` (a JSON text block) into four component streams.
///
/// Punctuation, quotes and white space stay in the structural stream; the
/// content of a string is a key where a colon follows it, else a value; every
/// other word is a number.
pub fn split(data: &[u8]) -> (out: JsonStreams)
    requires
        data@.len() <= u32::MAX,
    ensures
        out@ == json_streams(json_split_pieces(data@)),
{
    let mut out = JsonStreams {
        structural: Vec::new(),
        keys: Vec::new(),
        string_values: Vec::new(),
        numbers: Vec::new(),
    };
    let ghost all = json_split_pieces(data@);
    let mut in_string: bool = false;
    let mut in_escape: bool = false;
    let mut buf: Vec<u8> = Vec::new();
    let mut i: usize = 0;
    let ghost mut st = json_start();
    proof {
        assert(data@.skip(0) =~= data@);
        assert(on_track(out@, all, all));
    }
    while i < data.len()
        invariant
            i <= data@.len() <= u32::MAX,
            all == json_split_pieces(data@),
            st == (JsonState { in_string, in_escape, buf: buf@ }),
            buf@.len() <= i,
            in_escape ==> in_string,
            on_track(out@, json_pieces(st, data@.skip(i as int)), all),
        decreases data@.len() - i,
    {
        let ghost rest = data@.skip(i as int);
        let ghost before = out@;
        let b: u8 = data[i];
        let ghost head = json_head(st, rest);
        let ghost next = json_next(st, b);
        proof {
            assert(rest[0] == b);
            assert(rest.drop_first() =~= data@.skip(i + 1));
            reveal_with_fuel(split_common::marks, 3);
            reveal_with_fuel(split_common::content, 3);
        }
        if in_string {
            if in_escape {
                buf.push(b);
                in_escape = false;
            } else if b == QUOTE {
                let is_key: bool = is_key_end(data, i + 1);
                close_string(&mut out, &mut buf, is_key);
                in_string = false;
            } else {
                buf.push(b);
                in_escape = b == BACKSLASH;
            }
        } else if b == QUOTE || exec_is_structure(b) {
            let ghost pending = buf@;
            flush_number(&mut out, &mut buf);
            out.structural.push(b);
            in_string = b == QUOTE;
            proof {
                let raw = seq![Piece::Raw(b)];
                assert(raw.drop_first() =~= Seq::empty());
                split_common::lemma_append(flushed(pending), raw, ids());
                assert(out@.structural =~= before.structural + split_common::marks(head, ids()));
                assert(split_common::content(head, 0) == split_common::content(
                    flushed(pending),
                    0,
                ) + split_common::content(raw, 0));
                assert(split_common::content(head, 1) == split_common::content(
                    flushed(pending),
                    1,
                ) + split_common::content(raw, 1));
                assert(split_common::content(head, 2) == split_common::content(
                    flushed(pending),
                    2,
                ) + split_common::content(raw, 2));
                assert(out@.keys =~= before.keys + split_common::content(head, 0));
                assert(out@.string_values =~= before.string_values + split_common::content(
                    head,
                    1,
                ));
                assert(out@.numbers =~= before.numbers + split_common::content(head, 2));
            }
        } else {
            buf.push(b);
        }
        proof {
            if head.len() == 0 {
                assert(head =~= Seq::empty());
                assert(out@.structural =~= before.structural + split_common::marks(head, ids()));
                assert(out@.keys =~= before.keys + split_common::content(head, 0));
                assert(out@.string_values =~= before.string_values + split_common::content(
                    head,
                    1,
                ));
                assert(out@.numbers =~= before.numbers + split_common::content(head, 2));
            }
            lemma_on_track(before, out@, head, json_pieces(next, data@.skip(i + 1)), all);
            st = next;
            assert(st =~= (JsonState { in_string, in_escape, buf: buf@ }));
        }
        i = i + 1;
    }
    let ghost before = out@;
    proof {
        assert(data@.skip(i as int).len() == 0);
        assert(flushed(st.buf) + Seq::empty() =~= flushed(st.buf));
    }
    flush_number(&mut out, &mut buf);
    proof {
        lemma_on_track(before, out@, flushed(st.buf), Seq::empty(), all);
        assert(out@ =~= json_streams(all));
    }
    out
}

/// Merges the streams without looking at the length of the result.
fn merge_unchecked(streams: &JsonStreams) -> (r: Result<Vec<u8>, RcnError>)
    ensures
        crate::error::outcome(r) == json_unchecked(streams@),
{
    let channel_ids: [u8; 3] = [CHANNEL_KEY, CHANNEL_VALUE, CHANNEL_NUMBER];
    let names: [&str; 3] = ["keys", "string_values", "numbers"];
    let channels: [&[u8]; 3] = [
        streams.keys.as_slice(),
        streams.string_values.as_slice(),
        streams.numbers.as_slice(),
    ];
    proof {
        assert(channel_ids@ =~= ids());
        assert(split_common::views(channels@) =~= json_channels(streams@));
    }
    match split_common::merge_marked(
        streams.structural.as_slice(),
        channel_ids.as_slice(),
        names.as_slice(),
        channels.as_slice(),
    ) {
        Ok(v) => Ok(v),
        Err(MarkError::Truncated(si)) => {
            let mut m = String::from_str("truncated marker at structural offset ");
            text::push_decimal(&mut m, si as u64);
            Err(RcnError::JsonSplitError(m))
        },
        Err(MarkError::Unknown(c, si)) => {
            let mut m = String::from_str("unknown channel byte ");
            text::push_decimal(&mut m, c as u64);
            m.append(" at structural offset ");
            text::push_decimal(&mut m, si as u64);
            Err(RcnError::JsonSplitError(m))
        },
        Err(MarkError::Exhausted(m)) => {
            proof {
                let f = split_common::merged_all(
                    streams@.structural,
                    ids(),
                    json_channels(streams@),
                )->Err_0;
                split_common::lemma_exhausted_channel(
                    streams@.structural,
                    ids(),
                    json_channels(streams@),
                );
                assert(f matches MarkFault::Exhausted(c, start, len) && 0 <= c < 3);
            }
            Err(RcnError::JsonSplitError(m))
        },
    }
}

/// Merges four streams back into the original JSON text of `original_len`
/// bytes.
pub fn merge(streams: &JsonStreams, original_len: usize) -> (r: Result<Vec<u8>, RcnError>)
    ensures
        crate::error::outcome(r) == json_merged(streams@, original_len as int),
{
    let out: Vec<u8> = merge_unchecked(streams)?;
    if out.len() != original_len {
        let mut m = String::from_str("merge produced ");
        text::push_decimal(&mut m, out.len() as u64);
        m.append(" bytes, expected ");
        text::push_decimal(&mut m, original_len as u64);
        return Err(RcnError::JsonSplitError(m));
    }
    Ok(out)
}

/// Fallback merge: as `merge`, without the final length check; streams that
/// cannot be merged give nothing.
pub fn merge_naive(streams: &JsonStreams, _original_len: usize) -> (out: Vec<u8>)
    ensures
        out@ == match json_unchecked(streams@) {
            Ok(t) => t,
            Err(_) => Seq::empty(),
        },
{
    match merge_unchecked(streams) {
        Ok(v) => v,
        Err(_) => Vec::new(),
    }
}

/// Starts with a brace or bracket and has at least two colons and twice as many
/// quotes as colons in its first part.
pub open spec fn json_like(d: Seq<u8>) -> bool {
    let s = split_common::sample(d);
    let idx = split_common::leading_spaces(d);
    let colons = split_common::count_of(s, 0x3A);
    let quotes = split_common::count_of(s, QUOTE);
    &&& d.len() >= 32
    &&& idx < d.len()
    &&& d[idx] == 0x7B || d[idx] == 0x5B
    &&& quotes >= 2 * colons
    &&& colons >= 2
}

/// Checks if data looks like JSON (heuristic for deciding when to split).
pub fn looks_like_json(data: &[u8]) -> (r: bool)
    ensures
        r == json_like(data@),
{
    if data.len() < 32 {
        return false;
    }
    let idx: usize = split_common::skip_ascii_whitespace(data);
    if idx >= data.len() {
        return false;
    }
    let first: u8 = data[idx];
    if first != 0x7B && first != 0x5B {
        return false;
    }
    let part: &[u8] = split_common::sample_prefix(data);
    let colons: usize = split_common::count_byte(part, 0x3A);
    let quotes: usize = split_common::count_byte(part, QUOTE);
    quotes >= 2 * colons && colons >= 2
}

} // verus!
