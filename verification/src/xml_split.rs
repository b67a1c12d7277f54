//! XML-aware stream splitting for specialized modeling.
//!
//! A coarse three-way split (tags, attributes, text) by a single-pass scan, no
//! full parser. Markup and the fragment markers live in the tags stream;
//! attributes and text are routed to their own channels.

use crate::bytes;
use crate::error::{Fault, RcnError};
use crate::split_common;
use crate::split_common::{MarkError, MarkFault, Piece};
use crate::text;
use vstd::prelude::*;
use vstd::string::*;

verus! {

/// Channel identifier of attributes (`A`).
pub const CHANNEL_ATTR: u8 = 0x41;

/// Channel identifier of text (`T`).
pub const CHANNEL_TEXT: u8 = 0x54;

/// The byte that opens a tag.
pub const LT: u8 = 0x3C;

/// The byte that closes a tag.
pub const GT: u8 = 0x3E;

/// Three output streams produced by `split`.
#[derive(Debug, Clone, Default, PartialEq, Eq)]
pub struct XmlStreams {
    /// Tag markup and the fragment markers.
    pub tags: Vec<u8>,
    /// Attribute name/value content (inside tags, after the name).
    pub attrs: Vec<u8>,
    /// Text node content between tags.
    pub text: Vec<u8>,
}

/// The three streams as sequences.
#[verifier::ext_equal]
pub struct XmlView {
    pub tags: Seq<u8>,
    pub attrs: Seq<u8>,
    pub text: Seq<u8>,
}

impl View for XmlStreams {
    type V = XmlView;

    open spec fn view(&self) -> XmlView {
        XmlView { tags: self.tags@, attrs: self.attrs@, text: self.text@ }
    }
}

/// The channel identifiers, in the order of the channels.
pub open spec fn ids() -> Seq<u8> {
    seq![CHANNEL_ATTR, CHANNEL_TEXT]
}

/// `/`, `?` or `!`, which may follow the opening of a tag.
pub open spec fn is_opener(b: u8) -> bool {
    b == 0x2F || b == 0x3F || b == 0x21
}

/// White space, `>` or `/`, which end a tag's name.
pub open spec fn ends_name(b: u8) -> bool {
    b == 0x20 || b == 0x09 || b == 0x0A || b == 0x0D || b == GT || b == 0x2F
}

/// `/` or `?`, which belong to the markup when they end the attributes.
pub open spec fn is_closer(b: u8) -> bool {
    b == 0x2F || b == 0x3F
}

/// The length of the name that `d` starts with.
pub open spec fn name_run(d: Seq<u8>) -> int
    decreases d.len(),
{
    if d.len() == 0 || ends_name(d[0]) {
        0
    } else {
        1 + name_run(d.drop_first())
    }
}

/// The length of what stands before the next `>`.
pub open spec fn attr_run(d: Seq<u8>) -> int
    decreases d.len(),
{
    if d.len() == 0 || d[0] == GT {
        0
    } else {
        1 + attr_run(d.drop_first())
    }
}

/// The length of the opener and the name of the tag that goes on with `d`.
pub open spec fn markup_len(d: Seq<u8>) -> int {
    let open = if d.len() > 0 && is_opener(d[0]) {
        1int
    } else {
        0
    };
    open + name_run(d.skip(open))
}

/// The attributes of the tag that goes on with `d`, with a closer.
pub open spec fn attr_part(d: Seq<u8>) -> Seq<u8> {
    let k = markup_len(d);
    d.subrange(k, k + attr_run(d.skip(k)))
}

/// Whether a closer ends the attributes.
pub open spec fn has_closer(a: Seq<u8>) -> bool {
    a.len() > 0 && is_closer(a.last())
}

/// The attributes without a closer.
pub open spec fn attr_body(a: Seq<u8>) -> Seq<u8> {
    if has_closer(a) {
        a.drop_last()
    } else {
        a
    }
}

/// Each byte of `s` as a structural byte.
pub open spec fn raws(s: Seq<u8>) -> Seq<Piece> {
    Seq::new(s.len(), |i: int| Piece::Raw(s[i]))
}

/// A fragment of channel `c`; no content, no fragment.
pub open spec fn fragment(c: int, s: Seq<u8>) -> Seq<Piece> {
    if s.len() == 0 {
        Seq::empty()
    } else {
        seq![Piece::Frag(c, s)]
    }
}

/// The closer, if there is one.
pub open spec fn closer(a: Seq<u8>) -> Seq<u8> {
    if has_closer(a) {
        seq![a.last()]
    } else {
        Seq::empty()
    }
}

/// The `>`, if the tag has one.
pub open spec fn tag_end(d: Seq<u8>) -> Seq<u8> {
    if markup_len(d) + attr_part(d).len() < d.len() {
        seq![GT]
    } else {
        Seq::empty()
    }
}

/// The pieces of the tag that goes on with `d`, behind its `<`.
pub open spec fn tag_pieces(d: Seq<u8>) -> Seq<Piece> {
    raws(d.take(markup_len(d))) + fragment(0, attr_body(attr_part(d))) + raws(
        closer(attr_part(d)) + tag_end(d),
    )
}

/// The length of the tag that goes on with `d`, behind its `<`.
pub open spec fn tag_len(d: Seq<u8>) -> int {
    markup_len(d) + attr_part(d).len() + tag_end(d).len()
}

/// The pieces of `d`, with text pending in `buf`.
pub open spec fn xml_pieces(buf: Seq<u8>, d: Seq<u8>) -> Seq<Piece>
    decreases d.len(),
{
    if d.len() == 0 {
        fragment(1, buf)
    } else if d[0] != LT {
        xml_pieces(buf.push(d[0]), d.drop_first())
    } else {
        let t = d.drop_first();
        if 0 <= tag_len(t) <= t.len() {
            fragment(1, buf) + seq![Piece::Raw(LT)] + tag_pieces(t) + xml_pieces(
                Seq::empty(),
                t.skip(tag_len(t)),
            )
        } else {
            Seq::empty()
        }
    }
}

/// The pieces of a block.
pub open spec fn xml_split_pieces(d: Seq<u8>) -> Seq<Piece> {
    xml_pieces(Seq::empty(), d)
}

/// The streams of a list of pieces.
pub open spec fn xml_streams(ps: Seq<Piece>) -> XmlView {
    XmlView {
        tags: split_common::marks(ps, ids()),
        attrs: split_common::content(ps, 0),
        text: split_common::content(ps, 1),
    }
}

/// The contents of the channels.
pub open spec fn xml_channels(v: XmlView) -> Seq<Seq<u8>> {
    seq![v.attrs, v.text]
}

/// The message about streams that cannot be merged.
pub open spec fn xml_fault_text(v: XmlView, f: MarkFault) -> Seq<char> {
    match f {
        MarkFault::Truncated(si) => "truncated marker at tags offset "@ + text::decimal(si),
        MarkFault::Unknown(c, si) => "unknown channel byte "@ + text::decimal(c as int),
        MarkFault::Exhausted(c, start, len) => split_common::exhausted_text(
            start,
            len,
            xml_channels(v)[c].len() as int,
            if c == 0 {
                "attrs"@
            } else {
                "text"@
            },
        ),
    }
}

/// What the streams merge to as a text of `n` bytes.
pub open spec fn xml_joined(v: XmlView, n: int) -> Result<Seq<u8>, Fault> {
    match split_common::merged_all(v.tags, ids(), xml_channels(v)) {
        Ok(t) => if t.len() == n {
            Ok(t)
        } else {
            Err(
                Fault::XmlSplitError(
                    "merge produced "@ + text::decimal(t.len() as int) + " bytes, expected "@
                        + text::decimal(n),
                ),
            )
        },
        Err(f) => Err(Fault::XmlSplitError(xml_fault_text(v, f))),
    }
}

proof fn lemma_runs(d: Seq<u8>)
    ensures
        0 <= name_run(d) <= d.len(),
        0 <= attr_run(d) <= d.len(),
        attr_run(d) < d.len() ==> d[attr_run(d)] == GT,
    decreases d.len(),
{
    if d.len() > 0 {
        lemma_runs(d.drop_first());
        if d[0] != GT {
            let k = attr_run(d.drop_first());
            if k < d.len() - 1 {
                assert(d.drop_first()[k] == d[k + 1]);
            }
        }
    }
}

proof fn lemma_tag_len(d: Seq<u8>)
    ensures
        0 <= markup_len(d) <= d.len(),
        attr_part(d).len() == attr_run(d.skip(markup_len(d))),
        0 <= tag_len(d) <= d.len(),
        markup_len(d) + attr_part(d).len() <= d.len(),
        markup_len(d) + attr_part(d).len() < d.len() ==> d[markup_len(d) + attr_part(d).len()]
            == GT,
{
    let open = if d.len() > 0 && is_opener(d[0]) {
        1int
    } else {
        0
    };
    lemma_runs(d.skip(open));
    let k = markup_len(d);
    lemma_runs(d.skip(k));
}

proof fn lemma_raws(s: Seq<u8>)
    ensures
        split_common::marks(raws(s), ids()) == s,
        forall|c: int| #[trigger] split_common::content(raws(s), c) == Seq::<u8>::empty(),
        split_common::plain(raws(s)) == s,
    decreases s.len(),
{
    if s.len() > 0 {
        lemma_raws(s.drop_first());
        assert(raws(s).drop_first() =~= raws(s.drop_first()));
        assert(seq![s[0]] + s.drop_first() =~= s);
        assert forall|c: int| #[trigger] split_common::content(raws(s), c) == Seq::<
            u8,
        >::empty() by {
            assert(split_common::content(raws(s.drop_first()), c) == Seq::<u8>::empty());
            assert(split_common::content(raws(s), c) =~= Seq::<u8>::empty());
        }
    } else {
        assert(s =~= Seq::<u8>::empty());
        assert(raws(s) =~= Seq::empty());
    }
}

proof fn lemma_fragment(c: int, s: Seq<u8>)
    ensures
        split_common::plain(fragment(c, s)) == s,
        s.len() > 0 ==> split_common::marks(fragment(c, s), ids()) == split_common::mark_of(
            Piece::Frag(c, s),
            ids(),
        ),
        s.len() == 0 ==> split_common::marks(fragment(c, s), ids()) == Seq::<u8>::empty(),
        forall|k: int|
            #[trigger] split_common::content(fragment(c, s), k) == if k == c {
                s
            } else {
                Seq::empty()
            },
{
    reveal_with_fuel(split_common::plain, 2);
    reveal_with_fuel(split_common::marks, 2);
    reveal_with_fuel(split_common::content, 2);
    if s.len() > 0 {
        let p = seq![Piece::Frag(c, s)];
        assert(p.drop_first() =~= Seq::empty());
        assert(s + Seq::<u8>::empty() =~= s);
        assert(split_common::mark_of(p[0], ids()) + Seq::<u8>::empty() =~= split_common::mark_of(
            p[0],
            ids(),
        ));
        assert forall|k: int| #[trigger] split_common::content(fragment(c, s), k) == (if k == c {
            s
        } else {
            Seq::empty()
        }) by {
            assert(split_common::content_of(p[0], k) + Seq::<u8>::empty()
                =~= split_common::content_of(p[0], k));
        }
    } else {
        assert(s =~= Seq::<u8>::empty());
    }
}

proof fn lemma_tag_plain(d: Seq<u8>)
    ensures
        split_common::plain(tag_pieces(d)) == d.take(tag_len(d)),
{
    lemma_tag_len(d);
    let k = markup_len(d);
    let a = attr_part(d);
    let r1 = raws(d.take(k));
    let f = fragment(0, attr_body(a));
    let r2 = raws(closer(a) + tag_end(d));
    lemma_raws(d.take(k));
    lemma_raws(closer(a) + tag_end(d));
    lemma_fragment(0, attr_body(a));
    split_common::lemma_append(r1 + f, r2, ids());
    split_common::lemma_append(r1, f, ids());
    assert(d.take(k) + attr_body(a) + (closer(a) + tag_end(d)) =~= d.take(tag_len(d)));
}

/// The pieces hold the pending text and the block.
proof fn lemma_xml_plain(buf: Seq<u8>, d: Seq<u8>)
    ensures
        split_common::plain(xml_pieces(buf, d)) == buf + d,
    decreases d.len(),
{
    lemma_fragment(1, buf);
    if d.len() == 0 {
        assert(buf + d =~= buf);
    } else if d[0] != LT {
        lemma_xml_plain(buf.push(d[0]), d.drop_first());
        assert(buf.push(d[0]) + d.drop_first() =~= buf + d);
    } else {
        let t = d.drop_first();
        lemma_tag_len(t);
        let n = tag_len(t);
        let raw = seq![Piece::Raw(LT)];
        let tp = tag_pieces(t);
        let rest = xml_pieces(Seq::empty(), t.skip(n));
        let frag = fragment(1, buf);
        lemma_xml_plain(Seq::empty(), t.skip(n));
        lemma_tag_plain(t);
        split_common::lemma_append(frag + raw + tp, rest, ids());
        split_common::lemma_append(frag + raw, tp, ids());
        split_common::lemma_append(frag, raw, ids());
        lemma_raws(seq![LT]);
        assert(raw =~= raws(seq![LT]));
        assert(buf + seq![LT] + t.take(n) + (Seq::<u8>::empty() + t.skip(n)) =~= buf + d);
    }
}

/// The fragments of a block are short enough.
proof fn lemma_xml_ok(buf: Seq<u8>, d: Seq<u8>)
    requires
        buf.len() + d.len() <= u32::MAX,
    ensures
        split_common::pieces_ok(xml_pieces(buf, d), 2),
    decreases d.len(),
{
    if d.len() == 0 {
    } else if d[0] != LT {
        lemma_xml_ok(buf.push(d[0]), d.drop_first());
    } else {
        let t = d.drop_first();
        lemma_tag_len(t);
        let raw = seq![Piece::Raw(LT)];
        let frag = fragment(1, buf);
        let a = attr_part(t);
        let r1 = raws(t.take(markup_len(t)));
        let f = fragment(0, attr_body(a));
        let r2 = raws(closer(a) + tag_end(t));
        lemma_xml_ok(Seq::empty(), t.skip(tag_len(t)));
        split_common::lemma_pieces_ok_append(r1, f, 2);
        split_common::lemma_pieces_ok_append(r1 + f, r2, 2);
        split_common::lemma_pieces_ok_append(frag, raw, 2);
        split_common::lemma_pieces_ok_append(frag + raw, tag_pieces(t), 2);
        split_common::lemma_pieces_ok_append(
            frag + raw + tag_pieces(t),
            xml_pieces(Seq::empty(), t.skip(tag_len(t))),
            2,
        );
    }
}

/// Joining the streams of a block gives the block back.
pub open spec fn xml_kept(d: Seq<u8>) -> bool {
    d.len() <= u32::MAX && xml_joined(xml_streams(xml_split_pieces(d)), d.len() as int) == Ok::<
        Seq<u8>,
        Fault,
    >(d)
}

/// Every byte of a block stands in one of its pieces.
proof fn lemma_raw_bytes(ps: Seq<Piece>, k: int)
    requires
        0 <= k < ps.len(),
        ps[k] is Raw,
    ensures
        split_common::plain(ps).contains(ps[k]->Raw_0),
    decreases ps.len(),
{
    let rest = split_common::plain(ps.drop_first());
    let first = split_common::text_of(ps[0]);
    let all = split_common::plain(ps);
    assert(all == first + rest);
    if k == 0 {
        assert(all[0] == ps[0]->Raw_0);
    } else {
        lemma_raw_bytes(ps.drop_first(), k - 1);
        assert(ps.drop_first()[k - 1] == ps[k]);
        let j = choose|j: int| 0 <= j < rest.len() && rest[j] == ps[k]->Raw_0;
        assert(all[first.len() + j] == ps[k]->Raw_0);
    }
}

/// Joining the streams of a block without the byte that marks fragments gives the
/// block back, whether it is well formed or not.
pub proof fn law_xml_unmarked(d: Seq<u8>)
    requires
        d.len() <= u32::MAX,
        !d.contains(split_common::MARK_PREFIX),
    ensures
        xml_kept(d),
{
    let ps = xml_split_pieces(d);
    lemma_xml_plain(Seq::empty(), d);
    assert(Seq::<u8>::empty() + d =~= d);
    assert forall|k: int| 0 <= k < ps.len() implies (#[trigger] ps[k] matches Piece::Raw(b) ==> b
        != split_common::MARK_PREFIX) by {
        if ps[k] is Raw {
            lemma_raw_bytes(ps, k);
        }
    }
    law_xml_round_trip(d);
}

/// Streams are never joined to a text of another length: that is an error.
pub proof fn law_xml_length(v: XmlView, n: int)
    ensures
        match xml_joined(v, n) {
            Ok(t) => t.len() == n,
            Err(e) => e is XmlSplitError,
        },
{
}

/// Joining the streams of a block gives the block back, unless a tag's name
/// holds the byte that marks fragments.
pub proof fn law_xml_round_trip(d: Seq<u8>)
    requires
        d.len() <= u32::MAX,
        split_common::raws_ok(xml_split_pieces(d)),
    ensures
        xml_joined(xml_streams(xml_split_pieces(d)), d.len() as int) == Ok::<Seq<u8>, Fault>(d),
{
    let ps = xml_split_pieces(d);
    lemma_xml_plain(Seq::empty(), d);
    lemma_xml_ok(Seq::empty(), d);
    assert(Seq::<u8>::empty() + d =~= d);
    split_common::law_merge_undoes_split(ps, ids());
    assert(xml_channels(xml_streams(ps)) =~= split_common::channels_of(ps, 2));
}

proof fn lemma_piece_count(buf: Seq<u8>, d: Seq<u8>)
    ensures
        xml_pieces(buf, d).len() <= 3 * d.len() + 1,
    decreases d.len(),
{
    if d.len() > 0 {
        if d[0] != LT {
            lemma_piece_count(buf.push(d[0]), d.drop_first());
        } else {
            let t = d.drop_first();
            lemma_tag_len(t);
            let a = attr_part(t);
            assert(closer(a).len() + attr_body(a).len() == a.len());
            assert(tag_pieces(t).len() <= tag_len(t) + 1);
            lemma_piece_count(Seq::empty(), t.skip(tag_len(t)));
        }
    }
}

/// The streams of a block are not much longer than the block.
pub proof fn lemma_xml_sizes(d: Seq<u8>)
    ensures
        xml_streams(xml_split_pieces(d)).tags.len() <= 18 * d.len() + 6,
        xml_streams(xml_split_pieces(d)).attrs.len() <= d.len(),
        xml_streams(xml_split_pieces(d)).text.len() <= d.len(),
{
    let ps = xml_split_pieces(d);
    lemma_xml_plain(Seq::empty(), d);
    lemma_piece_count(Seq::empty(), d);
    split_common::lemma_sizes(ps, ids(), 0);
    split_common::lemma_sizes(ps, ids(), 1);
}

proof fn lemma_pending(buf: Seq<u8>, x: Seq<u8>, t: Seq<u8>)
    requires
        forall|i: int| 0 <= i < x.len() ==> #[trigger] x[i] != 0x3C,
        t.len() > 0 ==> t[0] == 0x3C,
    ensures
        xml_pieces(buf, x + t) == fragment(1, buf + x) + xml_pieces(Seq::empty(), t),
    decreases x.len(),
{
    let d = x + t;
    if x.len() > 0 {
        let rest = x.drop_first();
        assert(d[0] == x[0]);
        assert(d.drop_first() =~= rest + t);
        assert forall|i: int| 0 <= i < rest.len() implies #[trigger] rest[i] != 0x3C by {
            assert(x[i + 1] == rest[i]);
        }
        lemma_pending(buf.push(x[0]), rest, t);
        assert(buf.push(x[0]) + rest =~= buf + x);
    } else {
        assert(d =~= t);
        assert(buf + x =~= buf);
        if t.len() > 0 {
            let u = t.drop_first();
            lemma_tag_len(u);
            let tail = xml_pieces(Seq::empty(), u.skip(tag_len(u)));
            assert(xml_pieces(buf, t) =~= fragment(1, buf) + (seq![Piece::Raw(LT)] + tag_pieces(u)
                + tail));
            assert(xml_pieces(Seq::empty(), t) =~= seq![Piece::Raw(LT)] + tag_pieces(u) + tail);
        } else {
            assert(xml_pieces(Seq::empty(), t) =~= Seq::<Piece>::empty());
            assert(xml_pieces(buf, t) =~= fragment(1, buf));
        }
    }
}

/// Text between tags goes to the text, all of it up to the next `<`; the tags keep a
/// marker with its length.
pub proof fn law_xml_text(x: Seq<u8>, t: Seq<u8>)
    requires
        x.len() > 0,
        forall|i: int| 0 <= i < x.len() ==> #[trigger] x[i] != 0x3C,
        t.len() > 0 ==> t[0] == 0x3C,
    ensures
        ({
            let all = xml_streams(xml_split_pieces(x + t));
            let rest = xml_streams(xml_split_pieces(t));
            &&& all.text == x + rest.text
            &&& all.attrs == rest.attrs
            &&& all.tags == seq![0xFEu8] + bytes::le32(x.len() as int) + seq![0x54u8] + rest.tags
        }),
{
    lemma_pending(Seq::empty(), x, t);
    assert(Seq::<u8>::empty() + x =~= x);
    let rest = xml_split_pieces(t);
    split_common::lemma_append(fragment(1, x), rest, ids());
    lemma_fragment(1, x);
    assert(split_common::content(fragment(1, x) + rest, 0) == split_common::content(
        fragment(1, x),
        0,
    ) + split_common::content(rest, 0));
    assert(split_common::content(fragment(1, x) + rest, 1) == split_common::content(
        fragment(1, x),
        1,
    ) + split_common::content(rest, 1));
    assert(Seq::<u8>::empty() + split_common::content(rest, 0) =~= split_common::content(rest, 0));
    assert(xml_streams(fragment(1, x) + rest).tags =~= seq![0xFEu8] + bytes::le32(x.len() as int)
        + seq![0x54u8] + xml_streams(rest).tags);
}

proof fn lemma_name_run_of(name: Seq<u8>, r: Seq<u8>)
    requires
        forall|i: int| 0 <= i < name.len() ==> !ends_name(#[trigger] name[i]),
        r.len() > 0,
        ends_name(r[0]),
    ensures
        name_run(name + r) == name.len(),
    decreases name.len(),
{
    let d = name + r;
    if name.len() > 0 {
        let rest = name.drop_first();
        assert(d[0] == name[0]);
        assert(d.drop_first() =~= rest + r);
        assert forall|i: int| 0 <= i < rest.len() implies !ends_name(#[trigger] rest[i]) by {
            assert(name[i + 1] == rest[i]);
        }
        lemma_name_run_of(rest, r);
    } else {
        assert(d =~= r);
    }
}

proof fn lemma_attr_run_of(a: Seq<u8>, r: Seq<u8>)
    requires
        forall|i: int| 0 <= i < a.len() ==> #[trigger] a[i] != 0x3E,
        r.len() > 0,
        r[0] == 0x3E,
    ensures
        attr_run(a + r) == a.len(),
    decreases a.len(),
{
    let d = a + r;
    if a.len() > 0 {
        let rest = a.drop_first();
        assert(d[0] == a[0]);
        assert(d.drop_first() =~= rest + r);
        assert forall|i: int| 0 <= i < rest.len() implies #[trigger] rest[i] != 0x3E by {
            assert(a[i + 1] == rest[i]);
        }
        lemma_attr_run_of(rest, r);
    } else {
        assert(d =~= r);
    }
}

proof fn lemma_tag_streams(label: Seq<u8>, body: Seq<u8>, close: Seq<u8>, rest: Seq<Piece>)
    ensures
        ({
            let all = xml_streams(
                seq![Piece::Raw(LT)] + (raws(label) + (fragment(0, body) + (raws(
                    close + seq![GT],
                ) + rest))),
            );
            let mark = if body.len() > 0 {
                seq![0xFEu8] + bytes::le32(body.len() as int) + seq![0x41u8]
            } else {
                Seq::empty()
            };
            &&& all.attrs == body + xml_streams(rest).attrs
            &&& all.text == xml_streams(rest).text
            &&& all.tags == seq![0x3Cu8] + label + mark + close + seq![0x3Eu8] + xml_streams(
                rest,
            ).tags
        }),
{
    let p1 = raws(label);
    let p2 = fragment(0, body);
    let p3 = raws(close + seq![GT]);
    let one = seq![Piece::Raw(LT)];
    split_common::lemma_append(p3, rest, ids());
    split_common::lemma_append(p2, p3 + rest, ids());
    split_common::lemma_append(p1, p2 + (p3 + rest), ids());
    split_common::lemma_append(one, p1 + (p2 + (p3 + rest)), ids());
    lemma_raws(label);
    lemma_raws(close + seq![GT]);
    lemma_fragment(0, body);
    reveal_with_fuel(split_common::marks, 2);
    reveal_with_fuel(split_common::content, 2);
    assert(one.drop_first() =~= Seq::<Piece>::empty());
    let none = Seq::<u8>::empty();
    assert forall|c: int| #[trigger]
        split_common::content(one + (p1 + (p2 + (p3 + rest))), c) == split_common::content(p2, c)
            + split_common::content(rest, c) by {
        let q = split_common::content(rest, c);
        let f = split_common::content(p2, c);
        assert(split_common::content(one, c) =~= none);
        assert(split_common::content(p1, c) == none);
        assert(split_common::content(p3, c) == none);
        assert(split_common::content(p3 + rest, c) == none + q);
        assert(split_common::content(p2 + (p3 + rest), c) == f + (none + q));
        assert(split_common::content(p1 + (p2 + (p3 + rest)), c) == none + (f + (none + q)));
        assert(split_common::content(one + (p1 + (p2 + (p3 + rest))), c) == none + (none + (f + (
        none + q))));
        assert(none + (none + (f + (none + q))) =~= f + q);
    }
    let all = xml_streams(one + (p1 + (p2 + (p3 + rest))));
    assert(split_common::content(p2, 1) == none);
    assert(none + split_common::content(rest, 1) =~= split_common::content(rest, 1));
    assert(split_common::content(p2, 0) == body);
    assert(all.attrs == body + xml_streams(rest).attrs);
    let mark = if body.len() > 0 {
        seq![0xFEu8] + bytes::le32(body.len() as int) + seq![0x41u8]
    } else {
        none
    };
    assert(split_common::marks(p2, ids()) =~= mark);
    assert(all.tags =~= seq![0x3Cu8] + label + mark + close + seq![0x3Eu8] + xml_streams(
        rest,
    ).tags);
}

proof fn lemma_tag_parts(open: Seq<u8>, name: Seq<u8>, a: Seq<u8>, t: Seq<u8>)
    requires
        open.len() == 0 || open.len() == 1 && is_opener(open[0]),
        name.len() > 0,
        forall|i: int| 0 <= i < name.len() ==> !ends_name(#[trigger] name[i]),
        open.len() == 0 ==> !is_opener(name[0]),
        a.len() > 0 ==> ends_name(a[0]),
        forall|i: int| 0 <= i < a.len() ==> #[trigger] a[i] != 0x3E,
    ensures
        ({
            let u = open + name + (a + (seq![0x3Eu8] + t));
            &&& markup_len(u) == open.len() + name.len()
            &&& attr_part(u) == a
            &&& tag_end(u) == seq![GT]
            &&& tag_len(u) == open.len() + name.len() + a.len() + 1
            &&& u.skip(tag_len(u)) == t
            &&& u.take(markup_len(u)) == open + name
            &&& tag_len(u) <= u.len()
        }),
{
    let end = seq![0x3Eu8] + t;
    let tail = a + end;
    let u = open + name + tail;
    let k = open.len() as int;
    assert(tail[0] == if a.len() > 0 {
        a[0]
    } else {
        0x3E
    });
    lemma_name_run_of(name, tail);
    assert(u.skip(k) =~= name + tail);
    assert(u[0] == if k > 0 {
        open[0]
    } else {
        name[0]
    });
    assert(!ends_name(name[0]));
    assert(markup_len(u) == k + name.len());
    let m = markup_len(u);
    assert(u.skip(m) =~= tail);
    lemma_attr_run_of(a, end);
    assert(attr_part(u) =~= a);
    assert(u.skip(tag_len(u)) =~= t);
    assert(u.take(m) =~= open + name);
}

proof fn lemma_tag_shape(
    open: Seq<u8>,
    name: Seq<u8>,
    body: Seq<u8>,
    close: Seq<u8>,
    t: Seq<u8>,
)
    requires
        open.len() == 0 || open.len() == 1 && is_opener(open[0]),
        name.len() > 0,
        forall|i: int| 0 <= i < name.len() ==> !ends_name(#[trigger] name[i]),
        open.len() == 0 ==> !is_opener(name[0]),
        body.len() > 0 ==> ends_name(body[0]),
        body.len() > 0 ==> !is_closer(body.last()),
        forall|i: int| 0 <= i < body.len() ==> #[trigger] body[i] != 0x3E,
        close.len() == 0 || close.len() == 1 && is_closer(close[0]),
        body.len() == 0 && close.len() > 0 ==> ends_name(close[0]),
    ensures
        xml_split_pieces(seq![0x3Cu8] + open + name + body + close + seq![0x3Eu8] + t) == seq![
            Piece::Raw(LT),
        ] + (raws(open + name) + (fragment(0, body) + (raws(close + seq![GT]) + xml_split_pieces(
            t,
        )))),
{
    let a = body + close;
    let u = open + name + (a + (seq![0x3Eu8] + t));
    let d = seq![0x3Cu8] + open + name + body + close + seq![0x3Eu8] + t;
    assert(d =~= seq![0x3Cu8] + u);
    assert(d[0] == 0x3C);
    assert(d.drop_first() =~= u);
    assert forall|i: int| 0 <= i < a.len() implies #[trigger] a[i] != 0x3E by {
        if i < body.len() {
            assert(a[i] == body[i]);
        } else {
            assert(a[i] == close[i - body.len()]);
        }
    }
    assert(a.len() > 0 ==> a[0] == if body.len() > 0 {
        body[0]
    } else {
        close[0]
    });
    lemma_tag_parts(open, name, a, t);
    assert(a.len() > 0 ==> a.last() == if close.len() > 0 {
        close[0]
    } else {
        body.last()
    });
    assert(attr_body(a) =~= body);
    assert(closer(a) =~= close);
    let rest = xml_split_pieces(t);
    let p1 = raws(open + name);
    let p2 = fragment(0, body);
    let p3 = raws(close + seq![GT]);
    assert(tag_pieces(u) == p1 + p2 + p3);
    let one = seq![Piece::Raw(LT)];
    assert(fragment(1, Seq::<u8>::empty()) + one =~= one);
    assert(xml_split_pieces(d) == fragment(1, Seq::<u8>::empty()) + one + tag_pieces(u) + rest);
    assert(one + (p1 + p2 + p3) + rest =~= one + (p1 + (p2 + (p3 + rest))));
}

/// A tag keeps its brackets, its name and a slash or question mark in front of the
/// closing bracket; what stands between goes to the attributes, and the tags keep a
/// marker with its length. `open` is a slash, a question mark or an exclamation mark
/// in front of the name, or nothing; the attributes are empty or start with white
/// space.
pub proof fn law_xml_tags(open: Seq<u8>, name: Seq<u8>, body: Seq<u8>, close: Seq<u8>, t: Seq<u8>)
    requires
        open.len() == 0 || open.len() == 1 && (open[0] == 0x2F || open[0] == 0x3F || open[0]
            == 0x21),
        name.len() > 0,
        forall|i: int|
            0 <= i < name.len() ==> !seq![
                0x20u8,
                0x09u8,
                0x0Au8,
                0x0Du8,
                0x3Eu8,
                0x2Fu8,
            ].contains(#[trigger] name[i]),
        open.len() == 0 ==> name[0] != 0x3F && name[0] != 0x21,
        body.len() > 0 ==> body[0] == 0x20 || body[0] == 0x09 || body[0] == 0x0A || body[0] == 0x0D,
        body.len() > 0 ==> body.last() != 0x2F && body.last() != 0x3F,
        forall|i: int| 0 <= i < body.len() ==> #[trigger] body[i] != 0x3E,
        close.len() == 0 || close.len() == 1 && (close[0] == 0x2F || close[0] == 0x3F && body.len()
            > 0),
    ensures
        ({
            let all = xml_streams(
                xml_split_pieces(
                    seq![0x3Cu8] + open + name + body + close + seq![0x3Eu8] + t,
                ),
            );
            let rest = xml_streams(xml_split_pieces(t));
            let mark = if body.len() > 0 {
                seq![0xFEu8] + bytes::le32(body.len() as int) + seq![0x41u8]
            } else {
                Seq::empty()
            };
            &&& all.attrs == body + rest.attrs
            &&& all.text == rest.text
            &&& all.tags == seq![0x3Cu8] + open + name + mark + close + seq![0x3Eu8] + rest.tags
        }),
{
    let stops = seq![0x20u8, 0x09u8, 0x0Au8, 0x0Du8, 0x3Eu8, 0x2Fu8];
    assert forall|i: int| 0 <= i < name.len() implies !ends_name(#[trigger] name[i]) by {
        assert(!stops.contains(name[i]));
        assert(stops[0] == 0x20 && stops[1] == 0x09 && stops[2] == 0x0A && stops[3] == 0x0D
            && stops[4] == 0x3E && stops[5] == 0x2F);
    }
    assert(!ends_name(name[0]));
    lemma_tag_shape(open, name, body, close, t);
    lemma_tag_streams(open + name, body, close, xml_split_pieces(t));
    assert(seq![0x3Cu8] + (open + name) =~= seq![0x3Cu8] + open + name);
}

impl XmlStreams {
    /// Total length of all three streams combined.
    pub fn total_len(&self) -> (n: usize)
        requires
            self@.tags.len() + self@.attrs.len() + self@.text.len() <= usize::MAX,
        ensures
            n == self@.tags.len() + self@.attrs.len() + self@.text.len(),
    {
        self.tags.len() + self.attrs.len() + self.text.len()
    }
}

/// The streams with those of some more pieces appended.
spec fn extended(out: XmlView, head: Seq<Piece>) -> XmlView {
    XmlView {
        tags: out.tags + split_common::marks(head, ids()),
        attrs: out.attrs + split_common::content(head, 0),
        text: out.text + split_common::content(head, 1),
    }
}

proof fn lemma_extended(out: XmlView, a: Seq<Piece>, b: Seq<Piece>)
    ensures
        extended(out, a + b) == extended(extended(out, a), b),
{
    split_common::lemma_append(a, b, ids());
    assert(split_common::content(a + b, 0) == split_common::content(a, 0) + split_common::content(
        b,
        0,
    ));
    assert(split_common::content(a + b, 1) == split_common::content(a, 1) + split_common::content(
        b,
        1,
    ));
    assert(extended(out, a + b) =~= extended(extended(out, a), b));
}

/// Routes pending text.
fn flush_text(out: &mut XmlStreams, buf: &mut Vec<u8>)
    requires
        old(buf)@.len() <= u32::MAX,
    ensures
        final(buf)@ == Seq::<u8>::empty(),
        final(out)@ == extended(old(out)@, fragment(1, old(buf)@)),
{
    let ghost before = out@;
    let ghost pending = buf@;
    proof {
        lemma_fragment(1, pending);
    }
    if buf.len() > 0 {
        split_common::emit_marked_fragment(&mut out.tags, &mut out.text, buf, CHANNEL_TEXT);
    } else {
        assert(buf@ =~= Seq::<u8>::empty());
    }
    assert(out@ =~= extended(before, fragment(1, pending)));
}

/// Leaves a byte in the tags stream.
fn keep(out: &mut XmlStreams, b: u8)
    ensures
        final(out)@ == extended(old(out)@, raws(seq![b])),
{
    let ghost before = out@;
    out.tags.push(b);
    proof {
        lemma_raws(seq![b]);
        assert(split_common::content(raws(seq![b]), 0) == Seq::<u8>::empty());
        assert(split_common::content(raws(seq![b]), 1) == Seq::<u8>::empty());
    }
    assert(out@ =~= extended(before, raws(seq![b])));
}

/// Leaves bytes in the tags stream.
fn keep_all(out: &mut XmlStreams, s: &[u8])
    ensures
        final(out)@ == extended(old(out)@, raws(s@)),
{
    let ghost before = out@;
    crate::bytes::push_slice(&mut out.tags, s);
    proof {
        lemma_raws(s@);
        assert(split_common::content(raws(s@), 0) == Seq::<u8>::empty());
        assert(split_common::content(raws(s@), 1) == Seq::<u8>::empty());
    }
    assert(out@ =~= extended(before, raws(s@)));
}

fn exec_ends_name(b: u8) -> (r: bool)
    ensures
        r == ends_name(b),
{
    b == 0x20 || b == 0x09 || b == 0x0A || b == 0x0D || b == GT || b == 0x2F
}

/// Routes the tag whose `<` stands before `start`; returns the place behind it.
fn split_tag(data: &[u8], start: usize, out: &mut XmlStreams) -> (end: usize)
    requires
        start <= data@.len() <= u32::MAX,
    ensures
        end == start + tag_len(data@.skip(start as int)),
        start <= end <= data@.len(),
        final(out)@ == extended(old(out)@, tag_pieces(data@.skip(start as int))),
{
    let ghost d = data@.skip(start as int);
    let ghost before = out@;
    proof {
        lemma_tag_len(d);
    }
    let mut i: usize = start;
    if i < data.len() && (data[i] == 0x2F || data[i] == 0x3F || data[i] == 0x21) {
        i = i + 1;
    }
    let ghost open = i - start;
    assert(d.skip(open) =~= data@.skip(i as int));
    let ghost name = name_run(d.skip(open));
    let begin: usize = i;
    while i < data.len() && !exec_ends_name(data[i])
        invariant
            begin <= i <= data@.len(),
            name == i - begin + name_run(data@.skip(i as int)),
        decreases data@.len() - i,
    {
        assert(data@.skip(i as int).drop_first() =~= data@.skip(i + 1));
        i = i + 1;
    }
    let ghost k = markup_len(d);
    assert(i == start + k);
    assert(data@.subrange(start as int, i as int) =~= d.take(k));
    keep_all(out, vstd::slice::slice_subrange(data, start, i));
    assert(d.skip(k) =~= data@.skip(i as int));
    let from: usize = i;
    let ghost run = attr_run(d.skip(k));
    while i < data.len() && data[i] != GT
        invariant
            from <= i <= data@.len(),
            run == i - from + attr_run(data@.skip(i as int)),
        decreases data@.len() - i,
    {
        assert(data@.skip(i as int).drop_first() =~= data@.skip(i + 1));
        i = i + 1;
    }
    let ghost a = attr_part(d);
    assert(data@.subrange(from as int, i as int) =~= a);
    let closed: bool = i > from && (data[i - 1] == 0x2F || data[i - 1] == 0x3F);
    let body_end: usize = if closed {
        i - 1
    } else {
        i
    };
    assert(closed == has_closer(a));
    let mut body: Vec<u8> = vstd::slice::slice_to_vec(
        vstd::slice::slice_subrange(data, from, body_end),
    );
    assert(body@ =~= attr_body(a));
    let ghost first = out@;
    proof {
        lemma_fragment(0, attr_body(a));
    }
    if body.len() > 0 {
        split_common::emit_marked_fragment(&mut out.tags, &mut out.attrs, &mut body, CHANNEL_ATTR);
    }
    assert(out@ =~= extended(first, fragment(0, attr_body(a))));
    let mut last: Vec<u8> = Vec::new();
    if closed {
        last.push(data[i - 1]);
    }
    if i < data.len() {
        last.push(GT);
        i = i + 1;
    }
    assert(last@ =~= closer(a) + tag_end(d));
    keep_all(out, last.as_slice());
    proof {
        let r1 = raws(d.take(k));
        let f = fragment(0, attr_body(a));
        let r2 = raws(closer(a) + tag_end(d));
        lemma_extended(before, r1, f);
        lemma_extended(before, r1 + f, r2);
    }
    i
}

/// Splits `data` into tags / attrs / text streams.
pub fn split(data: &[u8]) -> (out: XmlStreams)
    requires
        data@.len() <= u32::MAX,
    ensures
        out@ == xml_streams(xml_split_pieces(data@)),
{
    let mut out = XmlStreams { tags: Vec::new(), attrs: Vec::new(), text: Vec::new() };
    let ghost all = xml_split_pieces(data@);
    let mut buf: Vec<u8> = Vec::new();
    let mut i: usize = 0;
    proof {
        assert(data@.skip(0) =~= data@);
        assert(extended(out@, all) =~= xml_streams(all));
    }
    while i < data.len()
        invariant
            i <= data@.len() <= u32::MAX,
            buf@.len() <= i,
            extended(out@, xml_pieces(buf@, data@.skip(i as int))) == xml_streams(all),
        decreases data@.len() - i,
    {
        let ghost rest = data@.skip(i as int);
        let ghost before = out@;
        let b: u8 = data[i];
        assert(rest[0] == b);
        assert(rest.drop_first() =~= data@.skip(i + 1));
        if b == LT {
            let ghost pending = buf@;
            let ghost t = rest.drop_first();
            proof {
                lemma_tag_len(t);
            }
            flush_text(&mut out, &mut buf);
            keep(&mut out, LT);
            let end: usize = split_tag(data, i + 1, &mut out);
            proof {
                let a = fragment(1, pending);
                let r = raws(seq![LT]);
                let tp = tag_pieces(t);
                let tail = xml_pieces(Seq::empty(), t.skip(tag_len(t)));
                assert(r =~= seq![Piece::Raw(LT)]);
                lemma_extended(before, a, r);
                lemma_extended(before, a + r, tp);
                lemma_extended(before, a + r + tp, tail);
                assert(t.skip(tag_len(t)) =~= data@.skip(end as int));
            }
            i = end;
        } else {
            buf.push(b);
            i = i + 1;
        }
    }
    let ghost pending = buf@;
    let ghost before = out@;
    assert(data@.skip(i as int).len() == 0);
    flush_text(&mut out, &mut buf);
    out
}

/// Merges streams back into the original XML text of `original_len` bytes.
pub fn join(streams: &XmlStreams, original_len: usize) -> (r: Result<Vec<u8>, RcnError>)
    ensures
        crate::error::outcome(r) == xml_joined(streams@, original_len as int),
{
    let channel_ids: [u8; 2] = [CHANNEL_ATTR, CHANNEL_TEXT];
    let names: [&str; 2] = ["attrs", "text"];
    let channels: [&[u8]; 2] = [streams.attrs.as_slice(), streams.text.as_slice()];
    proof {
        assert(channel_ids@ =~= ids());
        assert(split_common::views(channels@) =~= xml_channels(streams@));
    }
    let out: Vec<u8> = match split_common::merge_marked(
        streams.tags.as_slice(),
        channel_ids.as_slice(),
        names.as_slice(),
        channels.as_slice(),
    ) {
        Ok(v) => v,
        Err(MarkError::Truncated(si)) => {
            let mut m = String::from_str("truncated marker at tags offset ");
            text::push_decimal(&mut m, si as u64);
            return Err(RcnError::XmlSplitError(m));
        },
        Err(MarkError::Unknown(c, _)) => {
            let mut m = String::from_str("unknown channel byte ");
            text::push_decimal(&mut m, c as u64);
            return Err(RcnError::XmlSplitError(m));
        },
        Err(MarkError::Exhausted(m)) => {
            proof {
                let f = split_common::merged_all(
                    streams@.tags,
                    ids(),
                    xml_channels(streams@),
                )->Err_0;
                split_common::lemma_exhausted_channel(
                    streams@.tags,
                    ids(),
                    xml_channels(streams@),
                );
                assert(f matches MarkFault::Exhausted(c, start, len) && 0 <= c < 2);
            }
            return Err(RcnError::XmlSplitError(m));
        },
    };
    if out.len() != original_len {
        let mut m = String::from_str("merge produced ");
        text::push_decimal(&mut m, out.len() as u64);
        m.append(" bytes, expected ");
        text::push_decimal(&mut m, original_len as u64);
        return Err(RcnError::XmlSplitError(m));
    }
    Ok(out)
}

/// Whether splitting `data` keeps all of it: joining its streams gives it back.
pub fn keeps(data: &[u8]) -> (r: bool)
    ensures
        r == xml_kept(data@),
{
    if data.len() as u64 > u32::MAX as u64 {
        return false;
    }
    match join(&split(data), data.len()) {
        Ok(back) => bytes::same(back.as_slice(), data),
        Err(_) => false,
    }
}

/// The three streams of a block: tags, attributes, text.
pub fn split_xml(data: &[u8]) -> (out: Vec<Vec<u8>>)
    requires
        data@.len() <= u32::MAX,
    ensures
        out@.len() == 3,
        (XmlView { tags: out@[0]@, attrs: out@[1]@, text: out@[2]@ }) == xml_streams(
            xml_split_pieces(data@),
        ),
{
    let s = split(data);
    let mut out: Vec<Vec<u8>> = Vec::new();
    out.push(s.tags);
    out.push(s.attrs);
    out.push(s.text);
    out
}

/// Joins three streams as `split_xml` gives them; further streams are ignored.
pub fn join_xml(streams: &[Vec<u8>], original_len: usize) -> (r: Result<Vec<u8>, RcnError>)
    ensures
        crate::error::outcome(r) == if streams@.len() < 3 {
            Err(Fault::XmlSplitError("expected 3 streams (tags, attrs, text)"@))
        } else {
            xml_joined(
                XmlView { tags: streams@[0]@, attrs: streams@[1]@, text: streams@[2]@ },
                original_len as int,
            )
        },
{
    if streams.len() < 3 {
        return Err(
            RcnError::XmlSplitError(String::from_str("expected 3 streams (tags, attrs, text)")),
        );
    }
    let s = XmlStreams {
        tags: vstd::slice::slice_to_vec(streams[0].as_slice()),
        attrs: vstd::slice::slice_to_vec(streams[1].as_slice()),
        text: vstd::slice::slice_to_vec(streams[2].as_slice()),
    };
    join(&s, original_len)
}

/// `<?xml` or `<?XML`.
pub open spec fn has_declaration(d: Seq<u8>, idx: int) -> bool {
    idx + 5 <= d.len() && (d.subrange(idx, idx + 5) == seq![0x3Cu8, 0x3F, 0x78, 0x6D, 0x6C]
        || d.subrange(idx, idx + 5) == seq![0x3Cu8, 0x3F, 0x58, 0x4D, 0x4C])
}

/// How many bytes of `d` are ASCII.
pub open spec fn ascii_count(d: Seq<u8>) -> int
    decreases d.len(),
{
    if d.len() == 0 {
        0
    } else {
        ascii_count(d.drop_last()) + if d.last() < 128 {
            1int
        } else {
            0
        }
    }
}

/// Starts with `<`, and either with an XML declaration or with enough tags in
/// its first part: at least 70 percent ASCII, at least two of each bracket, and
/// about as many opening as closing ones.
pub open spec fn xml_like(d: Seq<u8>) -> bool {
    let idx = split_common::leading_spaces(d);
    let s = split_common::sample(d);
    let lt = split_common::count_of(s, LT);
    let gt = split_common::count_of(s, GT);
    &&& d.len() >= 16
    &&& idx < d.len()
    &&& d[idx] == LT
    &&& has_declaration(d, idx) || {
        &&& ascii_count(s) * 100 / (s.len() as int) >= 70
        &&& lt >= 2
        &&& gt >= 2
        &&& lt - gt <= lt / 2 + 1
        &&& gt - lt <= lt / 2 + 1
    }
}

fn count_ascii(data: &[u8]) -> (n: usize)
    ensures
        n == ascii_count(data@),
        n <= data@.len(),
{
    let mut n: usize = 0;
    let mut i: usize = 0;
    assert(data@.take(0) =~= Seq::<u8>::empty());
    while i < data.len()
        invariant
            i <= data@.len(),
            n <= i,
            n == ascii_count(data@.take(i as int)),
        decreases data@.len() - i,
    {
        assert(data@.take(i + 1).drop_last() =~= data@.take(i as int));
        if data[i] < 128 {
            n = n + 1;
        }
        i = i + 1;
    }
    assert(data@.take(i as int) =~= data@);
    n
}

/// Heuristic: starts with `<`, has a declaration or tag-like structure.
pub fn looks_like_xml(data: &[u8]) -> (r: bool)
    ensures
        r == xml_like(data@),
{
    if data.len() < 16 {
        return false;
    }
    let idx: usize = split_common::skip_ascii_whitespace(data);
    if idx >= data.len() || data[idx] != LT {
        return false;
    }
    if data.len() - idx >= 5 {
        let ghost five = data@.subrange(idx as int, idx + 5);
        assert(five[0] == data@[idx as int] && five[1] == data@[idx + 1] && five[2] == data@[idx
            + 2] && five[3] == data@[idx + 3] && five[4] == data@[idx + 4]);
        let lower: bool = data[idx + 1] == 0x3F && data[idx + 2] == 0x78 && data[idx + 3] == 0x6D
            && data[idx + 4] == 0x6C;
        let upper: bool = data[idx + 1] == 0x3F && data[idx + 2] == 0x58 && data[idx + 3] == 0x4D
            && data[idx + 4] == 0x4C;
        assert(lower ==> five =~= seq![0x3Cu8, 0x3F, 0x78, 0x6D, 0x6C]);
        assert(upper ==> five =~= seq![0x3Cu8, 0x3F, 0x58, 0x4D, 0x4C]);
        if lower || upper {
            return true;
        }
        assert(!has_declaration(data@, idx as int));
    }
    let part: &[u8] = split_common::sample_prefix(data);
    let ascii: usize = count_ascii(part);
    if ascii * 100 / part.len() < 70 {
        return false;
    }
    let lt: usize = split_common::count_byte(part, LT);
    let gt: usize = split_common::count_byte(part, GT);
    if lt < 2 || gt < 2 {
        return false;
    }
    let diff: usize = if lt > gt {
        lt - gt
    } else {
        gt - lt
    };
    diff <= lt / 2 + 1
}

} // verus!
