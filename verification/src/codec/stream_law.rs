//! Decompressing a container gives back what was compressed.

use crate::bwt::frames;
use crate::bytes;
use crate::classify;
use crate::classify::Measures;
use crate::codec::block;
use crate::codec::block::CoderView;
use crate::codec::block_law;
use crate::codec::method;
use crate::codec::method::CodecMode;
use crate::codec::predictor::Step;
use crate::codec::search;
use crate::codec::stream;
use crate::codec::stream::CodedBlock;
use crate::container;
use crate::container::BlockEntry;
use crate::error::Fault;
use crate::model::xwrt;
use vstd::prelude::*;

verus! {

/// The first block is not empty and not too long.
pub proof fn lemma_first_len(mode: CodecMode, rest: Seq<u8>, seen: classify::Measures)
    requires
        rest.len() > 0,
    ensures
        0 < stream::first_len(mode, rest, seen) <= rest.len(),
        stream::first_len(mode, rest, seen) <= method::MAX_BLOCK,
        stream::first_len(mode, rest, seen) == rest.len() || stream::first_len(mode, rest, seen)
            >= method::MIN_BLOCK,
{
}

/// The numbers of the entries of coded blocks fit, and there are not too many
/// blocks.
pub proof fn lemma_blocks_sizes<S>(
    mode: CodecMode,
    rest: Seq<u8>,
    dict: Option<Seq<Seq<u8>>>,
    seen: spec_fn(Seq<u8>) -> Measures,
    st: CoderView,
    f: spec_fn(S, Step) -> (S, u16),
    s: S,
)
    requires
        st.hist.len() <= search::MATCH_HIST_CAP,
    ensures
        forall|i: int|
            0 <= i < stream::blocks_coded(mode, rest, dict, seen, st, f, s).len() ==> {
                let c = (#[trigger] stream::blocks_coded(
                    mode,
                    rest,
                    dict,
                    seen,
                    st,
                    f,
                    s,
                )[i]).coded;
                c.payload.len() <= u32::MAX && 0 <= c.len <= u32::MAX
            },
        65536 * stream::blocks_coded(mode, rest, dict, seen, st, f, s).len() < rest.len() + 65536,
    decreases rest.len(),
{
    if rest.len() > 0 {
        let m = seen(rest);
        let kind = classify::kind_of(rest, m);
        let b = stream::first_block(mode, rest, m);
        let near = stream::first_random(mode, rest, seen);
        lemma_first_len(mode, rest, m);
        block_law::lemma_coded_sizes(mode, kind, b, near, dict, st, f, s);
        block_law::lemma_payload_len(mode, kind, b, near, dict, st, f, s);
        let next = stream::behind_first(mode, rest, m);
        let after = stream::coder_behind(mode, rest, dict, seen, st);
        let t = stream::predictor_behind(mode, rest, dict, seen, st, f, s);
        lemma_blocks_sizes(mode, next, dict, seen, after, f, t);
        let all = stream::blocks_coded(mode, rest, dict, seen, st, f, s);
        let tail = stream::blocks_coded(mode, next, dict, seen, after, f, t);
        assert forall|i: int| 0 <= i < all.len() implies {
            let c = (#[trigger] all[i]).coded;
            c.payload.len() <= u32::MAX && 0 <= c.len <= u32::MAX
        } by {
            if i > 0 {
                assert(all[i] == tail[i - 1]);
            }
        }
    }
}

/// The entries of coded blocks.
pub open spec fn entries(blocks: Seq<CodedBlock>) -> Seq<BlockEntry> {
    Seq::new(blocks.len(), |i: int| stream::entry_of(blocks[i]))
}

/// Where the payload of block `i` starts.
spec fn payload_start(blocks: Seq<CodedBlock>, i: int) -> int {
    frames::sum_upto(frames::lens(stream::payload_list(blocks)), i)
}

proof fn lemma_one_decoded<S>(
    payloads: Seq<u8>,
    es: Seq<BlockEntry>,
    i: int,
    pos: int,
    dict: Option<Seq<Seq<u8>>>,
    st: CoderView,
    f: spec_fn(S, Step) -> (S, u16),
    s: S,
    out: Seq<u8>,
    b: Seq<u8>,
    after: CoderView,
    t: S,
)
    requires
        0 <= i < es.len(),
        pos + es[i].comp_len <= payloads.len(),
        block::block_decoded(
            es[i].method,
            payloads.subrange(pos, pos + es[i].comp_len),
            es[i].orig_len as int,
            dict,
            st,
            f,
            s,
        ) == Ok::<(Seq<u8>, CoderView, S), Fault>((b, after, t)),
        container::crc_of(b) == es[i].crc32,
    ensures
        stream::blocks_decoded(payloads, es, i, pos, dict, st, f, s, out)
            == stream::blocks_decoded(
            payloads,
            es,
            i + 1,
            pos + es[i].comp_len,
            dict,
            after,
            f,
            t,
            out + b,
        ),
{
}

proof fn lemma_blocks_decoded<S>(
    mode: CodecMode,
    all: Seq<CodedBlock>,
    i: int,
    rest: Seq<u8>,
    dict: Option<Seq<Seq<u8>>>,
    seen: spec_fn(Seq<u8>) -> Measures,
    enc: CoderView,
    dec: CoderView,
    f: spec_fn(S, Step) -> (S, u16),
    s: S,
    out: Seq<u8>,
)
    requires
        0 <= i <= all.len(),
        all.skip(i) == stream::blocks_coded(mode, rest, dict, seen, enc, f, s),
        block::dict_fits(dict),
        block::in_step(mode, enc, dec),
        enc.hist.len() <= search::MATCH_HIST_CAP,
    ensures
        stream::blocks_decoded(
            frames::concat_upto(stream::payload_list(all), all.len() as int),
            entries(all),
            i,
            payload_start(all, i),
            dict,
            dec,
            f,
            s,
            out,
        ) == Ok::<Seq<u8>, Fault>(out + rest),
    decreases rest.len(),
{
    if rest.len() == 0 {
        assert(all.skip(i).len() == 0);
        assert(out + rest =~= out);
    } else {
        let m = seen(rest);
        let kind = classify::kind_of(rest, m);
        let b = stream::first_block(mode, rest, m);
        let near = stream::first_random(mode, rest, seen);
        let next = stream::behind_first(mode, rest, m);
        let after = stream::coder_behind(mode, rest, dict, seen, enc);
        let t = stream::predictor_behind(mode, rest, dict, seen, enc, f, s);
        let list = stream::payload_list(all);
        let n = all.len() as int;
        let e = entries(all)[i];
        lemma_first_len(mode, rest, m);
        assert(all.skip(i).len() > 0);
        assert(all.skip(i)[0] == all[i]);
        assert(all[i] == stream::first_coded(mode, rest, dict, seen, enc, f, s));
        block_law::lemma_coded_sizes(mode, kind, b, near, dict, enc, f, s);
        block_law::lemma_payload_len(mode, kind, b, near, dict, enc, f, s);
        frames::lemma_concat_part(list, i, n);
        frames::lemma_concat_len(list, i);
        assert(list[i] == all[i].coded.payload);
        block_law::law_block_step(mode, kind, b, near, dict, enc, dec, f, s);
        let got = block::block_decoded(
            e.method,
            all[i].coded.payload,
            e.orig_len as int,
            dict,
            dec,
            f,
            s,
        );
        let dec_after = got->Ok_0.1;
        lemma_one_decoded(
            frames::concat_upto(list, n),
            entries(all),
            i,
            payload_start(all, i),
            dict,
            dec,
            f,
            s,
            out,
            b,
            dec_after,
            t,
        );
        assert(all.skip(i + 1) =~= all.skip(i).drop_first());
        assert(stream::blocks_coded(mode, rest, dict, seen, enc, f, s).drop_first()
            =~= stream::blocks_coded(mode, next, dict, seen, after, f, t));
        lemma_blocks_decoded(
            mode,
            all,
            i + 1,
            next,
            dict,
            seen,
            after,
            dec_after,
            f,
            t,
            out + b,
        );
        assert((out + b) + next =~= out + rest);
    }
}

proof fn lemma_entry_lens(list: Seq<Seq<u8>>, k: int)
    requires
        0 <= k <= list.len(),
        forall|i: int| 0 <= i < list.len() ==> (#[trigger] list[i]).len() == 13,
    ensures
        frames::sum_upto(frames::lens(list), k) == 13 * k,
    decreases k,
{
    if k > 0 {
        lemma_entry_lens(list, k - 1);
    }
}

/// The entries stand behind what is in front of them, and the payloads behind
/// them.
pub proof fn lemma_entries(head: Seq<u8>, blocks: Seq<CodedBlock>, tail: Seq<u8>)
    ensures
        ({
            let list = stream::entry_list(blocks);
            let n = blocks.len() as int;
            let d = head + frames::concat_upto(list, n) + tail;
            &&& frames::concat_upto(list, n).len() == 13 * n
            &&& stream::entries_at(d, head.len() as int, n) == entries(blocks)
            &&& d.skip(head.len() + 13 * n) == tail
        }),
{
    let list = stream::entry_list(blocks);
    let n = blocks.len() as int;
    let body = frames::concat_upto(list, n);
    let d = head + body + tail;
    lemma_entry_lens(list, n);
    frames::lemma_concat_len(list, n);
    let got = stream::entries_at(d, head.len() as int, n);
    assert forall|i: int| 0 <= i < n implies got[i] == entries(blocks)[i] by {
        let e = entries(blocks)[i];
        lemma_entry_lens(list, i);
        frames::lemma_concat_part(list, i, n);
        let before = head + body.take(13 * i);
        let after = body.skip(13 * i + 13) + tail;
        assert(body.subrange(13 * i, 13 * i + 13) == container::entry_bytes(e));
        assert(d =~= before + container::entry_bytes(e) + after);
        container::law_entry_round_trip(before, e, after);
        assert(before.len() == head.len() + 13 * i);
    }
    assert(got =~= entries(blocks));
    assert(d.skip(head.len() + 13 * n) =~= tail);
}

/// Whether the dictionary of a container comes back from its bytes.
pub open spec fn dict_kept(dict: Option<Seq<Seq<u8>>>) -> bool {
    dict matches Some(g) ==> {
        &&& xwrt::no_endless_word(g)
        &&& xwrt::words_fit(g)
        &&& xwrt::words_are_text(g)
        &&& g.len() <= xwrt::MAX_XWRT_WORDS
    }
}

proof fn lemma_word_bytes_len(dict: Seq<Seq<u8>>, k: int)
    requires
        0 <= k <= dict.len(),
        xwrt::words_fit(dict),
    ensures
        xwrt::word_bytes(dict, k).len() <= 256 * k,
    decreases k,
{
    if k > 0 {
        lemma_word_bytes_len(dict, k - 1);
        assert(dict[k - 1].len() <= xwrt::MAX_XWRT_WORD_LEN);
    }
}

/// A dictionary that is kept takes little room.
pub proof fn lemma_dict_len(g: Seq<Seq<u8>>)
    requires
        xwrt::words_fit(g),
    ensures
        xwrt::dict_bytes(g).len() <= 300000,
{
    lemma_word_bytes_len(g, xwrt::tried(g));
}

proof fn lemma_header_part(h: container::Header, tail: Seq<u8>)
    ensures
        container::header_at(container::header_bytes(h) + tail, 0) == Ok::<
            (container::Header, int),
            Fault,
        >((h, 11)),
{
    let none = Seq::<u8>::empty();
    container::law_header_round_trip(none, h, tail);
    assert(none + container::header_bytes(h) + tail =~= container::header_bytes(h) + tail);
}

/// What stands in front of the entries is read back.
pub proof fn lemma_front(dict: Option<Seq<Seq<u8>>>, n: int, tail: Seq<u8>)
    requires
        dict_kept(dict),
        0 <= n <= u32::MAX,
    ensures
        ({
            let h = stream::header_of(dict, n);
            let front = container::header_bytes(h) + stream::dict_part(dict);
            let d = front + tail;
            &&& container::header_at(d, 0) == Ok::<(container::Header, int), Fault>((h, 11))
            &&& container::dict_at(d, 11, h.flags) matches Ok((bytes, start)) && start
                == front.len() && stream::read_dict(bytes) == dict
        }),
{
    let h = stream::header_of(dict, n);
    let head = container::header_bytes(h);
    let part = stream::dict_part(dict);
    assert(head + part + tail =~= head + (part + tail));
    lemma_header_part(h, part + tail);
    match dict {
        Some(g) => {
            let bytes = xwrt::dict_bytes(g);
            lemma_dict_len(g);
            xwrt::law_dict_round_trip(g);
            lemma_dict_part(head, bytes, tail);
        },
        None => {
            lemma_no_dict();
        },
    }
}

proof fn lemma_no_dict()
    ensures
        stream::read_dict(Seq::empty()) is None,
{
}

proof fn lemma_dict_part(head: Seq<u8>, bytes: Seq<u8>, tail: Seq<u8>)
    requires
        bytes.len() <= u32::MAX,
        head.len() == 11,
    ensures
        container::dict_at(
            head + container::dict_frame(bytes) + tail,
            11,
            container::FLAG_GLOBAL_DICT,
        ) == Ok::<(Seq<u8>, int), Fault>(
            (bytes, (head + container::dict_frame(bytes)).len() as int),
        ),
{
    container::law_dict_frame_round_trip(head, bytes, tail, container::FLAG_GLOBAL_DICT);
}

proof fn lemma_assembled<S>(
    dict: Option<Seq<Seq<u8>>>,
    blocks: Seq<CodedBlock>,
    f: spec_fn(S, Step) -> (S, u16),
    s: S,
)
    requires
        dict_kept(dict),
        blocks.len() <= u32::MAX,
    ensures
        stream::decompressed(stream::assembled(dict, blocks), f, s) == stream::blocks_decoded(
            frames::concat_upto(stream::payload_list(blocks), blocks.len() as int),
            entries(blocks),
            0,
            0,
            dict,
            block::fresh(),
            f,
            s,
            Seq::empty(),
        ),
{
    let n = blocks.len() as int;
    let front = container::header_bytes(stream::header_of(dict, n)) + stream::dict_part(dict);
    let es = frames::concat_upto(stream::entry_list(blocks), n);
    let payloads = frames::concat_upto(stream::payload_list(blocks), n);
    lemma_entries(front, blocks, payloads);
    lemma_front(dict, n, es + payloads);
    assert(stream::assembled(dict, blocks) =~= front + (es + payloads));
}

/// Decompressing gives back what was compressed: every input in every mode,
/// whatever the measures are, with every predictor that starts from one state on
/// both sides. The words of the dictionary read back as they are: `compress_mode_diag`
/// shows this of every dictionary that it makes, and so promises the round trip of
/// every input.
pub proof fn law_round_trip<S>(
    mode: CodecMode,
    buf: Seq<u8>,
    seen: spec_fn(Seq<u8>) -> Measures,
    f: spec_fn(S, Step) -> (S, u16),
    s: S,
)
    requires
        buf.len() / 65536 < u32::MAX,
        dict_kept(stream::dict_for(mode, buf)),
    ensures
        stream::decompressed(stream::compressed(mode, buf, seen, f, s), f, s) == Ok::<
            Seq<u8>,
            Fault,
        >(buf),
{
    let dict = stream::dict_for(mode, buf);
    let all = stream::buf_coded(mode, buf, seen, f, s);
    let none = Seq::<u8>::empty();
    lemma_blocks_sizes(mode, buf, dict, seen, block::fresh(), f, s);
    lemma_assembled(dict, all, f, s);
    assert(all.skip(0) =~= all);
    assert(none.skip(0) =~= none);
    lemma_blocks_decoded(
        mode,
        all,
        0,
        buf,
        dict,
        seen,
        block::fresh(),
        block::fresh(),
        f,
        s,
        none,
    );
    assert(none + buf =~= buf);
}

} // verus!
