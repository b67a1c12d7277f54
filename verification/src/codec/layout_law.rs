//! How a container is laid out, which methods its blocks have, and that no part of
//! one is taken for a whole.

use crate::bwt::frames;
use crate::bytes;
use crate::classify::{BlockKind, Measures};
use crate::codec::accept_law;
use crate::codec::block;
use crate::codec::block::CoderView;
use crate::codec::compress;
use crate::codec::compress::BlockDiag;
use crate::codec::method;
use crate::codec::method::CodecMode;
use crate::codec::predictor::Step;
use crate::codec::stream;
use crate::codec::stream::CodedBlock;
use crate::codec::stream_law;
use crate::container;
use crate::error::Fault;
use crate::level;
use crate::level::Level;
use vstd::prelude::*;

verus! {

/// The sum of the sizes that reports give of their blocks.
pub open spec fn sizes_in(ds: Seq<BlockDiag>, k: int) -> int
    decreases k,
{
    if k <= 0 {
        0
    } else {
        sizes_in(ds, k - 1) + ds[k - 1].size_in
    }
}

/// The sum of the sizes that reports give of the payloads.
pub open spec fn sizes_out(ds: Seq<BlockDiag>, k: int) -> int
    decreases k,
{
    if k <= 0 {
        0
    } else {
        sizes_out(ds, k - 1) + ds[k - 1].size_out
    }
}

/// Blocks of coded blocks.
pub open spec fn block_list(blocks: Seq<CodedBlock>) -> Seq<Seq<u8>> {
    Seq::new(blocks.len(), |i: int| blocks[i].block)
}

/// The coded blocks hold the input, one behind the other.
pub proof fn law_blocks_hold_input<S>(
    mode: CodecMode,
    rest: Seq<u8>,
    dict: Option<Seq<Seq<u8>>>,
    seen: spec_fn(Seq<u8>) -> Measures,
    st: CoderView,
    f: spec_fn(S, Step) -> (S, u16),
    s: S,
)
    ensures
        ({
            let all = block_list(stream::blocks_coded(mode, rest, dict, seen, st, f, s));
            frames::concat_upto(all, all.len() as int) == rest
        }),
    decreases rest.len(),
{
    let blocks = stream::blocks_coded(mode, rest, dict, seen, st, f, s);
    let all = block_list(blocks);
    if rest.len() > 0 {
        let m = seen(rest);
        let next = stream::behind_first(mode, rest, m);
        let after = stream::coder_behind(mode, rest, dict, seen, st);
        let t = stream::predictor_behind(mode, rest, dict, seen, st, f, s);
        let tail = block_list(stream::blocks_coded(mode, next, dict, seen, after, f, t));
        let b = stream::first_block(mode, rest, m);
        law_blocks_hold_input(mode, next, dict, seen, after, f, t);
        accept_law::lemma_concat_cons(b, tail, tail.len() as int);
        assert(all =~= seq![b] + tail);
        assert(b + next =~= rest);
    } else {
        assert(all.len() == 0);
        assert(frames::concat_upto(all, 0) =~= rest);
    }
}

proof fn lemma_sums(ds: Seq<BlockDiag>, blocks: Seq<CodedBlock>, k: int)
    requires
        compress::diags_are(ds, blocks),
        0 <= k <= ds.len(),
    ensures
        sizes_in(ds, k) == frames::concat_upto(block_list(blocks), k).len(),
        sizes_out(ds, k) == frames::concat_upto(stream::payload_list(blocks), k).len(),
    decreases k,
{
    if k > 0 {
        lemma_sums(ds, blocks, k - 1);
        assert(compress::diag_is(ds[k - 1], blocks[k - 1]));
    }
}

/// The layout of a container agrees with the reports of its blocks: the magic, the
/// version, the flag of a dictionary, the number of blocks; the dictionary; thirteen
/// bytes of entry for each block, with its method; and the payloads. The reported
/// blocks add up to the input.
pub proof fn law_layout<S>(
    mode: CodecMode,
    buf: Seq<u8>,
    seen: spec_fn(Seq<u8>) -> Measures,
    f: spec_fn(S, Step) -> (S, u16),
    s: S,
    ds: Seq<BlockDiag>,
)
    requires
        buf.len() / 65536 < u32::MAX,
        compress::diags_are(ds, stream::buf_coded(mode, buf, seen, f, s)),
    ensures
        ({
            let out = stream::compressed(mode, buf, seen, f, s);
            let dict = stream::dict_for(mode, buf);
            let front = 11 + stream::dict_part(dict).len() as int;
            let n = ds.len() as int;
            &&& sizes_in(ds, n) == buf.len()
            &&& out.len() == front + 13 * n + sizes_out(ds, n)
            &&& out.take(4) == container::magic()
            &&& out[4] == container::VERSION
            &&& out[5] == (if dict is Some {
                container::FLAG_GLOBAL_DICT
            } else {
                0
            })
            &&& out.subrange(7, 11) == bytes::le32(n)
            &&& out.subrange(11, front) == stream::dict_part(dict)
            &&& forall|i: int| 0 <= i < n ==> (#[trigger] ds[i]).method == out[front + 13 * i + 8]
        }),
{
    let dict = stream::dict_for(mode, buf);
    let blocks = stream::buf_coded(mode, buf, seen, f, s);
    let n = blocks.len() as int;
    let out = stream::compressed(mode, buf, seen, f, s);
    let head = container::header_bytes(stream::header_of(dict, n));
    let front = head + stream::dict_part(dict);
    let es = frames::concat_upto(stream::entry_list(blocks), n);
    let payloads = frames::concat_upto(stream::payload_list(blocks), n);
    stream_law::lemma_blocks_sizes(mode, buf, dict, seen, block::fresh(), f, s);
    law_blocks_hold_input(mode, buf, dict, seen, block::fresh(), f, s);
    lemma_sums(ds, blocks, n);
    stream_law::lemma_entries(front, blocks, payloads);
    assert(head.len() == 11);
    assert(out =~= front + es + payloads);
    assert(out.take(4) =~= container::magic());
    assert(out.subrange(7, 11) =~= bytes::le32(n));
    assert(out.subrange(11, front.len() as int) =~= stream::dict_part(dict));
    assert forall|i: int| 0 <= i < n implies (#[trigger] ds[i]).method == out[front.len() + 13 * i
        + 8] by {
        assert(compress::diag_is(ds[i], blocks[i]));
        let e = stream::entries_at(out, front.len() as int, n)[i];
        assert(e == stream_law::entries(blocks)[i]);
    }
}

/// How many bytes the payloads from number `i` on have.
proof fn lemma_asked_for(blocks: Seq<CodedBlock>, i: int)
    requires
        0 <= i <= blocks.len(),
        forall|k: int|
            0 <= k < blocks.len() ==> (#[trigger] blocks[k]).coded.payload.len() <= u32::MAX,
    ensures
        accept_law::asked_for(stream_law::entries(blocks), i) == frames::concat_upto(
            stream::payload_list(blocks),
            blocks.len() as int,
        ).len() - frames::concat_upto(stream::payload_list(blocks), i).len(),
    decreases blocks.len() - i,
{
    if i < blocks.len() {
        lemma_asked_for(blocks, i + 1);
        assert(stream_law::entries(blocks)[i].comp_len == blocks[i].coded.payload.len());
        assert(stream::payload_list(blocks)[i] == blocks[i].coded.payload);
    }
}

/// What the front of a container reads as, it also reads as in a longer one.
proof fn lemma_prefix_read(d: Seq<u8>, k: int)
    requires
        0 <= k <= d.len(),
    ensures
        container::header_at(d.take(k), 0) is Ok ==> container::header_at(d.take(k), 0)
            == container::header_at(d, 0),
        forall|pos: int, flags: u8|
            0 <= pos && container::dict_at(d.take(k), pos, flags) is Ok
                ==> #[trigger] container::dict_at(d.take(k), pos, flags) == container::dict_at(
                d,
                pos,
                flags,
            ),
        forall|start: int, n: int|
            0 <= start && 0 <= n && start + 13 * n <= k ==> #[trigger] stream::entries_at(
                d.take(k),
                start,
                n,
            ) == stream::entries_at(d, start, n),
{
    let p = d.take(k);
    if container::header_at(p, 0) is Ok {
        assert(p.subrange(0, 4) =~= d.subrange(0, 4));
    }
    assert forall|pos: int, flags: u8|
        0 <= pos && container::dict_at(p, pos, flags) is Ok implies #[trigger] container::dict_at(
        p,
        pos,
        flags,
    ) == container::dict_at(d, pos, flags) by {
        if flags % 2 != 0 {
            let len = bytes::un_le32(p, pos);
            assert(p.subrange(pos + 4, pos + 4 + len) =~= d.subrange(pos + 4, pos + 4 + len));
        }
    }
    assert forall|start: int, n: int|
        0 <= start && 0 <= n && start + 13 * n <= k implies #[trigger] stream::entries_at(
        p,
        start,
        n,
    ) == stream::entries_at(d, start, n) by {
        assert(stream::entries_at(p, start, n) =~= stream::entries_at(d, start, n));
    }
}

/// No proper prefix of a container is accepted, whatever the predictor is. As for
/// the round trip, the words of the dictionary read back as they are.
pub proof fn law_prefix_rejected<S, T>(
    mode: CodecMode,
    buf: Seq<u8>,
    seen: spec_fn(Seq<u8>) -> Measures,
    f: spec_fn(S, Step) -> (S, u16),
    s: S,
    g: spec_fn(T, Step) -> (T, u16),
    t: T,
    k: int,
)
    requires
        buf.len() / 65536 < u32::MAX,
        stream_law::dict_kept(stream::dict_for(mode, buf)),
        0 <= k < stream::compressed(mode, buf, seen, f, s).len(),
    ensures
        stream::decompressed(stream::compressed(mode, buf, seen, f, s).take(k), g, t) is Err,
{
    let dict = stream::dict_for(mode, buf);
    let blocks = stream::buf_coded(mode, buf, seen, f, s);
    let n = blocks.len() as int;
    let d = stream::compressed(mode, buf, seen, f, s);
    let p = d.take(k);
    if stream::decompressed(p, g, t) is Ok {
        let h = stream::header_of(dict, n);
        let front = container::header_bytes(h) + stream::dict_part(dict);
        let es = frames::concat_upto(stream::entry_list(blocks), n);
        let payloads = frames::concat_upto(stream::payload_list(blocks), n);
        stream_law::lemma_blocks_sizes(mode, buf, dict, seen, block::fresh(), f, s);
        stream_law::lemma_entries(front, blocks, payloads);
        stream_law::lemma_front(dict, n, es + payloads);
        assert(d =~= front + (es + payloads));
        assert(d =~= front + es + payloads);
        lemma_prefix_read(d, k);
        accept_law::law_accepted(p, g, t, stream::decompressed(p, g, t)->Ok_0);
        lemma_asked_for(blocks, 0);
        let start = front.len() as int;
        assert(container::header_at(p, 0) == Ok::<(container::Header, int), Fault>((h, 11)));
        assert(container::dict_at(p, 11, h.flags) == container::dict_at(d, 11, h.flags));
        assert(h.num_blocks == n);
        assert(stream::entries_at(p, start, n) == stream_law::entries(blocks));
        assert(frames::concat_upto(stream::payload_list(blocks), 0).len() == 0);
    }
}

/// Whether the method of a block is one that its mode gives to its kind: a random
/// block is stored, the byte-level mode without trials has one method for each other
/// kind, and the default mode codes text byte by byte and binary data and code bit by
/// bit.
pub open spec fn method_fits(mode: CodecMode, b: CodedBlock) -> bool {
    let m = b.coded.method;
    &&& mode != CodecMode::Wire && b.kind == BlockKind::Random ==> m == method::METHOD_COPY
        && b.coded.payload == b.block
    &&& mode == CodecMode::General ==> match b.kind {
        BlockKind::Random => m == method::METHOD_COPY,
        BlockKind::Text => m == method::METHOD_BYTE_TEXT,
        BlockKind::Binary => m == method::METHOD_BYTE_CM,
        BlockKind::Exec => m == method::METHOD_BYTE_EXEC_E8E9,
    }
    &&& mode == CodecMode::Hybrid ==> match b.kind {
        BlockKind::Random => m == method::METHOD_COPY,
        BlockKind::Text => m == method::METHOD_BYTE_CM || m == method::METHOD_BYTE_BWT_MTF_RLE || m
            == method::METHOD_BYTE_LZP_BWT_MTF || m == method::METHOD_BYTE_JSON_SPLIT || m
            == method::METHOD_BYTE_XWRT_BWT_MTF_RLE || m == method::METHOD_BYTE_CSV_SPLIT || m
            == method::METHOD_BYTE_XML_SPLIT,
        BlockKind::Binary => m == method::METHOD_BINARY,
        BlockKind::Exec => m == method::METHOD_EXEC,
    }
    &&& mode == CodecMode::Wire ==> m == method::METHOD_WIRE || (m == method::METHOD_COPY
        && b.coded.payload == b.block)
}

proof fn lemma_methods<S>(
    mode: CodecMode,
    rest: Seq<u8>,
    dict: Option<Seq<Seq<u8>>>,
    seen: spec_fn(Seq<u8>) -> Measures,
    st: CoderView,
    f: spec_fn(S, Step) -> (S, u16),
    s: S,
)
    ensures
        forall|i: int|
            0 <= i < stream::blocks_coded(mode, rest, dict, seen, st, f, s).len() ==> method_fits(
                mode,
                #[trigger] stream::blocks_coded(mode, rest, dict, seen, st, f, s)[i],
            ),
    decreases rest.len(),
{
    if rest.len() > 0 {
        let next = stream::behind_first(mode, rest, seen(rest));
        let after = stream::coder_behind(mode, rest, dict, seen, st);
        let t = stream::predictor_behind(mode, rest, dict, seen, st, f, s);
        lemma_methods(mode, next, dict, seen, after, f, t);
        let all = stream::blocks_coded(mode, rest, dict, seen, st, f, s);
        let tail = stream::blocks_coded(mode, next, dict, seen, after, f, t);
        reveal(block::block_coded);
        assert(method_fits(mode, all[0]));
        assert forall|i: int| 0 <= i < all.len() implies method_fits(mode, #[trigger] all[i]) by {
            if i > 0 {
                assert(all[i] == tail[i - 1]);
            }
        }
    }
}

/// The methods of the blocks of a container, as reported, fit their kinds.
pub proof fn law_methods_by_kind<S>(
    mode: CodecMode,
    buf: Seq<u8>,
    seen: spec_fn(Seq<u8>) -> Measures,
    f: spec_fn(S, Step) -> (S, u16),
    s: S,
    ds: Seq<BlockDiag>,
)
    requires
        compress::diags_are(ds, stream::buf_coded(mode, buf, seen, f, s)),
    ensures
        forall|i: int|
            0 <= i < ds.len() ==> {
                let b = stream::buf_coded(mode, buf, seen, f, s)[i];
                &&& (#[trigger] ds[i]).kind@ == compress::kind_name(b.kind)
                &&& ds[i].method == b.coded.method
                &&& method_fits(mode, b)
                &&& mode != CodecMode::Wire && b.kind == BlockKind::Random ==> ds[i].size_out
                    == ds[i].size_in
            },
{
    let all = stream::buf_coded(mode, buf, seen, f, s);
    lemma_methods(mode, buf, stream::dict_for(mode, buf), seen, block::fresh(), f, s);
    assert forall|i: int| 0 <= i < ds.len() implies {
        &&& (#[trigger] ds[i]).kind@ == compress::kind_name(all[i].kind)
        &&& ds[i].method == all[i].coded.method
        &&& method_fits(mode, all[i])
        &&& mode != CodecMode::Wire && all[i].kind == BlockKind::Random ==> ds[i].size_out
            == ds[i].size_in
    } by {
        assert(compress::diag_is(ds[i], all[i]));
        assert(method_fits(mode, all[i]));
    }
}

/// The modes without trials have no dictionary.
pub proof fn law_no_dictionary<S>(
    mode: CodecMode,
    buf: Seq<u8>,
    seen: spec_fn(Seq<u8>) -> Measures,
    f: spec_fn(S, Step) -> (S, u16),
    s: S,
)
    ensures
        (mode == CodecMode::General || mode == CodecMode::Wire) <==> stream::compressed(
            mode,
            buf,
            seen,
            f,
            s,
        )[5] == 0,
{
}

/// The named levels are modes: the archive level gives the bytes of the default
/// mode.
pub proof fn law_levels_are_modes<S>(
    buf: Seq<u8>,
    seen: spec_fn(Seq<u8>) -> Measures,
    f: spec_fn(S, Step) -> (S, u16),
    s: S,
)
    ensures
        stream::compressed(level::mode_of(Level::Wire), buf, seen, f, s) == stream::compressed(
            CodecMode::Wire,
            buf,
            seen,
            f,
            s,
        ),
        stream::compressed(level::mode_of(Level::General), buf, seen, f, s) == stream::compressed(
            CodecMode::General,
            buf,
            seen,
            f,
            s,
        ),
        stream::compressed(level::mode_of(Level::Archive), buf, seen, f, s) == stream::compressed(
            CodecMode::Hybrid,
            buf,
            seen,
            f,
            s,
        ),
        stream::compressed(level::mode_of(Level::Max), buf, seen, f, s) == stream::compressed(
            CodecMode::Slow,
            buf,
            seen,
            f,
            s,
        ),
{
}

} // verus!
