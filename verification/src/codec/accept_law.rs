//! What a container that is accepted has shown.

use crate::bwt::frames;
use crate::classify::BlockKind;
use crate::codec::block;
use crate::codec::block::CoderView;
use crate::codec::method;
use crate::codec::method::CodecMode;
use crate::codec::predictor::Step;
use crate::codec::stream;
use crate::container;
use crate::container::BlockEntry;
use crate::error::Fault;
use vstd::prelude::*;

verus! {

/// Whether blocks are those of the entries from number `i` on: each has its
/// checksum, and its method is a known one.
pub open spec fn vouched(entries: Seq<BlockEntry>, i: int, blocks: Seq<Seq<u8>>) -> bool {
    &&& blocks.len() == entries.len() - i
    &&& forall|k: int|
        0 <= k < blocks.len() ==> container::crc_of(#[trigger] blocks[k]) == entries[i + k].crc32
            && method::method_kind(entries[i + k].method) is Ok
}

/// How many payload bytes the entries from number `i` on ask for.
pub open spec fn asked_for(entries: Seq<BlockEntry>, i: int) -> int
    decreases entries.len() - i,
{
    if i >= entries.len() {
        0
    } else {
        entries[i].comp_len + asked_for(entries, i + 1)
    }
}

proof fn lemma_known_method<S>(
    m: u8,
    comp: Seq<u8>,
    n: int,
    dict: Option<Seq<Seq<u8>>>,
    st: CoderView,
    f: spec_fn(S, Step) -> (S, u16),
    s: S,
)
    ensures
        block::block_decoded(m, comp, n, dict, st, f, s) is Ok ==> method::method_kind(m) is Ok,
{
    reveal(block::block_decoded);
}

/// A string in front of others.
pub proof fn lemma_concat_cons(b: Seq<u8>, bs: Seq<Seq<u8>>, k: int)
    requires
        0 <= k <= bs.len(),
    ensures
        frames::concat_upto(seq![b] + bs, k + 1) == b + frames::concat_upto(bs, k),
    decreases k,
{
    if k > 0 {
        lemma_concat_cons(b, bs, k - 1);
        assert((seq![b] + bs)[k] == bs[k - 1]);
        assert((b + frames::concat_upto(bs, k - 1)) + bs[k - 1] =~= b + (frames::concat_upto(
            bs,
            k - 1,
        ) + bs[k - 1]));
    } else {
        reveal_with_fuel(frames::concat_upto, 2);
        assert(Seq::<u8>::empty() + b =~= b + Seq::<u8>::empty());
    }
}

proof fn lemma_accepted<S>(
    payloads: Seq<u8>,
    entries: Seq<BlockEntry>,
    i: int,
    pos: int,
    dict: Option<Seq<Seq<u8>>>,
    st: CoderView,
    f: spec_fn(S, Step) -> (S, u16),
    s: S,
    out: Seq<u8>,
) -> (blocks: Seq<Seq<u8>>)
    requires
        0 <= i <= entries.len(),
        0 <= pos <= payloads.len(),
    ensures
        stream::blocks_decoded(payloads, entries, i, pos, dict, st, f, s, out) matches Ok(all) ==> {
            &&& vouched(entries, i, blocks)
            &&& all == out + frames::concat_upto(blocks, blocks.len() as int)
            &&& pos + asked_for(entries, i) <= payloads.len()
        },
    decreases entries.len() - i,
{
    let none = Seq::<Seq<u8>>::empty();
    if i >= entries.len() {
        assert(out + frames::concat_upto(none, 0) =~= out);
        none
    } else {
        let e = entries[i];
        if pos + e.comp_len > payloads.len() {
            none
        } else {
            let comp = payloads.subrange(pos, pos + e.comp_len);
            match block::block_decoded(e.method, comp, e.orig_len as int, dict, st, f, s) {
                Err(_) => none,
                Ok((b, after, t)) => {
                    lemma_known_method(e.method, comp, e.orig_len as int, dict, st, f, s);
                    let rest = lemma_accepted(
                        payloads,
                        entries,
                        i + 1,
                        pos + e.comp_len,
                        dict,
                        after,
                        f,
                        t,
                        out + b,
                    );
                    let blocks = seq![b] + rest;
                    if container::crc_of(b) == e.crc32 && stream::blocks_decoded(
                        payloads,
                        entries,
                        i + 1,
                        pos + e.comp_len,
                        dict,
                        after,
                        f,
                        t,
                        out + b,
                    ) is Ok {
                        lemma_concat_cons(b, rest, rest.len() as int);
                        assert((out + b) + frames::concat_upto(rest, rest.len() as int) =~= out + (b
                            + frames::concat_upto(rest, rest.len() as int)));
                        assert forall|k: int| 0 <= k < blocks.len() implies container::crc_of(
                            #[trigger] blocks[k],
                        ) == entries[i + k].crc32 && method::method_kind(
                            entries[i + k].method,
                        ) is Ok by {
                            if k > 0 {
                                assert(blocks[k] == rest[k - 1]);
                                assert(entries[i + k] == entries[i + 1 + (k - 1)]);
                            }
                        }
                    }
                    blocks
                },
            }
        }
    }
}

/// A container is accepted only if it starts with the magic and a known version,
/// holds the whole of its dictionary, of its block entries and of the payloads
/// that they ask for, and uses known methods only. What comes out then is made of
/// blocks that have the checksums of the entries.
pub proof fn law_accepted<S>(
    data: Seq<u8>,
    f: spec_fn(S, Step) -> (S, u16),
    s: S,
    out: Seq<u8>,
)
    requires
        stream::decompressed(data, f, s) == Ok::<Seq<u8>, Fault>(out),
    ensures
        container::header_at(data, 0) matches Ok((h, pos)) && h.version == container::VERSION && (
        container::dict_at(data, pos, h.flags) matches Ok((_, start)) && {
            let entries = stream::entries_at(data, start, h.num_blocks as int);
            &&& start + 13 * h.num_blocks + asked_for(entries, 0) <= data.len()
            &&& exists|blocks: Seq<Seq<u8>>| #[trigger]
                vouched(entries, 0, blocks) && out == frames::concat_upto(
                    blocks,
                    blocks.len() as int,
                )
        }),
{
    let (h, pos) = container::header_at(data, 0)->Ok_0;
    let (dict_bytes, start) = container::dict_at(data, pos, h.flags)->Ok_0;
    let n = h.num_blocks as int;
    let entries = stream::entries_at(data, start, n);
    let payloads = data.skip(start + 13 * n);
    let none = Seq::<u8>::empty();
    lemma_dict_end(data, pos, h.flags);
    let blocks = lemma_accepted(
        payloads,
        entries,
        0,
        0,
        stream::read_dict(dict_bytes),
        block::fresh(),
        f,
        s,
        none,
    );
    assert(none + frames::concat_upto(blocks, blocks.len() as int) =~= frames::concat_upto(
        blocks,
        blocks.len() as int,
    ));
    assert(vouched(entries, 0, blocks));
}

proof fn lemma_dict_end(data: Seq<u8>, pos: int, flags: u8)
    requires
        0 <= pos,
    ensures
        container::dict_at(data, pos, flags) matches Ok((_, start)) ==> start >= 0,
{
}

/// A random block is stored as it is, but by the hash-chain engine.
pub proof fn law_random_stored<S>(
    mode: CodecMode,
    b: Seq<u8>,
    near_random: bool,
    dict: Option<Seq<Seq<u8>>>,
    st: CoderView,
    f: spec_fn(S, Step) -> (S, u16),
    s: S,
)
    requires
        mode != CodecMode::Wire,
    ensures
        block::block_coded(mode, BlockKind::Random, b, near_random, dict, st, f, s) == block::stored(
            b,
        ),
{
    reveal(block::block_coded);
}

/// The hash-chain engine never makes a block larger.
pub proof fn law_wire_never_grows<S>(
    kind: BlockKind,
    b: Seq<u8>,
    near_random: bool,
    dict: Option<Seq<Seq<u8>>>,
    st: CoderView,
    f: spec_fn(S, Step) -> (S, u16),
    s: S,
)
    ensures
        block::block_coded(CodecMode::Wire, kind, b, near_random, dict, st, f, s).payload.len()
            <= b.len(),
{
    reveal(block::block_coded);
}

} // verus!
