//! A payload of several coded streams behind one small header:
//! `[original length:u32][selector:u8][length:u32 of all streams but the last][streams]`.

use crate::bwt::frames;
use crate::bytes;
use crate::error::{Fault, RcnError};
use crate::split_common;
use crate::text;
use vstd::prelude::*;
use vstd::string::*;

verus! {

/// The bytes in front of the `n` streams.
pub open spec fn header_len(n: int) -> int {
    5 + 4 * (n - 1)
}

/// The payload of coded streams.
pub open spec fn streams_packed(orig_len: int, selector: u8, enc: Seq<Seq<u8>>) -> Seq<u8> {
    bytes::le32(orig_len) + seq![selector] + frames::words32(frames::lens(enc.drop_last()))
        + frames::concat_upto(enc, enc.len() as int)
}

/// The lengths in the header of a payload of `n` streams.
pub open spec fn stored_lens(p: Seq<u8>, n: int) -> Seq<int> {
    Seq::new((n - 1) as nat, |i: int| bytes::un_le32(p, 5 + 4 * i))
}

/// Where stream `i` of `n` starts.
pub open spec fn stream_start(p: Seq<u8>, n: int, i: int) -> int {
    header_len(n) + frames::sum_upto(stored_lens(p, n), i)
}

/// The streams of a payload; the last one takes what is left.
pub open spec fn stored_streams(p: Seq<u8>, n: int) -> Seq<Seq<u8>> {
    Seq::new(
        n as nat,
        |i: int|
            if i < n - 1 {
                p.subrange(stream_start(p, n, i), stream_start(p, n, i + 1))
            } else {
                p.skip(stream_start(p, n, i))
            },
    )
}

/// What a payload of `n` streams holds: original length, selector, streams.
pub open spec fn streams_unpacked(p: Seq<u8>, n: int) -> Result<(int, u8, Seq<Seq<u8>>), Fault> {
    if n == 0 {
        Err(Fault::CorruptBlock("unpack_marked_streams requires at least one stream"@))
    } else if p.len() < header_len(n) {
        Err(
            Fault::CorruptBlock(
                "structured-split payload truncated: need "@ + text::decimal(header_len(n))
                    + " header bytes, got "@ + text::decimal(p.len() as int),
            ),
        )
    } else if stream_start(p, n, n - 1) > p.len() {
        Err(Fault::CorruptBlock("structured-split stream lengths overrun payload"@))
    } else {
        Ok((bytes::un_le32(p, 0), p[4], stored_streams(p, n)))
    }
}

/// Unpacking gives back what was packed.
pub proof fn law_streams_round_trip(orig_len: int, selector: u8, enc: Seq<Seq<u8>>)
    requires
        0 <= orig_len <= u32::MAX,
        enc.len() > 0,
        forall|i: int| 0 <= i < enc.len() ==> (#[trigger] enc[i]).len() <= u32::MAX,
    ensures
        streams_unpacked(streams_packed(orig_len, selector, enc), enc.len() as int) == Ok::<
            (int, u8, Seq<Seq<u8>>),
            Fault,
        >((orig_len, selector, enc)),
{
    let p = streams_packed(orig_len, selector, enc);
    let n = enc.len() as int;
    let h = header_len(n);
    let ls = frames::lens(enc.drop_last());
    let words = frames::words32(ls);
    let body = frames::concat_upto(enc, n);
    assert(p.subrange(0, 4) =~= bytes::le32(orig_len));
    bytes::lemma_un_le32(p, 0, orig_len);
    assert(p[4] == selector);
    assert(p.subrange(5, 5 + 4 * ls.len() as int) =~= words);
    assert forall|i: int| 0 <= i < n - 1 implies stored_lens(p, n)[i] == frames::lens(enc)[i] by {
        assert(enc.drop_last()[i] == enc[i]);
        frames::lemma_words32(p, 5, ls, i);
    }
    assert(p.skip(h) =~= body);
    assert forall|i: int| 0 <= i < n implies #[trigger] stored_streams(p, n)[i] == enc[i] by {
        frames::lemma_sum_eq(stored_lens(p, n), frames::lens(enc), i);
        frames::lemma_concat_len(enc, i);
        frames::lemma_concat_len(enc, n);
        frames::lemma_concat_part(enc, i, n);
        let a = frames::sum_upto(frames::lens(enc), i);
        if i < n - 1 {
            frames::lemma_sum_eq(stored_lens(p, n), frames::lens(enc), i + 1);
            assert(p.subrange(h + a, h + a + enc[i].len()) =~= body.subrange(a, a + enc[i].len()));
        } else {
            assert(p.skip(h + a) =~= body.subrange(a, a + enc[i].len()));
        }
    }
    assert(stored_streams(p, n) =~= enc);
    frames::lemma_sum_eq(stored_lens(p, n), frames::lens(enc), n - 1);
    frames::lemma_concat_part(enc, n - 1, n);
}

/// Packs coded streams into one payload.
pub fn pack_marked_streams(orig_len: usize, selector: u8, encoded: &[&[u8]]) -> (out: Vec<u8>)
    requires
        orig_len <= u32::MAX,
        encoded@.len() > 0,
        forall|i: int| 0 <= i < encoded@.len() ==> (#[trigger] encoded@[i])@.len() <= u32::MAX,
    ensures
        out@ == streams_packed(orig_len as int, selector, split_common::views(encoded@)),
{
    let ghost enc = split_common::views(encoded@);
    let ghost ls = frames::lens(enc.drop_last());
    let mut out: Vec<u8> = Vec::new();
    bytes::push_u32(&mut out, orig_len as u32);
    out.push(selector);
    let ghost head = bytes::le32(orig_len as int) + seq![selector];
    assert(out@ =~= head);
    let last: usize = encoded.len() - 1;
    let mut i: usize = 0;
    assert(head =~= head + frames::words32(ls.take(0)));
    while i < last
        invariant
            i <= last,
            last == encoded@.len() - 1,
            enc == split_common::views(encoded@),
            ls == frames::lens(enc.drop_last()),
            forall|i: int| 0 <= i < encoded@.len() ==> (#[trigger] encoded@[i])@.len() <= u32::MAX,
            out@ == head + frames::words32(ls.take(i as int)),
        decreases last - i,
    {
        proof {
            frames::lemma_words32_push(ls.take(i as int), ls[i as int]);
            assert(ls.take(i as int).push(ls[i as int]) =~= ls.take(i + 1));
            assert(ls[i as int] == encoded@[i as int]@.len());
        }
        bytes::push_u32(&mut out, encoded[i].len() as u32);
        assert(out@ =~= head + frames::words32(ls.take(i + 1)));
        i = i + 1;
    }
    assert(ls.take(last as int) =~= ls);
    let ghost front = head + frames::words32(ls);
    let mut j: usize = 0;
    assert(front =~= front + frames::concat_upto(enc, 0));
    while j < encoded.len()
        invariant
            j <= encoded@.len(),
            enc == split_common::views(encoded@),
            out@ == front + frames::concat_upto(enc, j as int),
        decreases encoded@.len() - j,
    {
        bytes::push_slice(&mut out, encoded[j]);
        assert(out@ =~= front + frames::concat_upto(enc, j + 1));
        j = j + 1;
    }
    out
}

/// What a parsed payload stands for.
pub open spec fn unpacked_outcome(r: Result<(usize, u8, Vec<&[u8]>), RcnError>) -> Result<
    (int, u8, Seq<Seq<u8>>),
    Fault,
> {
    match r {
        Ok((n, selector, streams)) => Ok((n as int, selector, split_common::views(streams@))),
        Err(e) => Err(e@),
    }
}

/// Inverse of `pack_marked_streams`.
pub fn unpack_marked_streams(payload: &[u8], n_streams: usize) -> (r: Result<
    (usize, u8, Vec<&[u8]>),
    RcnError,
>)
    requires
        header_len(n_streams as int) <= usize::MAX,
    ensures
        unpacked_outcome(r) == streams_unpacked(payload@, n_streams as int),
{
    if n_streams == 0 {
        return Err(
            RcnError::CorruptBlock(
                String::from_str("unpack_marked_streams requires at least one stream"),
            ),
        );
    }
    let ghost p = payload@;
    let ghost n = n_streams as int;
    let ghost ls = stored_lens(p, n);
    let min_len: usize = 5 + 4 * (n_streams - 1);
    let total: usize = payload.len();
    if total < min_len {
        let mut m = String::from_str("structured-split payload truncated: need ");
        text::push_decimal(&mut m, min_len as u64);
        m.append(" header bytes, got ");
        text::push_decimal(&mut m, total as u64);
        return Err(RcnError::CorruptBlock(m));
    }
    let orig_len: usize = bytes::get_u32(payload, 0) as usize;
    let selector: u8 = payload[4];
    let mut streams: Vec<&[u8]> = Vec::new();
    let mut pos: usize = min_len;
    let mut i: usize = 0;
    while i < n_streams - 1
        invariant
            i <= n_streams - 1,
            n == n_streams,
            p == payload@,
            ls == stored_lens(p, n),
            total == p.len(),
            min_len == header_len(n) <= total,
            pos == stream_start(p, n, i as int),
            min_len <= pos <= total,
            streams@.len() == i,
            forall|j: int| 0 <= j < i ==> (#[trigger] streams@[j])@ == stored_streams(p, n)[j],
        decreases n_streams - i,
    {
        let len: usize = bytes::get_u32(payload, 5 + 4 * i) as usize;
        assert(len == ls[i as int]);
        if len > total - pos {
            proof {
                frames::lemma_sum_mono(ls, i + 1, n - 1);
                assert(frames::sum_upto(ls, i + 1) == frames::sum_upto(ls, i as int) + len);
            }
            return Err(
                RcnError::CorruptBlock(
                    String::from_str("structured-split stream lengths overrun payload"),
                ),
            );
        }
        assert(frames::sum_upto(ls, i + 1) == frames::sum_upto(ls, i as int) + len);
        streams.push(vstd::slice::slice_subrange(payload, pos, pos + len));
        pos = pos + len;
        i = i + 1;
    }
    streams.push(vstd::slice::slice_subrange(payload, pos, total));
    assert(p.subrange(pos as int, total as int) =~= p.skip(pos as int));
    assert(split_common::views(streams@) =~= stored_streams(p, n));
    Ok((orig_len, selector, streams))
}

} // verus!
