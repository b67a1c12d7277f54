//! Decompression of a container.

use crate::bwt::pipeline;
use crate::codec::block;
use crate::codec::block::Coder;
use crate::codec::block_code;
use crate::codec::predictor;
use crate::codec::predictor::Step;
use crate::codec::stream;
use crate::container;
use crate::container::{BlockEntry, Header};
use crate::error;
use crate::error::{Fault, RcnError};
use crate::model::xwrt::XwrtDictionary;
use crate::text;
use vstd::prelude::*;
use vstd::string::*;

verus! {

fn entries_overrun(n: u32, start: usize, total: usize) -> (e: RcnError)
    requires
        start <= total,
    ensures
        e@ == Fault::InvalidContainer(stream::table_text(n as int, start as int, total as int)),
{
    let mut m = String::from_str("num_blocks ");
    text::push_decimal(&mut m, n as u64);
    m.append(" requires ");
    text::push_decimal(&mut m, 13 * (n as u64));
    m.append(" entry bytes past offset ");
    text::push_decimal(&mut m, start as u64);
    m.append(", only ");
    text::push_decimal(&mut m, (total - start) as u64);
    m.append(" available");
    RcnError::InvalidContainer(m)
}

fn read_entries(data: &[u8], start: usize, n: usize) -> (r: Vec<BlockEntry>)
    requires
        start + 13 * n <= data@.len(),
    ensures
        r@ == stream::entries_at(data@, start as int, n as int),
{
    let ghost goal = stream::entries_at(data@, start as int, n as int);
    let mut entries: Vec<BlockEntry> = Vec::new();
    let mut pos: usize = start;
    let total: usize = data.len();
    let mut i: usize = 0;
    while i < n
        invariant
            i <= n,
            total == data@.len(),
            start + 13 * n <= total,
            pos == start + 13 * i,
            goal == stream::entries_at(data@, start as int, n as int),
            entries@ =~= goal.take(i as int),
        decreases n - i,
    {
        match BlockEntry::read(data, pos) {
            Ok((e, end)) => {
                entries.push(e);
                pos = end;
            },
            Err(_) => {
                assert(false);
            },
        }
        i = i + 1;
    }
    entries
}

fn decode_blocks<S, F: Fn(S, Step) -> (S, u16)>(
    payloads: &[u8],
    entries: &Vec<BlockEntry>,
    dict: Option<&XwrtDictionary>,
    start: S,
    drive: &F,
) -> (r: Result<Vec<u8>, RcnError>)
    requires
        predictor::drivable::<S, F>(*drive),
    ensures
        error::outcome(r) == stream::blocks_decoded(
            payloads@,
            entries@,
            0,
            0,
            pipeline::dict_view(dict),
            block::fresh(),
            predictor::replies::<S, F>(*drive),
            start,
            Seq::empty(),
        ),
{
    let ghost dv = pipeline::dict_view(dict);
    let ghost f = predictor::replies::<S, F>(*drive);
    let ghost goal = stream::blocks_decoded(
        payloads@,
        entries@,
        0,
        0,
        dv,
        block::fresh(),
        f,
        start,
        Seq::empty(),
    );
    let total: usize = payloads.len();
    let mut st = Coder::new();
    let mut s = start;
    let mut out: Vec<u8> = Vec::new();
    let mut pos: usize = 0;
    let mut i: usize = 0;
    assert(out@ =~= Seq::<u8>::empty());
    while i < entries.len()
        invariant
            i <= entries@.len(),
            total == payloads@.len(),
            pos <= total,
            predictor::drivable::<S, F>(*drive),
            dv == pipeline::dict_view(dict),
            f == predictor::replies::<S, F>(*drive),
            goal == stream::blocks_decoded(
                payloads@,
                entries@,
                0,
                0,
                dv,
                block::fresh(),
                f,
                start,
                Seq::empty(),
            ),
            goal == stream::blocks_decoded(
                payloads@,
                entries@,
                i as int,
                pos as int,
                dv,
                st@,
                f,
                s,
                out@,
            ),
        decreases entries@.len() - i,
    {
        let e = entries[i];
        let len: usize = e.comp_len as usize;
        if len > total - pos {
            return Err(RcnError::TruncatedStream(i));
        }
        let comp = vstd::slice::slice_subrange(payloads, pos, pos + len);
        match block_code::decode_block(
            e.method,
            comp,
            e.orig_len as usize,
            dict,
            &mut st,
            s,
            drive,
        ) {
            Err(x) => {
                return Err(x);
            },
            Ok((b, t)) => {
                let crc: u32 = container::crc32(b.as_slice());
                if crc != e.crc32 {
                    return Err(RcnError::CrcMismatch(i, crc, e.crc32));
                }
                s = t;
                crate::bytes::push_slice(&mut out, b.as_slice());
            },
        }
        pos = pos + len;
        i = i + 1;
    }
    Ok(out)
}

/// Decompresses a container. `drive` follows and predicts, from the state `start`
/// on, the bits of blocks that are coded bit by bit. A malformed container, a
/// corrupt block and a checksum that does not match are errors.
pub fn decompress<S, F: Fn(S, Step) -> (S, u16)>(data: &[u8], start: S, drive: &F) -> (r: Result<
    Vec<u8>,
    RcnError,
>)
    requires
        predictor::drivable::<S, F>(*drive),
    ensures
        error::outcome(r) == stream::decompressed(
            data@,
            predictor::replies::<S, F>(*drive),
            start,
        ),
{
    let (header, pos) = match Header::read(data, 0) {
        Ok(x) => x,
        Err(e) => {
            return Err(e);
        },
    };
    if header.version != container::VERSION {
        let mut m = String::from_str("unsupported version ");
        text::push_decimal(&mut m, header.version as u64);
        return Err(RcnError::InvalidContainer(m));
    }
    let (dict_bytes, at) = match container::read_global_dict(data, pos, header.flags) {
        Ok(x) => x,
        Err(e) => {
            return Err(e);
        },
    };
    let dict = XwrtDictionary::from_bytes(dict_bytes.as_slice());
    let total: usize = data.len();
    assert(at <= total);
    let n: usize = header.num_blocks as usize;
    if n > (total - at) / 13 {
        return Err(entries_overrun(header.num_blocks, at, total));
    }
    let entries = read_entries(data, at, n);
    let payloads = vstd::slice::slice_subrange(data, at + 13 * n, total);
    assert(payloads@ =~= data@.skip(at + 13 * n));
    let dict_ref = dict.as_ref();
    assert(pipeline::dict_view(dict_ref) == stream::read_dict(dict_bytes@));
    decode_blocks(payloads, &entries, dict_ref, start, drive)
}

/// Decompresses a container with a predictor of the caller's own, which must be
/// the one that the container was made with.
pub fn decompress_with<S, F: Fn(S, Step) -> (S, u16)>(data: &[u8], start: S, drive: &F) -> (r:
    Result<Vec<u8>, RcnError>)
    requires
        predictor::drivable::<S, F>(*drive),
    ensures
        error::outcome(r) == stream::decompressed(
            data@,
            predictor::replies::<S, F>(*drive),
            start,
        ),
{
    decompress(data, start, drive)
}

} // verus!
