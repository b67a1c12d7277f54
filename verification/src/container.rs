//! The self-describing `RCN1` container.
//!
//! Layout: `[magic:4][header:7][dictionary length:u32][dictionary]`
//! `[block entry:13 per block][block payloads]`. The dictionary and its length
//! are there only if flag bit 0 is set. A block entry holds compressed length,
//! original length, method, and the CRC32 of the original block.

use crate::bytes;
use crate::error::{Fault, RcnError};
use crate::text;
use byteorder::{LittleEndian, ReadBytesExt, WriteBytesExt};
use vstd::prelude::*;
use vstd::string::*;

verus! {

/// The format version.
pub const VERSION: u8 = 1;

/// Flag: the container holds a dictionary.
pub const FLAG_GLOBAL_DICT: u8 = 1;

/// Bytes of magic and header.
pub const HEADER_LEN: usize = 11;

/// Bytes of a block entry.
pub const ENTRY_LEN: usize = 13;

/// `RCN1`.
pub open spec fn magic() -> Seq<u8> {
    seq![0x52u8, 0x43, 0x4E, 0x31]
}

/// Container header, without the magic.
#[derive(Debug, Clone, Copy, PartialEq, Eq, Structural)]
pub struct Header {
    pub version: u8,
    pub flags: u8,
    pub block_size_log: u8,
    pub num_blocks: u32,
}

/// Per-block record: how to find and validate the payload.
#[derive(Debug, Clone, Copy, PartialEq, Eq, Structural)]
pub struct BlockEntry {
    pub comp_len: u32,
    pub orig_len: u32,
    pub method: u8,
    pub crc32: u32,
}

/// Magic and header as bytes.
pub open spec fn header_bytes(h: Header) -> Seq<u8> {
    magic() + seq![h.version, h.flags, h.block_size_log] + bytes::le32(h.num_blocks as int)
}

/// A block entry as bytes.
pub open spec fn entry_bytes(e: BlockEntry) -> Seq<u8> {
    bytes::le32(e.comp_len as int) + bytes::le32(e.orig_len as int) + seq![e.method] + bytes::le32(
        e.crc32 as int,
    )
}

/// What is said of bytes that end too early.
pub open spec fn cut_short() -> Fault {
    Fault::InvalidContainer("failed to fill whole buffer"@)
}

/// The header at a place, and the place behind it.
pub open spec fn header_at(d: Seq<u8>, pos: int) -> Result<(Header, int), Fault> {
    if d.len() < pos + 4 {
        Err(cut_short())
    } else if d.subrange(pos, pos + 4) != magic() {
        Err(Fault::InvalidContainer("bad rcn magic"@))
    } else if d.len() < pos + HEADER_LEN {
        Err(cut_short())
    } else {
        Ok(
            (
                Header {
                    version: d[pos + 4],
                    flags: d[pos + 5],
                    block_size_log: d[pos + 6],
                    num_blocks: bytes::un_le32(d, pos + 7) as u32,
                },
                pos + HEADER_LEN,
            ),
        )
    }
}

/// The block entry whose bytes start at a place.
pub open spec fn entry_read(d: Seq<u8>, pos: int) -> BlockEntry {
    BlockEntry {
        comp_len: bytes::un_le32(d, pos) as u32,
        orig_len: bytes::un_le32(d, pos + 4) as u32,
        method: d[pos + 8],
        crc32: bytes::un_le32(d, pos + 9) as u32,
    }
}

/// The block entry at a place, and the place behind it.
pub open spec fn entry_at(d: Seq<u8>, pos: int) -> Result<(BlockEntry, int), Fault> {
    if d.len() < pos + ENTRY_LEN {
        Err(cut_short())
    } else {
        Ok((entry_read(d, pos), pos + ENTRY_LEN))
    }
}

/// Reading a header gives back what was written.
pub proof fn law_header_round_trip(before: Seq<u8>, h: Header, after: Seq<u8>)
    ensures
        header_at(before + header_bytes(h) + after, before.len() as int) == Ok::<
            (Header, int),
            Fault,
        >((h, before.len() + HEADER_LEN)),
{
    let d = before + header_bytes(h) + after;
    let n = before.len() as int;
    assert(d.subrange(n, n + 4) =~= magic());
    assert(d.subrange(n + 7, n + 11) =~= bytes::le32(h.num_blocks as int));
    bytes::lemma_un_le32(d, n + 7, h.num_blocks as int);
    assert(d[n + 4] == h.version && d[n + 5] == h.flags && d[n + 6] == h.block_size_log);
}

/// Reading a block entry gives back what was written.
pub proof fn law_entry_round_trip(before: Seq<u8>, e: BlockEntry, after: Seq<u8>)
    ensures
        entry_at(before + entry_bytes(e) + after, before.len() as int) == Ok::<
            (BlockEntry, int),
            Fault,
        >((e, before.len() + ENTRY_LEN)),
{
    let d = before + entry_bytes(e) + after;
    let n = before.len() as int;
    assert(d.subrange(n, n + 4) =~= bytes::le32(e.comp_len as int));
    bytes::lemma_un_le32(d, n, e.comp_len as int);
    assert(d.subrange(n + 4, n + 8) =~= bytes::le32(e.orig_len as int));
    bytes::lemma_un_le32(d, n + 4, e.orig_len as int);
    assert(d[n + 8] == e.method);
    assert(d.subrange(n + 9, n + 13) =~= bytes::le32(e.crc32 as int));
    bytes::lemma_un_le32(d, n + 9, e.crc32 as int);
}

/// `WriteBytesExt::write_u32::<LittleEndian>` on a vector: appends the four
/// bytes of `v`, least significant first; writing to memory does not fail.
#[verifier::external_body]
fn write_u32(w: &mut Vec<u8>, v: u32)
    ensures
        final(w)@ == old(w)@ + bytes::le32(v as int),
{
    w.write_u32::<LittleEndian>(v).unwrap();
}

/// `ReadBytesExt::read_u32::<LittleEndian>` on a slice: the number that its
/// first four bytes spell, least significant first, or an error if there are
/// fewer.
#[verifier::external_body]
fn read_u32(data: &[u8]) -> (r: Option<u32>)
    ensures
        r is Some <==> data@.len() >= 4,
        r is Some ==> r.unwrap() == bytes::un_le32(data@, 0),
{
    let mut rest = data;
    rest.read_u32::<LittleEndian>().ok()
}

fn read_u32_at(data: &[u8], pos: usize) -> (v: u32)
    requires
        pos + 4 <= data@.len(),
    ensures
        v == bytes::un_le32(data@, pos as int),
{
    let rest = vstd::slice::slice_subrange(data, pos, data.len());
    assert(rest@.len() >= 4);
    read_u32(rest).unwrap()
}

fn too_short() -> (e: RcnError)
    ensures
        e@ == cut_short(),
{
    RcnError::InvalidContainer(String::from_str("failed to fill whole buffer"))
}

impl Header {
    /// Appends magic and header.
    pub fn write(&self, w: &mut Vec<u8>)
        ensures
            final(w)@ == old(w)@ + header_bytes(*self),
    {
        w.push(0x52);
        w.push(0x43);
        w.push(0x4E);
        w.push(0x31);
        w.push(self.version);
        w.push(self.flags);
        w.push(self.block_size_log);
        write_u32(w, self.num_blocks);
        assert(w@ =~= old(w)@ + header_bytes(*self));
    }

    /// Reads magic and header at `pos`; returns the header and the place behind
    /// it. Bytes that end too early and a bad magic are errors.
    pub fn read(data: &[u8], pos: usize) -> (r: Result<(Self, usize), RcnError>)
        requires
            pos <= data@.len(),
        ensures
            match r {
                Ok((h, end)) => header_at(data@, pos as int) == Ok::<(Header, int), Fault>(
                    (h, end as int),
                ),
                Err(e) => header_at(data@, pos as int) == Err::<(Header, int), Fault>(e@),
            },
    {
        let n: usize = data.len();
        if n - pos < 4 {
            return Err(too_short());
        }
        let ghost m = data@.subrange(pos as int, pos + 4);
        assert(m[0] == data@[pos as int] && m[1] == data@[pos + 1] && m[2] == data@[pos + 2] && m[3]
            == data@[pos + 3]);
        if data[pos] != 0x52 || data[pos + 1] != 0x43 || data[pos + 2] != 0x4E || data[pos + 3]
            != 0x31 {
            assert(m != magic());
            return Err(RcnError::InvalidContainer(String::from_str("bad rcn magic")));
        }
        assert(m =~= magic());
        if n - pos < HEADER_LEN {
            return Err(too_short());
        }
        Ok(
            (
                Header {
                    version: data[pos + 4],
                    flags: data[pos + 5],
                    block_size_log: data[pos + 6],
                    num_blocks: read_u32_at(data, pos + 7),
                },
                pos + HEADER_LEN,
            ),
        )
    }
}

impl BlockEntry {
    /// Appends this entry.
    pub fn write(&self, w: &mut Vec<u8>)
        ensures
            final(w)@ == old(w)@ + entry_bytes(*self),
    {
        write_u32(w, self.comp_len);
        write_u32(w, self.orig_len);
        w.push(self.method);
        write_u32(w, self.crc32);
        assert(w@ =~= old(w)@ + entry_bytes(*self));
    }

    /// Reads an entry at `pos`; returns the entry and the place behind it. Bytes
    /// that end too early are an error.
    pub fn read(data: &[u8], pos: usize) -> (r: Result<(Self, usize), RcnError>)
        requires
            pos <= data@.len(),
        ensures
            match r {
                Ok((e, end)) => entry_at(data@, pos as int) == Ok::<(BlockEntry, int), Fault>(
                    (e, end as int),
                ),
                Err(e) => entry_at(data@, pos as int) == Err::<(BlockEntry, int), Fault>(e@),
            },
    {
        if data.len() - pos < ENTRY_LEN {
            return Err(too_short());
        }
        Ok(
            (
                BlockEntry {
                    comp_len: read_u32_at(data, pos),
                    orig_len: read_u32_at(data, pos + 4),
                    method: data[pos + 8],
                    crc32: read_u32_at(data, pos + 9),
                },
                pos + ENTRY_LEN,
            ),
        )
    }
}

/// The dictionary at a place and the place behind it, if the flag is set.
pub open spec fn dict_at(d: Seq<u8>, pos: int, flags: u8) -> Result<(Seq<u8>, int), Fault> {
    if flags % 2 == 0 {
        Ok((Seq::empty(), pos))
    } else if pos + 4 > d.len() {
        Err(Fault::InvalidContainer("truncated global dictionary length prefix"@))
    } else {
        let len = bytes::un_le32(d, pos);
        if pos + 4 + len > d.len() {
            Err(
                Fault::InvalidContainer(
                    "global dictionary length "@ + text::decimal(len) + " overruns container"@,
                ),
            )
        } else {
            Ok((d.subrange(pos + 4, pos + 4 + len), pos + 4 + len))
        }
    }
}

/// A dictionary with its length in front.
pub open spec fn dict_frame(dict: Seq<u8>) -> Seq<u8> {
    bytes::le32(dict.len() as int) + dict
}

/// Reading a dictionary gives back what was written.
pub proof fn law_dict_frame_round_trip(before: Seq<u8>, dict: Seq<u8>, after: Seq<u8>, flags: u8)
    requires
        dict.len() <= u32::MAX,
        flags % 2 == 1,
    ensures
        dict_at(before + dict_frame(dict) + after, before.len() as int, flags) == Ok::<
            (Seq<u8>, int),
            Fault,
        >((dict, (before.len() + 4 + dict.len()) as int)),
{
    let d = before + dict_frame(dict) + after;
    let n = before.len() as int;
    assert(d.subrange(n, n + 4) =~= bytes::le32(dict.len() as int));
    bytes::lemma_un_le32(d, n, dict.len() as int);
    assert(d.subrange(n + 4, n + 4 + dict.len()) =~= dict);
}

/// Reads the dictionary of a container from `offset` on: its bytes and the place
/// behind it, or nothing and `offset` where the flag is not set. A cut length or
/// a dictionary that overruns the data is an error.
pub fn read_global_dict(data: &[u8], offset: usize, flags: u8) -> (r: Result<
    (Vec<u8>, usize),
    RcnError,
>)
    ensures
        match r {
            Ok((dict, end)) => dict_at(data@, offset as int, flags) == Ok::<(Seq<u8>, int), Fault>(
                (dict@, end as int),
            ),
            Err(e) => dict_at(data@, offset as int, flags) == Err::<(Seq<u8>, int), Fault>(e@),
        },
{
    assert(flags & 1 == flags % 2) by (bit_vector);
    if (flags & FLAG_GLOBAL_DICT) == 0 {
        return Ok((Vec::new(), offset));
    }
    let n: usize = data.len();
    if offset > n || n - offset < 4 {
        return Err(
            RcnError::InvalidContainer(
                String::from_str("truncated global dictionary length prefix"),
            ),
        );
    }
    let len: usize = bytes::get_u32(data, offset) as usize;
    let start: usize = offset + 4;
    if len > n - start {
        let mut m = String::from_str("global dictionary length ");
        text::push_decimal(&mut m, len as u64);
        m.append(" overruns container");
        return Err(RcnError::InvalidContainer(m));
    }
    Ok(
        (
            vstd::slice::slice_to_vec(vstd::slice::slice_subrange(data, start, start + len)),
            start + len,
        ),
    )
}

/// Appends a dictionary with its length; returns the number of bytes written.
pub fn write_global_dict(out: &mut Vec<u8>, dict_bytes: &[u8]) -> (n: usize)
    requires
        dict_bytes@.len() <= u32::MAX - 4,
    ensures
        final(out)@ == old(out)@ + dict_frame(dict_bytes@),
        n == dict_frame(dict_bytes@).len(),
{
    bytes::push_u32(out, dict_bytes.len() as u32);
    bytes::push_slice(out, dict_bytes);
    assert(out@ =~= old(out)@ + dict_frame(dict_bytes@));
    4 + dict_bytes.len()
}

/// One bit of a reflected CRC32 (IEEE).
pub open spec fn crc_bit(c: u32) -> u32 {
    if c % 2 == 1 {
        (c / 2) ^ 0xEDB8_8320
    } else {
        c / 2
    }
}

/// `k` bits of it.
pub open spec fn crc_bits(c: u32, k: nat) -> u32
    decreases k,
{
    if k == 0 {
        c
    } else {
        crc_bits(crc_bit(c), (k - 1) as nat)
    }
}

/// The register behind the first `k` bytes.
pub open spec fn crc_upto(d: Seq<u8>, k: int) -> u32
    decreases k,
{
    if k <= 0 {
        0xFFFF_FFFF
    } else {
        crc_bits(crc_upto(d, k - 1) ^ (d[k - 1] as u32), 8)
    }
}

/// CRC32 (IEEE).
pub open spec fn crc_of(d: Seq<u8>) -> u32 {
    crc_upto(d, d.len() as int) ^ 0xFFFF_FFFF
}

/// CRC32 of `buf`, by `crc32fast::Hasher`: the IEEE polynomial, reflected, with
/// initial value and final complement of all ones.
#[verifier::external_body]
pub fn crc32(buf: &[u8]) -> (r: u32)
    ensures
        r == crc_of(buf@),
{
    let mut h = crc32fast::Hasher::new();
    h.update(buf);
    h.finalize()
}

} // verus!
