//! Stages in a row, the choice of the smallest form, and form selectors.

use crate::bwt::lzp;
use crate::bwt::mtf;
use crate::bwt::rle;
use crate::bwt::rotation;
use crate::bytes;
use crate::error;
use crate::error::{Fault, RcnError};
use vstd::prelude::*;

verus! {

/// The transform, move-to-front and zero-run coding in a row.
pub open spec fn bwt_mtf_rle_coded(d: Seq<u8>) -> Seq<u8> {
    rle::rle0_coded(mtf::mtf_coded(rotation::bwt_coded(d)))
}

/// The transform and move-to-front in a row.
pub open spec fn bwt_mtf_coded(d: Seq<u8>) -> Seq<u8> {
    mtf::mtf_coded(rotation::bwt_coded(d))
}

/// The transformed stream below zero-run coding and move-to-front.
pub open spec fn below_rle(s: Seq<u8>) -> Seq<u8> {
    mtf::mtf_plain(rle::rle0_plain(s))
}

/// Whether the doubled stream fits a suffix array.
pub open spec fn sortable(d: Seq<u8>) -> bool {
    2 * d.len() < i32::MAX
}

/// Whether a stream fits every stage that may code it.
#[verifier::opaque]
pub open spec fn stream_fits(d: Seq<u8>) -> bool {
    sortable(d) && sortable(lzp::lzp_coded(d))
}

/// Undoing transform, move-to-front and zero-run coding gives the data back.
pub proof fn law_bwt_mtf_rle_round_trip(d: Seq<u8>)
    requires
        d.len() <= u32::MAX,
    ensures
        rotation::primary_ok(below_rle(bwt_mtf_rle_coded(d))),
        rotation::bwt_plain(below_rle(bwt_mtf_rle_coded(d))) == d,
{
    rle::law_rle0_round_trip(mtf::mtf_coded(rotation::bwt_coded(d)));
    mtf::law_mtf_round_trip(rotation::bwt_coded(d));
    rotation::law_bwt_round_trip(d);
}

/// Undoing transform and move-to-front gives the data back.
pub proof fn law_bwt_mtf_round_trip(d: Seq<u8>)
    requires
        d.len() <= u32::MAX,
    ensures
        rotation::primary_ok(mtf::mtf_plain(bwt_mtf_coded(d))),
        rotation::bwt_plain(mtf::mtf_plain(bwt_mtf_coded(d))) == d,
{
    mtf::law_mtf_round_trip(rotation::bwt_coded(d));
    rotation::law_bwt_round_trip(d);
}

/// Full encode pipeline: transform, move-to-front, zero-run coding.
pub fn bwt_mtf_rle_encode(data: &[u8]) -> (out: Vec<u8>)
    requires
        sortable(data@),
    ensures
        out@ == bwt_mtf_rle_coded(data@),
{
    let bwt = rotation::bwt_forward(data);
    let ranks = mtf::mtf_transform(bwt.as_slice());
    rle::rle0(ranks.as_slice())
}

/// Full decode pipeline: the inverse stages in opposite order.
pub fn bwt_mtf_rle_decode(data: &[u8]) -> (out: Vec<u8>)
    requires
        rotation::primary_ok(below_rle(data@)),
    ensures
        out@ == rotation::bwt_plain(below_rle(data@)),
{
    let ranks = rle::rle0_inverse(data);
    let bwt = mtf::mtf_inverse(ranks.as_slice());
    rotation::bwt_inverse(bwt.as_slice())
}

/// Transform and move-to-front without zero-run coding.
pub fn bwt_mtf_encode(data: &[u8]) -> (out: Vec<u8>)
    requires
        sortable(data@),
    ensures
        out@ == bwt_mtf_coded(data@),
{
    let bwt = rotation::bwt_forward(data);
    mtf::mtf_transform(bwt.as_slice())
}

/// Inverse of `bwt_mtf_encode`.
pub fn bwt_mtf_decode(data: &[u8]) -> (out: Vec<u8>)
    requires
        rotation::primary_ok(mtf::mtf_plain(data@)),
    ensures
        out@ == rotation::bwt_plain(mtf::mtf_plain(data@)),
{
    let bwt = mtf::mtf_inverse(data);
    rotation::bwt_inverse(bwt.as_slice())
}

/// A transformed stream whose primary index lies outside it.
pub open spec fn bad_primary() -> Fault {
    Fault::CorruptBlock("bwt primary index out of range"@)
}

/// What a transformed stream stands for, if its primary index lies within it.
pub open spec fn unrotated(s: Seq<u8>) -> Result<Seq<u8>, Fault> {
    if rotation::primary_ok(s) {
        Ok(rotation::bwt_plain(s))
    } else {
        Err(bad_primary())
    }
}

fn exec_primary_ok(s: &[u8]) -> (r: bool)
    ensures
        r == rotation::primary_ok(s@),
{
    let n: usize = s.len();
    n <= 4 || (bytes::get_u32(s, n - 4) as usize) < n - 4
}

fn unrotate(s: &[u8]) -> (r: Result<Vec<u8>, RcnError>)
    ensures
        error::outcome(r) == unrotated(s@),
{
    if exec_primary_ok(s) {
        Ok(rotation::bwt_inverse(s))
    } else {
        Err(error::corrupt("bwt primary index out of range"))
    }
}

/// What a stream of transform, move-to-front and zero-run coding stands for.
pub open spec fn rle_path_plain(s: Seq<u8>) -> Result<Seq<u8>, Fault> {
    unrotated(below_rle(s))
}

/// What a stream of filter, transform and move-to-front stands for.
pub open spec fn lzp_path_plain(s: Seq<u8>) -> Result<Seq<u8>, Fault> {
    match unrotated(mtf::mtf_plain(s)) {
        Ok(t) => Ok(lzp::lzp_plain(t)),
        Err(e) => Err(e),
    }
}

/// Undoes `bwt_mtf_rle_encode`, with an error where the primary index is bad.
pub fn rle_path_decode(data: &[u8]) -> (r: Result<Vec<u8>, RcnError>)
    ensures
        error::outcome(r) == rle_path_plain(data@),
{
    let ranks = rle::rle0_inverse(data);
    let bwt = mtf::mtf_inverse(ranks.as_slice());
    unrotate(bwt.as_slice())
}

/// Undoes filter, transform and move-to-front, with an error where the primary
/// index is bad.
pub fn lzp_path_decode(data: &[u8], orig_len: usize) -> (r: Result<Vec<u8>, RcnError>)
    ensures
        error::outcome(r) == lzp_path_plain(data@),
{
    let bwt = mtf::mtf_inverse(data);
    match unrotate(bwt.as_slice()) {
        Ok(tokens) => Ok(lzp::lzp_decode(tokens.as_slice(), orig_len)),
        Err(e) => Err(e),
    }
}

/// The filter, transform and move-to-front in a row.
pub open spec fn lzp_path_coded(d: Seq<u8>) -> Seq<u8> {
    bwt_mtf_coded(lzp::lzp_coded(d))
}

/// Undoing filter, transform and move-to-front gives the data back.
pub proof fn law_lzp_path_round_trip(d: Seq<u8>)
    requires
        d.len() <= i32::MAX,
        lzp::lzp_coded(d).len() <= u32::MAX,
    ensures
        lzp_path_plain(lzp_path_coded(d)) == Ok::<Seq<u8>, Fault>(d),
{
    law_bwt_mtf_round_trip(lzp::lzp_coded(d));
    lzp::law_lzp_round_trip(d);
}

/// The smallest form of a stream and its number: 1 for transform,
/// move-to-front and zero-run coding, 2 for filter, transform and
/// move-to-front, 0 for the stream itself. A coded form wins a tie.
#[verifier::opaque]
pub open spec fn picked(d: Seq<u8>) -> (u8, Seq<u8>) {
    let b = bwt_mtf_rle_coded(d);
    let l = lzp_path_coded(d);
    if b.len() <= d.len() && b.len() <= l.len() {
        (1, b)
    } else if l.len() <= d.len() && l.len() <= b.len() {
        (2, l)
    } else {
        (0, d)
    }
}

/// What the form with a given number stands for.
#[verifier::opaque]
pub open spec fn picked_plain(s: Seq<u8>, pipe: u8) -> Result<Seq<u8>, Fault> {
    if pipe == 0 {
        Ok(s)
    } else if pipe == 1 {
        rle_path_plain(s)
    } else {
        lzp_path_plain(s)
    }
}

/// The smallest form stands for the stream and is not longer.
pub proof fn law_pick_round_trip(d: Seq<u8>)
    requires
        stream_fits(d),
    ensures
        picked(d).0 <= 2,
        picked(d).1.len() <= d.len() <= u32::MAX,
        picked_plain(picked(d).1, picked(d).0) == Ok::<Seq<u8>, Fault>(d),
{
    reveal(stream_fits);
    reveal(picked);
    reveal(picked_plain);
    law_bwt_mtf_rle_round_trip(d);
    law_lzp_path_round_trip(d);
}

/// No form of a stream is shorter than the one that is picked: neither the stream, nor
/// its sorted, ranked and run-length coded form, nor its filtered, sorted and ranked
/// form.
pub proof fn law_shortest_form(d: Seq<u8>)
    ensures
        picked(d).1.len() <= d.len(),
        picked(d).1.len() <= rle::rle0_coded(mtf::mtf_coded(rotation::bwt_coded(d))).len(),
        picked(d).1.len() <= mtf::mtf_coded(rotation::bwt_coded(lzp::lzp_coded(d))).len(),
        picked(d).0 == 0 ==> picked(d).1 == d,
        picked(d).0 == 0 <==> rle::rle0_coded(mtf::mtf_coded(rotation::bwt_coded(d))).len()
            > d.len() && mtf::mtf_coded(rotation::bwt_coded(lzp::lzp_coded(d))).len() > d.len(),
        picked(d).0 == 1 ==> picked(d).1 == rle::rle0_coded(
            mtf::mtf_coded(rotation::bwt_coded(d)),
        ),
        picked(d).0 == 2 ==> picked(d).1 == mtf::mtf_coded(
            rotation::bwt_coded(lzp::lzp_coded(d)),
        ),
{
    reveal(picked);
}

/// The form that is picked for each stream.
pub open spec fn pipes_of(streams: Seq<Seq<u8>>) -> Seq<u8> {
    Seq::new(streams.len(), |i: int| picked(streams[i]).0)
}

/// The smallest form of each stream.
pub open spec fn bodies_of(streams: Seq<Seq<u8>>) -> Seq<Seq<u8>> {
    Seq::new(streams.len(), |i: int| picked(streams[i]).1)
}

/// Whether every stream fits the stages that may code it.
pub open spec fn streams_fit(streams: Seq<Seq<u8>>) -> bool {
    forall|i: int| 0 <= i < streams.len() ==> stream_fits(#[trigger] streams[i])
}

/// A stream whose longest coded form can be doubled fits every stage.
pub proof fn lemma_stream_fits(d: Seq<u8>)
    requires
        d.len() <= 536870907,
    ensures
        stream_fits(d),
{
    reveal(stream_fits);
    lzp::law_lzp_round_trip(d);
}

/// Picks the smallest form of one stream.
pub fn encode_stream_pick(data: &[u8]) -> (r: (u8, Vec<u8>))
    requires
        stream_fits(data@),
    ensures
        (r.0, r.1@) == picked(data@),
{
    proof {
        reveal(stream_fits);
        reveal(picked);
    }
    let raw_len: usize = data.len();
    let b = bwt_mtf_rle_encode(data);
    let tokens = lzp::lzp_encode(data);
    let l = bwt_mtf_encode(tokens.as_slice());
    if b.len() <= raw_len && b.len() <= l.len() {
        (1, b)
    } else if l.len() <= raw_len && l.len() <= b.len() {
        (2, l)
    } else {
        (0, vstd::slice::slice_to_vec(data))
    }
}

/// Undoes `encode_stream_pick`.
pub fn decode_stream_pick(data: &[u8], pipe: u8) -> (r: Result<Vec<u8>, RcnError>)
    ensures
        error::outcome(r) == picked_plain(data@, pipe),
{
    proof {
        reveal(picked_plain);
    }
    if pipe == 0 {
        Ok(vstd::slice::slice_to_vec(data))
    } else if pipe == 1 {
        rle_path_decode(data)
    } else {
        lzp_path_decode(data, 0)
    }
}

/// The selector at place `i`, or 0.
pub open spec fn selector_at(pipes: Seq<u8>, i: int) -> int {
    if 0 <= i < pipes.len() {
        pipes[i] as int % 4
    } else {
        0
    }
}

/// Byte `i` of packed selectors: four selectors of two bits, lowest first.
pub open spec fn selector_byte(pipes: Seq<u8>, i: int) -> u8 {
    (selector_at(pipes, 4 * i) + 4 * selector_at(pipes, 4 * i + 1) + 16 * selector_at(
        pipes,
        4 * i + 2,
    ) + 64 * selector_at(pipes, 4 * i + 3)) as u8
}

/// How many bytes `n` selectors take.
pub open spec fn selector_len(n: int) -> int {
    (n + 3) / 4
}

/// Packed selectors.
pub open spec fn selectors_packed(pipes: Seq<u8>) -> Seq<u8> {
    Seq::new(selector_len(pipes.len() as int) as nat, |i: int| selector_byte(pipes, i))
}

/// Two bits of a byte, from bit `2 * k` on.
pub open spec fn two_bits(b: u8, k: int) -> u8 {
    if k == 0 {
        b % 4
    } else if k == 1 {
        (b / 4) % 4
    } else if k == 2 {
        (b / 16) % 4
    } else {
        (b / 64) % 4
    }
}

/// Selector `i` of packed selectors.
pub open spec fn selector_of(d: Seq<u8>, i: int) -> u8 {
    two_bits(d[i / 4], i % 4)
}

proof fn lemma_two_bits(a: int, b: int, c: int, e: int)
    requires
        0 <= a < 4,
        0 <= b < 4,
        0 <= c < 4,
        0 <= e < 4,
    ensures
        two_bits((a + 4 * b + 16 * c + 64 * e) as u8, 0) == a,
        two_bits((a + 4 * b + 16 * c + 64 * e) as u8, 1) == b,
        two_bits((a + 4 * b + 16 * c + 64 * e) as u8, 2) == c,
        two_bits((a + 4 * b + 16 * c + 64 * e) as u8, 3) == e,
{
    let x = (a + 4 * b + 16 * c + 64 * e) as u8;
    assert(x as int == a + 4 * b + 16 * c + 64 * e);
    assert(x as int / 4 == b + 4 * c + 16 * e);
    assert(x as int / 16 == c + 4 * e);
    assert(x as int / 64 == e);
}

/// Unpacking a selector gives back what was packed.
pub proof fn law_selector_round_trip(pipes: Seq<u8>, i: int)
    requires
        0 <= i < pipes.len(),
        pipes[i] < 4,
    ensures
        i / 4 < selectors_packed(pipes).len(),
        selector_of(selectors_packed(pipes), i) == pipes[i],
{
    let j = i / 4;
    lemma_two_bits(
        selector_at(pipes, 4 * j),
        selector_at(pipes, 4 * j + 1),
        selector_at(pipes, 4 * j + 2),
        selector_at(pipes, 4 * j + 3),
    );
    assert(i == 4 * j + i % 4);
}

fn exec_selector_at(pipes: &[u8], i: usize) -> (s: u8)
    ensures
        s == selector_at(pipes@, i as int),
        s < 4,
{
    if i < pipes.len() {
        pipes[i] % 4
    } else {
        0
    }
}

/// Packs two-bit selectors, four to a byte.
pub fn pack_selectors(pipes: &[u8]) -> (out: Vec<u8>)
    requires
        pipes@.len() <= usize::MAX - 8,
    ensures
        out@ == selectors_packed(pipes@),
{
    let n: usize = (pipes.len() + 3) / 4;
    let mut out: Vec<u8> = Vec::new();
    let mut i: usize = 0;
    while i < n
        invariant
            i <= n,
            n == selector_len(pipes@.len() as int),
            pipes@.len() <= usize::MAX - 8,
            out@ =~= selectors_packed(pipes@).take(i as int),
        decreases n - i,
    {
        let b: u8 = exec_selector_at(pipes, 4 * i) + 4 * exec_selector_at(pipes, 4 * i + 1) + 16
            * exec_selector_at(pipes, 4 * i + 2) + 64 * exec_selector_at(pipes, 4 * i + 3);
        out.push(b);
        i = i + 1;
    }
    out
}

/// Reads two bits of a byte, from bit `2 * k` on.
pub fn read_two_bits(b: u8, k: usize) -> (s: u8)
    ensures
        s == two_bits(b, k as int),
{
    if k == 0 {
        b % 4
    } else if k == 1 {
        (b / 4) % 4
    } else if k == 2 {
        (b / 16) % 4
    } else {
        (b / 64) % 4
    }
}

/// Reads selector `i` of packed selectors.
pub fn unpack_selector(data: &[u8], i: usize) -> (s: u8)
    requires
        i / 4 < data@.len(),
    ensures
        s == selector_of(data@, i as int),
{
    read_two_bits(data[i / 4], i % 4)
}

} // verus!
