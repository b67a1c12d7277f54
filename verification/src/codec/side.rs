//! The match side-stream in front of a coded block, and the walk that puts
//! literals and matches together.
//!
//! Layout: `[number of matches:u32][flag:u8][payload length:u32][payload]`. The
//! payload holds, for each match, place since the match before, length and
//! distance as variable-length numbers, packed by order-0 coding where that is
//! smaller.

use crate::bytes;
use crate::codec::search;
use crate::codec::search::{MatchRun, Run};
use crate::codec::varint;
use crate::entropy::side_fse;
use crate::error::{Fault, RcnError};
use vstd::prelude::*;
use vstd::string::*;

verus! {

/// The records of matches, behind a match at `prev`.
pub open spec fn records(runs: Seq<Run>, prev: int) -> Seq<u8>
    decreases runs.len(),
{
    if runs.len() == 0 {
        Seq::empty()
    } else {
        let r = runs[0];
        varint::varint(r.pos - prev) + varint::varint(r.len) + varint::varint(r.dist) + records(
            runs.drop_first(),
            r.pos,
        )
    }
}

/// The side-stream of matches.
pub open spec fn side_frame(runs: Seq<Run>) -> Seq<u8> {
    let (flag, payload) = side_fse::packed(records(runs, 0));
    bytes::le32(runs.len() as int) + seq![flag] + bytes::le32(payload.len() as int) + payload
}

/// What is said of a record that ends too early.
pub open spec fn cut_record(what: Seq<char>) -> Fault {
    Fault::InvalidContainer("truncated match record ("@ + what + ")"@)
}

/// The next `k` records from `pos` on, behind a match at `prev`. Places are
/// counted modulo two to the power of 64.
pub open spec fn records_at(d: Seq<u8>, pos: int, prev: int, k: int, acc: Seq<Run>) -> Result<
    Seq<Run>,
    Fault,
>
    decreases k,
{
    if k <= 0 {
        Ok(acc)
    } else {
        match varint::varint_at(d, pos) {
            None => Err(cut_record("delta_pos"@)),
            Some((delta, p1)) => match varint::varint_at(d, p1) {
                None => Err(cut_record("len"@)),
                Some((len, p2)) => match varint::varint_at(d, p2) {
                    None => Err(cut_record("dist"@)),
                    Some((dist, p3)) => {
                        let at = (prev + delta) % 18446744073709551616;
                        records_at(d, p3, at, k - 1, acc.push(Run { pos: at, len, dist }))
                    },
                },
            },
        }
    }
}

/// The matches in front of a coded block, and the place behind them.
pub open spec fn side_at(d: Seq<u8>) -> Result<(Seq<Run>, int), Fault> {
    let end = 9 + bytes::un_le32(d, 5);
    if d.len() < 9 {
        Err(Fault::InvalidContainer("match side-stream too short"@))
    } else if end > d.len() {
        Err(Fault::InvalidContainer("match side-stream truncated"@))
    } else {
        match side_fse::unpacked(d[4], d.subrange(9, end)) {
            None => Err(Fault::InvalidContainer("corrupt match side-stream entropy"@)),
            Some(raw) => match records_at(raw, 0, 0, bytes::un_le32(d, 0), Seq::empty()) {
                Ok(runs) => Ok((runs, end)),
                Err(e) => Err(e),
            },
        }
    }
}

/// Whether matches are in order from `prev` on and their numbers can be written.
pub open spec fn writable(runs: Seq<Run>, prev: int) -> bool
    decreases runs.len(),
{
    runs.len() > 0 ==> {
        &&& 0 <= prev <= runs[0].pos <= u32::MAX
        &&& 0 <= runs[0].len <= u32::MAX
        &&& 0 <= runs[0].dist <= u32::MAX
        &&& writable(runs.drop_first(), runs[0].pos)
    }
}

proof fn lemma_records(before: Seq<u8>, runs: Seq<Run>, prev: int, acc: Seq<Run>)
    requires
        writable(runs, prev),
        0 <= prev,
    ensures
        records_at(
            before + records(runs, prev),
            before.len() as int,
            prev,
            runs.len() as int,
            acc,
        ) == Ok::<Seq<Run>, Fault>(acc + runs),
    decreases runs.len(),
{
    if runs.len() == 0 {
        assert(acc + runs =~= acc);
    } else {
        let r = runs[0];
        let a = varint::varint(r.pos - prev);
        let b = varint::varint(r.len);
        let c = varint::varint(r.dist);
        let rest = records(runs.drop_first(), r.pos);
        let d = before + records(runs, prev);
        varint::law_varint_round_trip(before, r.pos - prev, b + c + rest);
        assert(d =~= before + a + (b + c + rest));
        varint::law_varint_round_trip(before + a, r.len, c + rest);
        assert(d =~= (before + a) + b + (c + rest));
        varint::law_varint_round_trip(before + a + b, r.dist, rest);
        assert(d =~= (before + a + b) + c + rest);
        lemma_records(before + a + b + c, runs.drop_first(), r.pos, acc.push(r));
        assert(d =~= (before + a + b + c) + rest);
        assert(acc.push(r) + runs.drop_first() =~= acc + runs);
    }
}

/// A record takes at most 18 bytes.
pub proof fn lemma_records_len(runs: Seq<Run>, prev: int)
    requires
        writable(runs, prev),
        0 <= prev,
    ensures
        records(runs, prev).len() <= 18 * runs.len(),
    decreases runs.len(),
{
    if runs.len() > 0 {
        let r = runs[0];
        varint::lemma_varint_len(r.pos - prev);
        varint::lemma_varint_len(r.len);
        varint::lemma_varint_len(r.dist);
        lemma_records_len(runs.drop_first(), r.pos);
    }
}

/// Reading the side-stream gives back the matches that were written.
pub proof fn law_side_round_trip(runs: Seq<Run>, after: Seq<u8>)
    requires
        writable(runs, 0),
        runs.len() <= u32::MAX,
        records(runs, 0).len() <= u32::MAX,
    ensures
        side_at(side_frame(runs) + after) == Ok::<(Seq<Run>, int), Fault>(
            (runs, side_frame(runs).len() as int),
        ),
{
    let raw = records(runs, 0);
    let (flag, payload) = side_fse::packed(raw);
    let d = side_frame(runs) + after;
    side_fse::law_packed_not_larger(raw);
    side_fse::law_side_stream_round_trip(raw);
    let n = payload.len() as int;
    assert(d.subrange(0, 4) =~= bytes::le32(runs.len() as int));
    bytes::lemma_un_le32(d, 0, runs.len() as int);
    assert(d.subrange(5, 9) =~= bytes::le32(n));
    bytes::lemma_un_le32(d, 5, n);
    assert(d[4] == flag);
    assert(d.subrange(9, 9 + n) =~= payload);
    lemma_records(Seq::empty(), runs, 0, Seq::empty());
    assert(Seq::<u8>::empty() + raw =~= raw);
    assert(Seq::<Run>::empty() + runs =~= runs);
}

/// The bytes that no match covers, from place `i` on.
pub open spec fn literals(block: Seq<u8>, runs: Seq<Run>, i: int) -> Seq<u8>
    decreases
        if i < block.len() {
            block.len() - i
        } else {
            0
        },
        runs.len(),
{
    if i < 0 || i >= block.len() {
        Seq::empty()
    } else if runs.len() > 0 && runs[0].pos == i && runs[0].len >= 0 {
        literals(block, runs.drop_first(), i + runs[0].len)
    } else {
        seq![block[i]] + literals(block, runs, i + 1)
    }
}

/// How many bytes of a block of `n` no match covers, from place `i` on.
pub open spec fn literal_count(n: int, runs: Seq<Run>, i: int) -> int
    decreases
        if i < n {
            n - i
        } else {
            0
        },
        runs.len(),
{
    if i < 0 || i >= n {
        0
    } else if runs.len() > 0 && runs[0].pos == i && runs[0].len >= 0 {
        literal_count(n, runs.drop_first(), i + runs[0].len)
    } else {
        1 + literal_count(n, runs, i + 1)
    }
}

/// What is decoded with `k` more bytes, each one copied from `dist` places
/// before.
pub open spec fn copied_from(hist: Seq<u8>, out: Seq<u8>, dist: int, k: int) -> Seq<u8>
    decreases k,
{
    if k <= 0 {
        out
    } else {
        copied_from(hist, out.push(search::byte_before(hist, out, dist)), dist, k - 1)
    }
}

/// A block of `n` bytes from its literals and its matches, with `out` decoded.
pub open spec fn rebuilt(
    hist: Seq<u8>,
    n: int,
    runs: Seq<Run>,
    lits: Seq<u8>,
    out: Seq<u8>,
) -> Seq<u8>
    decreases
        if out.len() < n {
            n - out.len()
        } else {
            0
        },
        runs.len(),
{
    if out.len() >= n {
        out
    } else if runs.len() > 0 && runs[0].pos == out.len() && runs[0].len >= 0 {
        let more = copied_from(hist, out, runs[0].dist, runs[0].len);
        if more.len() >= out.len() {
            rebuilt(hist, n, runs.drop_first(), lits, more)
        } else {
            out
        }
    } else if lits.len() > 0 {
        rebuilt(hist, n, runs, lits.drop_first(), out.push(lits[0]))
    } else {
        out
    }
}

/// Copying adds as many bytes as asked for.
pub proof fn lemma_copied_from_len(hist: Seq<u8>, out: Seq<u8>, dist: int, k: int)
    requires
        0 <= k,
    ensures
        copied_from(hist, out, dist, k).len() == out.len() + k,
    decreases k,
{
    if k > 0 {
        lemma_copied_from_len(
            hist,
            out.push(search::byte_before(hist, out, dist)),
            dist,
            k - 1,
        );
    }
}

/// There are as many literals as counted.
pub proof fn lemma_literal_count(block: Seq<u8>, runs: Seq<Run>, i: int)
    ensures
        literals(block, runs, i).len() == literal_count(block.len() as int, runs, i),
    decreases
        if i < block.len() {
            block.len() - i
        } else {
            0
        },
        runs.len(),
{
    if 0 <= i < block.len() {
        if runs.len() > 0 && runs[0].pos == i && runs[0].len >= 0 {
            lemma_literal_count(block, runs.drop_first(), i + runs[0].len);
        } else {
            lemma_literal_count(block, runs, i + 1);
        }
    }
}

/// A block has no more literals than bytes.
pub proof fn lemma_literal_bound(n: int, runs: Seq<Run>, i: int)
    requires
        0 <= i,
    ensures
        0 <= literal_count(n, runs, i),
        i <= n ==> literal_count(n, runs, i) <= n - i,
        i > n ==> literal_count(n, runs, i) == 0,
    decreases
        if i < n {
            n - i
        } else {
            0
        },
        runs.len(),
{
    if i < n {
        if runs.len() > 0 && runs[0].pos == i && runs[0].len >= 0 {
            lemma_literal_bound(n, runs.drop_first(), i + runs[0].len);
        } else {
            lemma_literal_bound(n, runs, i + 1);
        }
    }
}

/// Whether `a` ends with `b`.
pub open spec fn ends_with(a: Seq<u8>, b: Seq<u8>) -> bool {
    b.len() <= a.len() && a.skip(a.len() - b.len()) == b
}

proof fn lemma_copied_back(
    hist: Seq<u8>,
    longer: Seq<u8>,
    block: Seq<u8>,
    i: int,
    dist: int,
    k: int,
)
    requires
        ends_with(longer, hist),
        0 <= i,
        0 <= k,
        i + k <= block.len(),
        0 < dist <= hist.len() + i,
        forall|j: int|
            hist.len() + i <= j < hist.len() + i + k ==> #[trigger] (hist + block)[j] == (hist
                + block)[j - dist],
    ensures
        copied_from(longer, block.take(i), dist, k) == block.take(i + k),
    decreases k,
{
    if k > 0 {
        let d = hist + block;
        let out = block.take(i);
        let b = search::byte_before(longer, out, dist);
        let at = hist.len() + i;
        assert(d[at] == d[at - dist]);
        assert(d[at] == block[i]);
        if dist <= i {
            assert(d[at - dist] == block[i - dist]);
        } else {
            let cut = longer.len() - hist.len();
            assert(longer.skip(cut)[at - dist] == longer[cut + (at - dist)]);
            assert(d[at - dist] == hist[at - dist]);
        }
        assert(b == block[i]);
        assert(out.push(b) =~= block.take(i + 1));
        lemma_copied_back(hist, longer, block, i + 1, dist, k - 1);
    }
}

/// Copying the first of the matches that fit a block gives the bytes that it
/// covers.
pub proof fn lemma_run_copied(
    hist: Seq<u8>,
    longer: Seq<u8>,
    block: Seq<u8>,
    runs: Seq<Run>,
    i: int,
)
    requires
        ends_with(longer, hist),
        search::runs_fit(hist, block, runs, i),
        runs.len() > 0,
        runs[0].pos == i,
        0 <= i,
    ensures
        copied_from(longer, block.take(i), runs[0].dist, runs[0].len) == block.take(
            i + runs[0].len,
        ),
{
    let r = runs[0];
    let d = hist + block;
    assert forall|j: int| hist.len() + i <= j < hist.len() + i + r.len implies #[trigger] d[j]
        == d[j - r.dist] by {
        let k = j - (hist.len() + r.pos);
        assert(d[hist.len() + r.pos + k] == d[hist.len() + r.pos + k - r.dist]);
    }
    lemma_copied_back(hist, longer, block, i, r.dist, r.len);
}

/// Literals and matches put together give the block back, also with a history
/// that reaches further back than the one that the matches were found with.
pub proof fn law_rebuilt(
    hist: Seq<u8>,
    longer: Seq<u8>,
    block: Seq<u8>,
    runs: Seq<Run>,
    i: int,
)
    requires
        ends_with(longer, hist),
        search::runs_fit(hist, block, runs, i),
        0 <= i <= block.len(),
    ensures
        rebuilt(
            longer,
            block.len() as int,
            runs,
            literals(block, runs, i),
            block.take(i),
        ) == block,
    decreases block.len() - i, runs.len(),
{
    let n = block.len() as int;
    if i >= n {
        assert(block.take(i) =~= block);
    } else if runs.len() > 0 && runs[0].pos == i {
        let r = runs[0];
        lemma_run_copied(hist, longer, block, runs, i);
        law_rebuilt(hist, longer, block, runs.drop_first(), i + r.len);
    } else {
        let lits = literals(block, runs, i);
        assert(lits.drop_first() =~= literals(block, runs, i + 1));
        assert(block.take(i).push(block[i]) =~= block.take(i + 1));
        law_rebuilt(hist, longer, block, runs, i + 1);
    }
}

/// Matches that fit a block can be written.
pub proof fn lemma_fit_writable(hist: Seq<u8>, block: Seq<u8>, runs: Seq<Run>, from: int, prev: int)
    requires
        search::runs_fit(hist, block, runs, from),
        0 <= prev <= from,
        block.len() <= u32::MAX,
    ensures
        writable(runs, prev),
        runs.len() <= block.len() - from,
    decreases runs.len(),
{
    if runs.len() > 0 {
        lemma_fit_writable(
            hist,
            block,
            runs.drop_first(),
            runs[0].pos + runs[0].len,
            runs[0].pos,
        );
    }
}

/// Appends the side-stream of matches.
pub fn write_side(out: &mut Vec<u8>, runs: &Vec<MatchRun>)
    requires
        writable(search::run_views(runs@), 0),
        runs@.len() <= u32::MAX,
        records(search::run_views(runs@), 0).len() <= u32::MAX,
    ensures
        final(out)@ == old(out)@ + side_frame(search::run_views(runs@)),
{
    let ghost views = search::run_views(runs@);
    let mut raw: Vec<u8> = Vec::new();
    let mut prev: usize = 0;
    let mut i: usize = 0;
    assert(views.skip(0) =~= views);
    assert(raw@ + records(views, 0) =~= records(views, 0));
    while i < runs.len()
        invariant
            i <= runs@.len(),
            views == search::run_views(runs@),
            writable(views.skip(i as int), prev as int),
            raw@ + records(views.skip(i as int), prev as int) == records(views, 0),
        decreases runs@.len() - i,
    {
        let ghost rest = views.skip(i as int);
        let ghost before = raw@;
        let r = runs[i];
        assert(rest[0] == r@);
        assert(rest.drop_first() =~= views.skip(i + 1));
        varint::write_varint(&mut raw, r.pos - prev);
        varint::write_varint(&mut raw, r.len);
        varint::write_varint(&mut raw, r.dist);
        assert(raw@ + records(views.skip(i + 1), r.pos as int) =~= before + records(
            rest,
            prev as int,
        ));
        prev = r.pos;
        i = i + 1;
    }
    assert(raw@ =~= records(views, 0));
    proof {
        side_fse::law_packed_not_larger(records(views, 0));
    }
    let (flag, payload) = side_fse::pack_side_stream(raw.as_slice());
    bytes::push_u32(out, runs.len() as u32);
    out.push(flag);
    bytes::push_u32(out, payload.len() as u32);
    bytes::push_slice(out, payload.as_slice());
    assert(out@ =~= old(out)@ + side_frame(views));
}

/// A match that was read.
#[derive(Debug, Clone, Copy, PartialEq, Eq, Structural)]
pub struct Record {
    pub pos: u64,
    pub len: u64,
    pub dist: u64,
}

/// Matches that were read as contracts speak of them.
pub open spec fn record_views(v: Seq<Record>) -> Seq<Run> {
    Seq::new(
        v.len(),
        |i: int| Run { pos: v[i].pos as int, len: v[i].len as int, dist: v[i].dist as int },
    )
}

/// Whether the lengths of matches that were read are within the range of the
/// numbers that can be read.
pub open spec fn lens_bounded(v: Seq<Record>) -> bool {
    forall|i: int| 0 <= i < v.len() ==> (#[trigger] v[i]).len < varint::VARINT_LIMIT
}

fn cut(what: &str) -> (e: RcnError)
    ensures
        e@ == cut_record(what@),
{
    let mut m = String::from_str("truncated match record (");
    m.append(what);
    m.append(")");
    RcnError::InvalidContainer(m)
}

fn wrapped_sum(a: u64, b: u64) -> (s: u64)
    ensures
        s == (a + b) % 18446744073709551616,
{
    a.wrapping_add(b)
}

fn read_records(raw: &[u8], count: usize) -> (r: Result<Vec<Record>, RcnError>)
    ensures
        match r {
            Ok(runs) => records_at(raw@, 0, 0, count as int, Seq::empty()) == Ok::<
                Seq<Run>,
                Fault,
            >(record_views(runs@)) && lens_bounded(runs@),
            Err(e) => records_at(raw@, 0, 0, count as int, Seq::empty()) == Err::<
                Seq<Run>,
                Fault,
            >(e@),
        },
{
    let ghost goal = records_at(raw@, 0, 0, count as int, Seq::empty());
    let mut runs: Vec<Record> = Vec::new();
    let mut prev: u64 = 0;
    let mut pos: usize = 0;
    let mut left: usize = count;
    assert(record_views(runs@) =~= Seq::<Run>::empty());
    while left > 0
        invariant
            left <= count,
            goal == records_at(raw@, 0, 0, count as int, Seq::empty()),
            goal == records_at(
                raw@,
                pos as int,
                prev as int,
                left as int,
                record_views(runs@),
            ),
            lens_bounded(runs@),
        decreases left,
    {
        let (delta, p1) = match varint::read_varint(raw, pos) {
            Some(x) => x,
            None => {
                return Err(cut("delta_pos"));
            },
        };
        let (len, p2) = match varint::read_varint(raw, p1) {
            Some(x) => x,
            None => {
                return Err(cut("len"));
            },
        };
        let (dist, p3) = match varint::read_varint(raw, p2) {
            Some(x) => x,
            None => {
                return Err(cut("dist"));
            },
        };
        let at: u64 = wrapped_sum(prev, delta);
        let ghost before = record_views(runs@);
        runs.push(Record { pos: at, len, dist });
        assert(record_views(runs@) =~= before.push(
            Run { pos: at as int, len: len as int, dist: dist as int },
        ));
        prev = at;
        pos = p3;
        left = left - 1;
    }
    Ok(runs)
}

/// Reads the matches in front of a coded block; returns them and the place
/// behind them.
pub fn read_side(comp: &[u8]) -> (r: Result<(Vec<Record>, usize), RcnError>)
    ensures
        match r {
            Ok((runs, end)) => side_at(comp@) == Ok::<(Seq<Run>, int), Fault>(
                (record_views(runs@), end as int),
            ) && lens_bounded(runs@) && end <= comp@.len(),
            Err(e) => side_at(comp@) == Err::<(Seq<Run>, int), Fault>(e@),
        },
{
    let n: usize = comp.len();
    if n < 9 {
        return Err(
            RcnError::InvalidContainer(String::from_str("match side-stream too short")),
        );
    }
    let count: usize = bytes::get_u32(comp, 0) as usize;
    let len: usize = bytes::get_u32(comp, 5) as usize;
    if len > n - 9 {
        return Err(
            RcnError::InvalidContainer(String::from_str("match side-stream truncated")),
        );
    }
    let payload = vstd::slice::slice_subrange(comp, 9, 9 + len);
    match side_fse::unpack_side_stream(comp[4], payload) {
        Ok(raw) => match read_records(raw.as_slice(), count) {
            Ok(runs) => Ok((runs, 9 + len)),
            Err(e) => Err(e),
        },
        Err(_) => Err(
            RcnError::InvalidContainer(String::from_str("corrupt match side-stream entropy")),
        ),
    }
}

/// The bytes of a block that no match covers.
pub fn collect_literals(block: &[u8], runs: &Vec<MatchRun>) -> (lits: Vec<u8>)
    requires
        block@.len() <= u32::MAX,
        forall|i: int| 0 <= i < runs@.len() ==> (#[trigger] runs@[i]).len <= u32::MAX,
    ensures
        lits@ == literals(block@, search::run_views(runs@), 0),
{
    let ghost views = search::run_views(runs@);
    let n: usize = block.len();
    let mut lits: Vec<u8> = Vec::new();
    let mut i: u64 = 0;
    let mut k: usize = 0;
    assert(views.skip(0) =~= views);
    assert(lits@ + literals(block@, views, 0) =~= literals(block@, views, 0));
    while i < n as u64
        invariant
            n == block@.len() <= u32::MAX,
            views == search::run_views(runs@),
            forall|j: int| 0 <= j < runs@.len() ==> (#[trigger] runs@[j]).len <= u32::MAX,
            k <= runs@.len(),
            lits@ + literals(block@, views.skip(k as int), i as int) == literals(block@, views, 0),
        decreases
                if i < n {
                    n - i
                } else {
                    0
                },
                runs@.len() - k,
    {
        let ghost rest = views.skip(k as int);
        let ghost before = lits@;
        if k < runs.len() && runs[k].pos as u64 == i {
            assert(rest[0] == runs@[k as int]@);
            assert(rest.drop_first() =~= views.skip(k + 1));
            assert(runs@[k as int].len <= u32::MAX);
            i = i + runs[k].len as u64;
            k = k + 1;
        } else {
            proof {
                if k < runs@.len() {
                    assert(rest[0] == runs@[k as int]@);
                }
            }
            lits.push(block[i as usize]);
            assert(lits@ + literals(block@, rest, i + 1) =~= before + literals(
                block@,
                rest,
                i as int,
            ));
            i = i + 1;
        }
    }
    assert(lits@ =~= literals(block@, views, 0));
    lits
}

/// How many bytes of a block of `n` no match covers.
pub fn count_literals(n: usize, runs: &Vec<Record>) -> (count: usize)
    requires
        n <= u32::MAX,
        lens_bounded(runs@),
    ensures
        count == literal_count(n as int, record_views(runs@), 0),
        count <= n,
{
    let ghost views = record_views(runs@);
    let mut count: usize = 0;
    let mut i: u64 = 0;
    let mut k: usize = 0;
    assert(views.skip(0) =~= views);
    proof {
        lemma_literal_bound(n as int, views, 0);
    }
    while i < n as u64
        invariant
            n <= u32::MAX,
            views == record_views(runs@),
            lens_bounded(runs@),
            k <= runs@.len(),
            count <= i,
            count + literal_count(n as int, views.skip(k as int), i as int) == literal_count(
                n as int,
                views,
                0,
            ),
            literal_count(n as int, views, 0) <= n,
        decreases
                if i < n {
                    n - i
                } else {
                    0
                },
                runs@.len() - k,
    {
        let ghost rest = views.skip(k as int);
        proof {
            lemma_literal_bound(n as int, rest, i as int);
            lemma_literal_bound(n as int, rest, i + 1);
        }
        if k < runs.len() && runs[k].pos == i {
            assert(rest[0].pos == runs@[k as int].pos && rest[0].len == runs@[k as int].len);
            assert(rest.drop_first() =~= views.skip(k + 1));
            assert(runs@[k as int].len < varint::VARINT_LIMIT);
            i = i + runs[k].len;
            k = k + 1;
        } else {
            proof {
                if k < runs@.len() {
                    assert(rest[0].pos == runs@[k as int].pos);
                }
            }
            count = count + 1;
            i = i + 1;
        }
    }
    count
}

/// Appends `k` bytes, each one copied from `dist` places before.
pub fn copy_match(hist: &[u8], out: &mut Vec<u8>, dist: u64, k: u64)
    ensures
        final(out)@ == copied_from(hist@, old(out)@, dist as int, k as int),
{
    let mut left: u64 = k;
    let ghost goal = copied_from(hist@, out@, dist as int, k as int);
    while left > 0
        invariant
            goal == copied_from(hist@, out@, dist as int, left as int),
        decreases left,
    {
        let b: u8 = search::match_byte_from_hist(hist, out.as_slice(), dist);
        out.push(b);
        left = left - 1;
    }
}

/// Puts literals and matches together.
pub fn rebuild(hist: &[u8], n: usize, runs: &Vec<Record>, lits: &[u8]) -> (out: Vec<u8>)
    requires
        lits@.len() == literal_count(n as int, record_views(runs@), 0),
    ensures
        out@ == rebuilt(hist@, n as int, record_views(runs@), lits@, Seq::empty()),
{
    let ghost views = record_views(runs@);
    let ghost goal = rebuilt(hist@, n as int, views, lits@, Seq::empty());
    let mut out: Vec<u8> = Vec::new();
    let mut k: usize = 0;
    let mut used: usize = 0;
    assert(views.skip(0) =~= views);
    assert(lits@.skip(0) =~= lits@);
    assert(out@ =~= Seq::<u8>::empty());
    while out.len() < n
        invariant
            views == record_views(runs@),
            k <= runs@.len(),
            used <= lits@.len(),
            lits@.len() - used == literal_count(
                n as int,
                views.skip(k as int),
                out@.len() as int,
            ),
            goal == rebuilt(
                hist@,
                n as int,
                views.skip(k as int),
                lits@.skip(used as int),
                out@,
            ),
        decreases
                if out@.len() < n {
                    n - out@.len()
                } else {
                    0
                },
                runs@.len() - k,
    {
        let ghost rest = views.skip(k as int);
        let ghost left = lits@.skip(used as int);
        if k < runs.len() && runs[k].pos == out.len() as u64 {
            assert(rest[0].pos == runs@[k as int].pos && rest[0].len == runs@[k as int].len
                && rest[0].dist == runs@[k as int].dist);
            assert(rest.drop_first() =~= views.skip(k + 1));
            proof {
                lemma_copied_from_len(
                    hist@,
                    out@,
                    runs@[k as int].dist as int,
                    runs@[k as int].len as int,
                );
            }
            copy_match(hist, &mut out, runs[k].dist, runs[k].len);
            k = k + 1;
        } else {
            proof {
                if k < runs@.len() {
                    assert(rest[0].pos == runs@[k as int].pos);
                }
            }
            proof {
                lemma_literal_bound(n as int, rest, out@.len() as int + 1);
            }
            assert(left[0] == lits@[used as int]);
            assert(left.drop_first() =~= lits@.skip(used + 1));
            out.push(lits[used]);
            used = used + 1;
        }
    }
    out
}

} // verus!
