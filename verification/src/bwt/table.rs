//! The payload of a table that was split into columns:
//! `[original length:u32][delimiter:u8][trailing newline:u8][columns:u16][rows:u32]`
//! `[fields:u16 per row][selectors][length:u32 per column][columns]`.

use crate::bwt::frames;
use crate::bwt::stages;
use crate::bytes;
use crate::csv_split;
use crate::csv_split::{CsvStreams, CsvView};
use crate::error;
use crate::error::{Fault, RcnError};
use crate::text;
use vstd::prelude::*;
use vstd::string::*;

verus! {

/// The fixed part of the payload.
pub open spec fn table_head(orig_len: int, v: CsvView) -> Seq<u8> {
    bytes::le32(orig_len) + seq![
        v.delim,
        if v.trailing {
            1u8
        } else {
            0u8
        },
    ] + bytes::le16(v.columns.len() as int) + bytes::le32(v.fields.len() as int)
}

/// The payload of a split table.
pub open spec fn table_packed(orig_len: int, v: CsvView) -> Seq<u8> {
    let bodies = stages::bodies_of(v.columns);
    table_head(orig_len, v) + frames::words16(v.fields) + stages::selectors_packed(
        stages::pipes_of(v.columns),
    ) + frames::words32(frames::lens(bodies)) + frames::concat_upto(bodies, bodies.len() as int)
}

/// The columns from number `i` on: selectors stand at `sel`, lengths at
/// `at`, column `i` itself at `pos`; `acc` holds the columns before it.
pub open spec fn columns_unpacked(
    p: Seq<u8>,
    sel: int,
    at: int,
    n: int,
    i: int,
    pos: int,
    acc: Seq<Seq<u8>>,
) -> Result<Seq<Seq<u8>>, Fault>
    decreases n - i,
{
    if i >= n {
        Ok(acc)
    } else {
        let clen = bytes::un_le32(p, at + 4 * i);
        if pos + clen > p.len() {
            Err(
                Fault::CorruptBlock(
                    "csv-split column "@ + text::decimal(i) + " length "@ + text::decimal(clen)
                        + " overruns payload"@,
                ),
            )
        } else {
            match stages::picked_plain(
                p.subrange(pos, pos + clen),
                stages::selector_of(p.skip(sel), i),
            ) {
                Ok(col) => columns_unpacked(p, sel, at, n, i + 1, pos + clen, acc.push(col)),
                Err(e) => Err(e),
            }
        }
    }
}

/// The field counts in a payload of `n` rows.
pub open spec fn stored_fields(p: Seq<u8>, n: int) -> Seq<u16> {
    Seq::new(n as nat, |i: int| bytes::un_le16(p, 12 + 2 * i) as u16)
}

/// The split table that a payload holds.
pub open spec fn table_unpacked(p: Seq<u8>) -> Result<CsvView, Fault> {
    let ncols = bytes::un_le16(p, 6);
    let nrows = bytes::un_le32(p, 8);
    let sel = 12 + 2 * nrows;
    let at = sel + stages::selector_len(ncols);
    if p.len() < 12 {
        Err(Fault::CorruptBlock("csv-split payload truncated"@))
    } else if sel > p.len() {
        Err(Fault::CorruptBlock("csv-split fields_per_row overruns payload"@))
    } else if at + 4 * ncols > p.len() {
        Err(Fault::CorruptBlock("csv-split selectors/col_lens overrun payload"@))
    } else {
        match columns_unpacked(p, sel, at, ncols, 0, at + 4 * ncols, Seq::empty()) {
            Ok(columns) => Ok(
                CsvView {
                    delim: p[4],
                    columns,
                    fields: stored_fields(p, nrows),
                    trailing: p[5] != 0,
                },
            ),
            Err(e) => Err(e),
        }
    }
}

/// What the parts of a payload hold, as far as the columns need it.
spec fn laid_out(p: Seq<u8>, sel: int, at: int, cols: Seq<Seq<u8>>) -> bool {
    let bodies = stages::bodies_of(cols);
    let n = cols.len() as int;
    &&& 0 <= sel <= at
    &&& at + 4 * n <= p.len()
    &&& p.subrange(sel, at) == stages::selectors_packed(stages::pipes_of(cols))
    &&& p.subrange(at, at + 4 * n) == frames::words32(frames::lens(bodies))
    &&& p.skip(at + 4 * n) == frames::concat_upto(bodies, n)
}

proof fn lemma_columns(p: Seq<u8>, sel: int, at: int, cols: Seq<Seq<u8>>, i: int)
    requires
        laid_out(p, sel, at, cols),
        stages::streams_fit(cols),
        0 <= i <= cols.len(),
    ensures
        columns_unpacked(
            p,
            sel,
            at,
            cols.len() as int,
            i,
            at + 4 * cols.len() + frames::sum_upto(frames::lens(stages::bodies_of(cols)), i),
            cols.take(i),
        ) == Ok::<Seq<Seq<u8>>, Fault>(cols),
    decreases cols.len() - i,
{
    let bodies = stages::bodies_of(cols);
    let pipes = stages::pipes_of(cols);
    let n = cols.len() as int;
    let base = at + 4 * n;
    let off = frames::sum_upto(frames::lens(bodies), i);
    if i < n {
        assert(stages::stream_fits(cols[i]));
        stages::law_pick_round_trip(cols[i]);
        frames::lemma_words32(p, at, frames::lens(bodies), i);
        frames::lemma_concat_len(bodies, i);
        frames::lemma_concat_len(bodies, n);
        frames::lemma_concat_part(bodies, i, n);
        let body = frames::concat_upto(bodies, n);
        assert(p.skip(base).len() == body.len());
        assert(p.subrange(base + off, base + off + bodies[i].len()) =~= body.subrange(
            off,
            off + bodies[i].len(),
        ));
        stages::law_selector_round_trip(pipes, i);
        let packed = stages::selectors_packed(pipes);
        assert(p.skip(sel)[i / 4] == p.subrange(sel, at)[i / 4]);
        assert(stages::selector_of(p.skip(sel), i) == pipes[i]);
        assert(cols.take(i).push(cols[i]) =~= cols.take(i + 1));
        lemma_columns(p, sel, at, cols, i + 1);
    } else {
        assert(cols.take(i) =~= cols);
    }
}

proof fn lemma_five(a: Seq<u8>, b: Seq<u8>, c: Seq<u8>, d: Seq<u8>, e: Seq<u8>)
    ensures
        ({
            let p = a + b + c + d + e;
            let i = a.len() as int;
            let j = i + b.len();
            let k = j + c.len();
            let l = k + d.len();
            &&& p.len() == l + e.len()
            &&& p.take(i) == a
            &&& p.subrange(i, j) == b
            &&& p.subrange(j, k) == c
            &&& p.subrange(k, l) == d
            &&& p.skip(l) == e
        }),
{
    let p = a + b + c + d + e;
    let i = a.len() as int;
    let j = i + b.len();
    let k = j + c.len();
    let l = k + d.len();
    assert(p.take(i) =~= a);
    assert(p.subrange(i, j) =~= b);
    assert(p.subrange(j, k) =~= c);
    assert(p.subrange(k, l) =~= d);
    assert(p.skip(l) =~= e);
}

proof fn lemma_head(p: Seq<u8>, orig_len: int, v: CsvView)
    requires
        v.columns.len() <= u16::MAX,
        v.fields.len() <= u32::MAX,
        p.len() >= 12,
        p.take(12) == table_head(orig_len, v),
    ensures
        bytes::un_le16(p, 6) == v.columns.len(),
        bytes::un_le32(p, 8) == v.fields.len(),
        p[4] == v.delim,
        (p[5] != 0) == v.trailing,
{
    let head = table_head(orig_len, v);
    let t = p.take(12);
    assert(p.subrange(6, 8) =~= t.subrange(6, 8));
    assert(t.subrange(6, 8) =~= bytes::le16(v.columns.len() as int));
    bytes::lemma_un_le16(p, 6, v.columns.len() as int);
    assert(p.subrange(8, 12) =~= t.subrange(8, 12));
    assert(t.subrange(8, 12) =~= bytes::le32(v.fields.len() as int));
    bytes::lemma_un_le32(p, 8, v.fields.len() as int);
    assert(p[4] == t[4] && p[5] == t[5]);
    assert(head[4] == v.delim);
}

proof fn lemma_parts(orig_len: int, v: CsvView)
    ensures
        ({
            let p = table_packed(orig_len, v);
            let rows = v.fields.len() as int;
            let sel = 12 + 2 * rows;
            let at = sel + stages::selector_len(v.columns.len() as int);
            &&& p.len() >= at + 4 * v.columns.len()
            &&& p.take(12) == table_head(orig_len, v)
            &&& p.subrange(12, 12 + 2 * rows) == frames::words16(v.fields)
            &&& laid_out(p, sel, at, v.columns)
        }),
{
    let bodies = stages::bodies_of(v.columns);
    lemma_five(
        table_head(orig_len, v),
        frames::words16(v.fields),
        stages::selectors_packed(stages::pipes_of(v.columns)),
        frames::words32(frames::lens(bodies)),
        frames::concat_upto(bodies, bodies.len() as int),
    );
}

proof fn lemma_fields(p: Seq<u8>, fields: Seq<u16>)
    requires
        p.len() >= 12 + 2 * fields.len(),
        p.subrange(12, 12 + 2 * fields.len() as int) == frames::words16(fields),
    ensures
        stored_fields(p, fields.len() as int) == fields,
{
    let s = stored_fields(p, fields.len() as int);
    assert forall|i: int| 0 <= i < fields.len() implies s[i] == fields[i] by {
        frames::lemma_words16(p, 12, fields, i);
    }
    assert(s =~= fields);
}

/// Unpacking gives back the split table that was packed.
pub proof fn law_table_round_trip(orig_len: int, v: CsvView)
    requires
        0 <= orig_len <= u32::MAX,
        v.columns.len() <= u16::MAX,
        v.fields.len() <= u32::MAX,
        stages::streams_fit(v.columns),
    ensures
        table_unpacked(table_packed(orig_len, v)) == Ok::<CsvView, Fault>(v),
{
    let p = table_packed(orig_len, v);
    let sel = 12 + 2 * v.fields.len() as int;
    let at = sel + stages::selector_len(v.columns.len() as int);
    lemma_parts(orig_len, v);
    lemma_head(p, orig_len, v);
    lemma_fields(p, v.fields);
    lemma_columns(p, sel, at, v.columns, 0);
    assert(v.columns.take(0) =~= Seq::<Seq<u8>>::empty());
}

fn push_fields(out: &mut Vec<u8>, fields: &[u16])
    ensures
        final(out)@ == old(out)@ + frames::words16(fields@),
{
    let ghost before = out@;
    let mut i: usize = 0;
    assert(before =~= before + frames::words16(fields@.take(0)));
    while i < fields.len()
        invariant
            i <= fields@.len(),
            out@ == before + frames::words16(fields@.take(i as int)),
        decreases fields@.len() - i,
    {
        proof {
            frames::lemma_words16_push(fields@.take(i as int), fields@[i as int]);
            assert(fields@.take(i as int).push(fields@[i as int]) =~= fields@.take(i + 1));
        }
        bytes::push_u16(out, fields[i]);
        assert(out@ =~= before + frames::words16(fields@.take(i + 1)));
        i = i + 1;
    }
    assert(fields@.take(i as int) =~= fields@);
}

fn push_columns(out: &mut Vec<u8>, bodies: &Vec<Vec<u8>>)
    requires
        forall|i: int| 0 <= i < bodies@.len() ==> (#[trigger] bodies@[i])@.len() <= u32::MAX,
    ensures
        final(out)@ == old(out)@ + frames::words32(frames::lens(csv_split::byte_views(bodies@)))
            + frames::concat_upto(csv_split::byte_views(bodies@), bodies@.len() as int),
{
    let ghost before = out@;
    let ghost views = csv_split::byte_views(bodies@);
    let ghost ls = frames::lens(views);
    let mut i: usize = 0;
    assert(before =~= before + frames::words32(ls.take(0)));
    while i < bodies.len()
        invariant
            i <= bodies@.len(),
            views == csv_split::byte_views(bodies@),
            ls == frames::lens(views),
            forall|i: int| 0 <= i < bodies@.len() ==> (#[trigger] bodies@[i])@.len() <= u32::MAX,
            out@ == before + frames::words32(ls.take(i as int)),
        decreases bodies@.len() - i,
    {
        proof {
            frames::lemma_words32_push(ls.take(i as int), ls[i as int]);
            assert(ls.take(i as int).push(ls[i as int]) =~= ls.take(i + 1));
            assert(ls[i as int] == bodies@[i as int]@.len());
        }
        bytes::push_u32(out, bodies[i].len() as u32);
        assert(out@ =~= before + frames::words32(ls.take(i + 1)));
        i = i + 1;
    }
    assert(ls.take(i as int) =~= ls);
    let ghost front = before + frames::words32(ls);
    let mut j: usize = 0;
    assert(front =~= front + frames::concat_upto(views, 0));
    while j < bodies.len()
        invariant
            j <= bodies@.len(),
            views == csv_split::byte_views(bodies@),
            out@ == front + frames::concat_upto(views, j as int),
        decreases bodies@.len() - j,
    {
        bytes::push_slice(out, bodies[j].as_slice());
        assert(out@ =~= front + frames::concat_upto(views, j + 1));
        j = j + 1;
    }
}

/// Packs a split table, every column in its smallest form.
pub fn pack_table(orig_len: usize, streams: &CsvStreams) -> (out: Vec<u8>)
    requires
        orig_len <= u32::MAX,
        streams@.columns.len() <= u16::MAX,
        streams@.fields.len() <= u32::MAX,
        stages::streams_fit(streams@.columns),
    ensures
        out@ == table_packed(orig_len as int, streams@),
{
    let ghost cols = streams@.columns;
    let mut pipes: Vec<u8> = Vec::new();
    let mut bodies: Vec<Vec<u8>> = Vec::new();
    let ncols: usize = streams.columns.len();
    let mut i: usize = 0;
    while i < ncols
        invariant
            i <= ncols,
            ncols == streams.columns@.len() == cols.len(),
            cols == csv_split::byte_views(streams.columns@),
            stages::streams_fit(cols),
            pipes@ =~= stages::pipes_of(cols).take(i as int),
            bodies@.len() == i,
            forall|j: int|
                0 <= j < i ==> (#[trigger] bodies@[j])@ == stages::bodies_of(cols)[j] && bodies@[j]@.len()
                    <= u32::MAX,
        decreases ncols - i,
    {
        assert(stages::stream_fits(cols[i as int]));
        let (pipe, body) = stages::encode_stream_pick(streams.columns[i].as_slice());
        proof {
            stages::law_pick_round_trip(cols[i as int]);
        }
        pipes.push(pipe);
        bodies.push(body);
        i = i + 1;
    }
    assert(pipes@ =~= stages::pipes_of(cols));
    assert(csv_split::byte_views(bodies@) =~= stages::bodies_of(cols));
    let selectors: Vec<u8> = stages::pack_selectors(pipes.as_slice());
    let mut out: Vec<u8> = Vec::new();
    bytes::push_u32(&mut out, orig_len as u32);
    out.push(streams.delim);
    out.push(
        if streams.trailing_newline {
            1
        } else {
            0
        },
    );
    bytes::push_u16(&mut out, ncols as u16);
    bytes::push_u32(&mut out, streams.fields_per_row.len() as u32);
    assert(out@ =~= table_head(orig_len as int, streams@));
    push_fields(&mut out, streams.fields_per_row.as_slice());
    bytes::push_slice(&mut out, selectors.as_slice());
    push_columns(&mut out, &bodies);
    out
}

fn column_overrun(i: usize, clen: usize) -> (e: RcnError)
    ensures
        e@ == Fault::CorruptBlock(
            "csv-split column "@ + text::decimal(i as int) + " length "@ + text::decimal(
                clen as int,
            ) + " overruns payload"@,
        ),
{
    let mut m = String::from_str("csv-split column ");
    text::push_decimal(&mut m, i as u64);
    m.append(" length ");
    text::push_decimal(&mut m, clen as u64);
    m.append(" overruns payload");
    RcnError::CorruptBlock(m)
}

fn unpack_columns(payload: &[u8], sel: usize, at: usize, n: usize) -> (r: Result<
    Vec<Vec<u8>>,
    RcnError,
>)
    requires
        sel + stages::selector_len(n as int) == at,
        at + 4 * n <= payload@.len(),
    ensures
        match r {
            Ok(cols) => columns_unpacked(
                payload@,
                sel as int,
                at as int,
                n as int,
                0,
                at + 4 * n,
                Seq::empty(),
            ) == Ok::<Seq<Seq<u8>>, Fault>(csv_split::byte_views(cols@)),
            Err(e) => columns_unpacked(
                payload@,
                sel as int,
                at as int,
                n as int,
                0,
                at + 4 * n,
                Seq::empty(),
            ) == Err::<Seq<Seq<u8>>, Fault>(e@),
        },
{
    let ghost p = payload@;
    let ghost goal = columns_unpacked(
        p,
        sel as int,
        at as int,
        n as int,
        0,
        at + 4 * n,
        Seq::empty(),
    );
    let total: usize = payload.len();
    let selectors = vstd::slice::slice_subrange(payload, sel, total);
    assert(selectors@ =~= p.skip(sel as int));
    let mut cols: Vec<Vec<u8>> = Vec::new();
    let mut pos: usize = at + 4 * n;
    let mut i: usize = 0;
    assert(csv_split::byte_views(cols@) =~= Seq::<Seq<u8>>::empty());
    while i < n
        invariant
            i <= n,
            p == payload@,
            total == p.len(),
            selectors@ == p.skip(sel as int),
            sel + stages::selector_len(n as int) == at,
            at + 4 * n <= pos <= total,
            goal == columns_unpacked(
                p,
                sel as int,
                at as int,
                n as int,
                0,
                at + 4 * n,
                Seq::empty(),
            ),
            goal == columns_unpacked(
                p,
                sel as int,
                at as int,
                n as int,
                i as int,
                pos as int,
                csv_split::byte_views(cols@),
            ),
        decreases n - i,
    {
        let clen: usize = bytes::get_u32(payload, at + 4 * i) as usize;
        if clen > total - pos {
            return Err(column_overrun(i, clen));
        }
        let pipe: u8 = stages::unpack_selector(selectors, i);
        match stages::decode_stream_pick(
            vstd::slice::slice_subrange(payload, pos, pos + clen),
            pipe,
        ) {
            Ok(col) => {
                let ghost before = csv_split::byte_views(cols@);
                cols.push(col);
                assert(csv_split::byte_views(cols@) =~= before.push(col@));
            },
            Err(e) => {
                return Err(e);
            },
        }
        pos = pos + clen;
        i = i + 1;
    }
    Ok(cols)
}

/// Reads back what `pack_table` wrote.
pub fn unpack_table(payload: &[u8]) -> (r: Result<CsvStreams, RcnError>)
    ensures
        match r {
            Ok(streams) => table_unpacked(payload@) == Ok::<CsvView, Fault>(streams@),
            Err(e) => table_unpacked(payload@) == Err::<CsvView, Fault>(e@),
        },
{
    let ghost p = payload@;
    let total: usize = payload.len();
    if total < 12 {
        return Err(error::corrupt("csv-split payload truncated"));
    }
    let ncols: usize = bytes::get_u16(payload, 6) as usize;
    let nrows: usize = bytes::get_u32(payload, 8) as usize;
    if nrows > (total - 12) / 2 {
        return Err(error::corrupt("csv-split fields_per_row overruns payload"));
    }
    let mut fields_per_row: Vec<u16> = Vec::new();
    let mut i: usize = 0;
    while i < nrows
        invariant
            i <= nrows,
            p == payload@,
            total == p.len(),
            12 + 2 * nrows <= total,
            fields_per_row@ =~= stored_fields(p, nrows as int).take(i as int),
        decreases nrows - i,
    {
        fields_per_row.push(bytes::get_u16(payload, 12 + 2 * i));
        i = i + 1;
    }
    assert(fields_per_row@ =~= stored_fields(p, nrows as int));
    let sel: usize = 12 + 2 * nrows;
    let sel_len: usize = (ncols + 3) / 4;
    if sel_len > total - sel || ncols > (total - sel - sel_len) / 4 {
        return Err(error::corrupt("csv-split selectors/col_lens overrun payload"));
    }
    match unpack_columns(payload, sel, sel + sel_len, ncols) {
        Ok(columns) => Ok(
            CsvStreams {
                delim: payload[4],
                columns,
                fields_per_row,
                trailing_newline: payload[5] != 0,
            },
        ),
        Err(e) => Err(e),
    }
}

} // verus!
