//! CSV-aware column-stream splitting for specialized modeling.
//!
//! Values in the same column of a table are far apart in the text. Splitting
//! into per-column streams (shorter rows are padded with empty cells) groups
//! like values. Each column stream holds length-prefixed cells, one per row;
//! the true field count of each row is kept, so that `join` reconstructs the
//! text exactly.

use crate::bytes;
use crate::error;
use crate::error::{Fault, RcnError};
use crate::split_common;
use crate::text;
use vstd::prelude::*;
use vstd::string::*;

verus! {

/// The line feed.
pub const NEWLINE: u8 = 0x0A;

/// The double quote.
pub const QUOTE: u8 = 0x22;

/// The comma.
pub const COMMA: u8 = 0x2C;

/// The tab.
pub const TAB: u8 = 0x09;

/// Parsed CSV, one stream per column.
#[derive(Debug, Clone, Default, PartialEq, Eq)]
pub struct CsvStreams {
    /// Field delimiter (comma or tab).
    pub delim: u8,
    /// One stream per column: length-prefixed cells, one for each row.
    pub columns: Vec<Vec<u8>>,
    /// Number of fields on each row, before padding.
    pub fields_per_row: Vec<u16>,
    /// Whether the input ended with a newline.
    pub trailing_newline: bool,
}

/// The streams as sequences.
#[verifier::ext_equal]
pub struct CsvView {
    pub delim: u8,
    pub columns: Seq<Seq<u8>>,
    pub fields: Seq<u16>,
    pub trailing: bool,
}

/// The contents of a list of byte vectors.
pub open spec fn byte_views(v: Seq<Vec<u8>>) -> Seq<Seq<u8>> {
    Seq::new(v.len(), |i: int| v[i]@)
}

impl View for CsvStreams {
    type V = CsvView;

    open spec fn view(&self) -> CsvView {
        CsvView {
            delim: self.delim,
            columns: byte_views(self.columns@),
            fields: self.fields_per_row@,
            trailing: self.trailing_newline,
        }
    }
}

/// Tab where the first part of the data has more tabs than commas, else comma.
pub open spec fn delimiter_of(d: Seq<u8>) -> u8 {
    let s = split_common::sample(d);
    if split_common::count_of(s, TAB) > split_common::count_of(s, COMMA) {
        TAB
    } else {
        COMMA
    }
}

/// The length of the first line of `d`.
pub open spec fn line_len(d: Seq<u8>) -> int
    decreases d.len(),
{
    if d.len() == 0 || d[0] == NEWLINE {
        0
    } else {
        1 + line_len(d.drop_first())
    }
}

/// The lines of `d`; a newline ends a line, and nothing follows the last one.
pub open spec fn csv_lines(d: Seq<u8>) -> Seq<Seq<u8>>
    decreases d.len(),
{
    if d.len() == 0 {
        Seq::empty()
    } else {
        let k = line_len(d);
        seq![d.take(k)] + if 0 <= k < d.len() {
            csv_lines(d.skip(k + 1))
        } else {
            Seq::empty()
        }
    }
}

/// Whether `d` ends with a newline.
pub open spec fn ends_line(d: Seq<u8>) -> bool {
    d.len() > 0 && d.last() == NEWLINE
}

/// The fields of a line, with `cur` pending; delimiters inside double quotes do
/// not separate, and a doubled quote inside quotes does not end them.
pub open spec fn csv_fields(line: Seq<u8>, delim: u8, quoted: bool, cur: Seq<u8>) -> Seq<Seq<u8>>
    decreases line.len(),
{
    if line.len() == 0 {
        seq![cur]
    } else {
        let b = line[0];
        let rest = line.drop_first();
        if quoted {
            if b == QUOTE && rest.len() > 0 && rest[0] == QUOTE {
                csv_fields(line.skip(2), delim, true, cur.push(b).push(QUOTE))
            } else {
                csv_fields(rest, delim, b != QUOTE, cur.push(b))
            }
        } else if b == QUOTE {
            csv_fields(rest, delim, true, cur.push(b))
        } else if b == delim {
            seq![cur] + csv_fields(rest, delim, false, Seq::empty())
        } else {
            csv_fields(rest, delim, false, cur.push(b))
        }
    }
}

/// The fields of a line.
pub open spec fn row_fields(line: Seq<u8>, delim: u8) -> Seq<Seq<u8>> {
    csv_fields(line, delim, false, Seq::empty())
}

/// The fields of all lines of `d`.
pub open spec fn csv_rows(d: Seq<u8>) -> Seq<Seq<Seq<u8>>> {
    Seq::new(csv_lines(d).len(), |r: int| row_fields(csv_lines(d)[r], delimiter_of(d)))
}

/// A field count as far as it can be recorded.
pub open spec fn recorded(n: int) -> u16 {
    if n < 65535 {
        n as u16
    } else {
        65535
    }
}

/// The recorded field counts.
pub open spec fn field_counts(rows: Seq<Seq<Seq<u8>>>) -> Seq<u16> {
    Seq::new(rows.len(), |r: int| recorded(rows[r].len() as int))
}

/// The largest of the first `k` counts.
pub open spec fn max_count(f: Seq<u16>, k: int) -> int
    decreases k,
{
    if k <= 0 {
        0
    } else if f[k - 1] > max_count(f, k - 1) {
        f[k - 1] as int
    } else {
        max_count(f, k - 1)
    }
}

/// The cell of a row in column `c`; empty where the row is shorter.
pub open spec fn cell(row: Seq<Seq<u8>>, c: int) -> Seq<u8> {
    if c < row.len() {
        row[c]
    } else {
        Seq::empty()
    }
}

/// The stream of column `c` over the first `k` rows.
pub open spec fn column_upto(rows: Seq<Seq<Seq<u8>>>, c: int, k: int) -> Seq<u8>
    decreases k,
{
    if k <= 0 {
        Seq::empty()
    } else {
        column_upto(rows, c, k - 1) + split_common::len_prefixed(cell(rows[k - 1], c))
    }
}

/// The streams of `d`.
pub open spec fn csv_streams(d: Seq<u8>) -> CsvView {
    let rows = csv_rows(d);
    CsvView {
        delim: delimiter_of(d),
        columns: Seq::new(
            max_count(field_counts(rows), rows.len() as int) as nat,
            |c: int| column_upto(rows, c, rows.len() as int),
        ),
        fields: field_counts(rows),
        trailing: ends_line(d),
    }
}

/// `k` cells read from position `pos` on, behind those in `acc`, and the
/// position behind them; or why one cannot be read.
pub open spec fn read_cells(col: Seq<u8>, pos: int, k: int, acc: Seq<Seq<u8>>) -> Result<
    (Seq<Seq<u8>>, int),
    Seq<char>,
>
    decreases k,
{
    if k <= 0 {
        Ok((acc, pos))
    } else {
        match split_common::blob_at(col, pos) {
            Ok((blob, next)) => read_cells(col, next, k - 1, acc.push(blob)),
            Err(m) => Err(m),
        }
    }
}

/// The cells of column number `ci`.
pub open spec fn column_cells(col: Seq<u8>, ci: int, nrows: int) -> Result<
    Seq<Seq<u8>>,
    Fault,
> {
    match read_cells(col, 0, nrows, Seq::empty()) {
        Err(m) => Err(Fault::CsvSplitError("column "@ + text::decimal(ci) + ": "@ + m)),
        Ok((cells, pos)) => if pos != col.len() {
            Err(
                Fault::CsvSplitError(
                    "column "@ + text::decimal(ci) + " has "@ + text::decimal(col.len() - pos)
                        + " trailing bytes"@,
                ),
            )
        } else {
            Ok(cells)
        },
    }
}

/// The cells of the columns from `ci` on, behind those in `acc`.
pub open spec fn all_cells(
    columns: Seq<Seq<u8>>,
    ci: int,
    nrows: int,
    acc: Seq<Seq<Seq<u8>>>,
) -> Result<Seq<Seq<Seq<u8>>>, Fault>
    decreases columns.len() - ci,
{
    if ci >= columns.len() {
        Ok(acc)
    } else {
        match column_cells(columns[ci], ci, nrows) {
            Ok(cells) => all_cells(columns, ci + 1, nrows, acc.push(cells)),
            Err(e) => Err(e),
        }
    }
}

/// The text of the first `k` fields of row `r`; a field without a column is
/// empty.
pub open spec fn row_text(cells: Seq<Seq<Seq<u8>>>, r: int, delim: u8, k: int) -> Seq<u8>
    decreases k,
{
    if k <= 0 {
        Seq::empty()
    } else {
        row_text(cells, r, delim, k - 1) + (if k > 1 {
            seq![delim]
        } else {
            Seq::empty()
        }) + (if k <= cells.len() {
            cells[k - 1][r]
        } else {
            Seq::empty()
        })
    }
}

/// The text of the first `k` rows.
pub open spec fn rows_text(v: CsvView, cells: Seq<Seq<Seq<u8>>>, k: int) -> Seq<u8>
    decreases k,
{
    if k <= 0 {
        Seq::empty()
    } else {
        rows_text(v, cells, k - 1) + row_text(cells, k - 1, v.delim, v.fields[k - 1] as int) + (
        if k < v.fields.len() || v.trailing {
            seq![NEWLINE]
        } else {
            Seq::empty()
        })
    }
}

/// The text that streams join to.
pub open spec fn csv_joined(v: CsvView) -> Result<Seq<u8>, Fault> {
    match all_cells(v.columns, 0, v.fields.len() as int, Seq::empty()) {
        Ok(cells) => Ok(rows_text(v, cells, v.fields.len() as int)),
        Err(e) => Err(e),
    }
}

/// Every row has a field count that can be recorded.
pub open spec fn rows_fit(d: Seq<u8>) -> bool {
    forall|r: int| 0 <= r < csv_rows(d).len() ==> (#[trigger] csv_rows(d)[r]).len() <= 65535
}

/// Joining the streams of a text gives the text back.
pub open spec fn csv_kept(d: Seq<u8>) -> bool {
    d.len() <= u32::MAX && csv_joined(csv_streams(d)) == Ok::<Seq<u8>, Fault>(d)
}

proof fn lemma_line_len(d: Seq<u8>)
    ensures
        0 <= line_len(d) <= d.len(),
        line_len(d) < d.len() ==> d[line_len(d)] == NEWLINE,
        forall|i: int| 0 <= i < line_len(d) ==> d[i] != NEWLINE,
    decreases d.len(),
{
    if d.len() > 0 && d[0] != NEWLINE {
        let t = d.drop_first();
        lemma_line_len(t);
        if line_len(t) < t.len() {
            assert(t[line_len(t)] == d[line_len(t) + 1]);
        }
        assert forall|i: int| 0 <= i < line_len(d) implies d[i] != NEWLINE by {
            if i > 0 {
                assert(t[i - 1] == d[i]);
            }
        }
    }
}

/// The lines with their newlines; the last one has its own only if `trailing`.
spec fn lines_text(lines: Seq<Seq<u8>>, trailing: bool) -> Seq<u8>
    decreases lines.len(),
{
    if lines.len() == 0 {
        Seq::empty()
    } else if lines.len() == 1 {
        lines[0] + if trailing {
            seq![NEWLINE]
        } else {
            Seq::empty()
        }
    } else {
        lines[0] + seq![NEWLINE] + lines_text(lines.drop_first(), trailing)
    }
}

proof fn lemma_lines_text(d: Seq<u8>)
    ensures
        lines_text(csv_lines(d), ends_line(d)) == d,
        d.len() > 0 ==> csv_lines(d).len() > 0,
        forall|r: int|
            0 <= r < csv_lines(d).len() ==> (#[trigger] csv_lines(d)[r]).len() <= d.len(),
    decreases d.len(),
{
    if d.len() > 0 {
        let k = line_len(d);
        lemma_line_len(d);
        let lines = csv_lines(d);
        if k < d.len() {
            let rest = d.skip(k + 1);
            lemma_lines_text(rest);
            assert(lines.drop_first() =~= csv_lines(rest));
            assert(lines[0] == d.take(k));
            if rest.len() > 0 {
                assert(rest.last() == d.last());
                assert(d.take(k) + seq![NEWLINE] + rest =~= d);
            } else {
                assert(d.take(k) + seq![NEWLINE] =~= d);
            }
            assert forall|r: int| 0 <= r < lines.len() implies (#[trigger] lines[r]).len()
                <= d.len() by {
                if r > 0 {
                    assert(lines[r] == csv_lines(rest)[r - 1]);
                }
            }
        } else {
            assert(lines =~= seq![d.take(k)]);
            assert(d.take(k) =~= d);
            assert(d[d.len() - 1] != NEWLINE);
            assert(d + Seq::<u8>::empty() =~= d);
        }
    } else {
        assert(d =~= Seq::<u8>::empty());
    }
}

/// The first `k` fields with delimiters between them.
spec fn joined_upto(f: Seq<Seq<u8>>, delim: u8, k: int) -> Seq<u8>
    decreases k,
{
    if k <= 0 {
        Seq::empty()
    } else {
        joined_upto(f, delim, k - 1) + (if k > 1 {
            seq![delim]
        } else {
            Seq::empty()
        }) + f[k - 1]
    }
}

proof fn lemma_joined_cons(x: Seq<u8>, f: Seq<Seq<u8>>, delim: u8, k: int)
    requires
        1 <= k <= f.len(),
    ensures
        joined_upto(seq![x] + f, delim, k + 1) == x + seq![delim] + joined_upto(f, delim, k),
    decreases k,
{
    let g = seq![x] + f;
    assert(g[k] == f[k - 1]);
    if k > 1 {
        lemma_joined_cons(x, f, delim, k - 1);
    } else {
        reveal_with_fuel(joined_upto, 3);
        assert(g[0] == x);
    }
    assert(joined_upto(g, delim, k + 1) =~= x + seq![delim] + joined_upto(f, delim, k));
}

/// Joining the fields of a line gives what was pending and the line.
proof fn lemma_fields(line: Seq<u8>, delim: u8, quoted: bool, cur: Seq<u8>)
    ensures
        csv_fields(line, delim, quoted, cur).len() >= 1,
        joined_upto(
            csv_fields(line, delim, quoted, cur),
            delim,
            csv_fields(line, delim, quoted, cur).len() as int,
        ) == cur + line,
        forall|i: int|
            0 <= i < csv_fields(line, delim, quoted, cur).len() ==> (#[trigger] csv_fields(
                line,
                delim,
                quoted,
                cur,
            )[i]).len() <= cur.len() + line.len(),
    decreases line.len(),
{
    let f = csv_fields(line, delim, quoted, cur);
    if line.len() == 0 {
        reveal_with_fuel(joined_upto, 2);
        assert(joined_upto(f, delim, 1) =~= cur + line);
    } else {
        let b = line[0];
        let rest = line.drop_first();
        if quoted {
            if b == QUOTE && rest.len() > 0 && rest[0] == QUOTE {
                lemma_fields(line.skip(2), delim, true, cur.push(b).push(QUOTE));
                assert(cur.push(b).push(QUOTE) + line.skip(2) =~= cur + line);
            } else {
                lemma_fields(rest, delim, b != QUOTE, cur.push(b));
                assert(cur.push(b) + rest =~= cur + line);
            }
        } else if b == QUOTE {
            lemma_fields(rest, delim, true, cur.push(b));
            assert(cur.push(b) + rest =~= cur + line);
        } else if b == delim {
            let g = csv_fields(rest, delim, false, Seq::empty());
            lemma_fields(rest, delim, false, Seq::empty());
            lemma_joined_cons(cur, g, delim, g.len() as int);
            assert(cur + seq![delim] + (Seq::<u8>::empty() + rest) =~= cur + line);
            assert forall|i: int| 0 <= i < f.len() implies (#[trigger] f[i]).len() <= cur.len()
                + line.len() by {
                if i > 0 {
                    assert(f[i] == g[i - 1]);
                }
            }
        } else {
            lemma_fields(rest, delim, false, cur.push(b));
            assert(cur.push(b) + rest =~= cur + line);
        }
    }
}

proof fn lemma_max_count(f: Seq<u16>, k: int)
    requires
        0 <= k <= f.len(),
    ensures
        0 <= max_count(f, k) <= 65535,
        forall|i: int| 0 <= i < k ==> f[i] <= max_count(f, k),
    decreases k,
{
    if k > 0 {
        lemma_max_count(f, k - 1);
    }
}

proof fn lemma_column_prefix(rows: Seq<Seq<Seq<u8>>>, c: int, i: int, j: int)
    requires
        0 <= i <= j,
    ensures
        column_upto(rows, c, i).len() <= column_upto(rows, c, j).len(),
        column_upto(rows, c, j).take(column_upto(rows, c, i).len() as int) == column_upto(
            rows,
            c,
            i,
        ),
    decreases j - i,
{
    let a = column_upto(rows, c, i);
    if i < j {
        lemma_column_prefix(rows, c, i, j - 1);
        assert(column_upto(rows, c, j).take(a.len() as int) =~= column_upto(rows, c, j - 1).take(
            a.len() as int,
        ));
    } else {
        assert(a.take(a.len() as int) =~= a);
    }
}

spec fn cells_of(rows: Seq<Seq<Seq<u8>>>, c: int) -> Seq<Seq<u8>> {
    Seq::new(rows.len(), |r: int| cell(rows[r], c))
}

/// The cell of row `r` can be read where the earlier ones end.
proof fn lemma_column_blob(rows: Seq<Seq<Seq<u8>>>, c: int, r: int)
    requires
        0 <= r < rows.len(),
        cell(rows[r], c).len() <= u32::MAX,
    ensures
        split_common::blob_at(
            column_upto(rows, c, rows.len() as int),
            column_upto(rows, c, r).len() as int,
        ) == Ok::<(Seq<u8>, int), Seq<char>>(
            (cell(rows[r], c), column_upto(rows, c, r + 1).len() as int),
        ),
{
    let n = rows.len() as int;
    let col = column_upto(rows, c, n);
    let before = column_upto(rows, c, r);
    let x = cell(rows[r], c);
    let upto = column_upto(rows, c, r + 1);
    lemma_column_prefix(rows, c, r + 1, n);
    assert(upto == before + split_common::len_prefixed(x));
    assert(upto.len() == before.len() + 4 + x.len());
    split_common::lemma_blob_within(col, before, x);
}

/// Reading a column from row `r` on gives the cells that were written.
proof fn lemma_read_cells(rows: Seq<Seq<Seq<u8>>>, c: int, r: int)
    requires
        0 <= r <= rows.len(),
        forall|k: int| 0 <= k < rows.len() ==> cell(#[trigger] rows[k], c).len() <= u32::MAX,
    ensures
        read_cells(
            column_upto(rows, c, rows.len() as int),
            column_upto(rows, c, r).len() as int,
            rows.len() - r,
            cells_of(rows, c).take(r),
        ) == Ok::<(Seq<Seq<u8>>, int), Seq<char>>(
            (cells_of(rows, c), column_upto(rows, c, rows.len() as int).len() as int),
        ),
    decreases rows.len() - r,
{
    let n = rows.len() as int;
    let col = column_upto(rows, c, n);
    let cells = cells_of(rows, c);
    if r < n {
        lemma_read_cells(rows, c, r + 1);
        lemma_column_blob(rows, c, r);
        assert(cells.take(r + 1) =~= cells.take(r).push(cell(rows[r], c)));
    } else {
        assert(cells.take(r) =~= cells);
    }
}

proof fn lemma_all_cells(rows: Seq<Seq<Seq<u8>>>, ncols: int, ci: int)
    requires
        0 <= ci <= ncols,
        forall|k: int, c: int|
            0 <= k < rows.len() && 0 <= c < ncols ==> (#[trigger] cell(rows[k], c)).len()
                <= u32::MAX,
    ensures
        all_cells(
            Seq::new(ncols as nat, |c: int| column_upto(rows, c, rows.len() as int)),
            ci,
            rows.len() as int,
            Seq::new(ci as nat, |c: int| cells_of(rows, c)),
        ) == Ok::<Seq<Seq<Seq<u8>>>, Fault>(Seq::new(ncols as nat, |c: int| cells_of(rows, c))),
    decreases ncols - ci,
{
    let columns = Seq::new(ncols as nat, |c: int| column_upto(rows, c, rows.len() as int));
    let acc = Seq::new(ci as nat, |c: int| cells_of(rows, c));
    if ci < ncols {
        assert forall|k: int| 0 <= k < rows.len() implies cell(#[trigger] rows[k], ci).len()
            <= u32::MAX by {}
        lemma_read_cells(rows, ci, 0);
        assert(cells_of(rows, ci).take(0) =~= Seq::empty());
        assert(acc.push(cells_of(rows, ci)) =~= Seq::new(
            (ci + 1) as nat,
            |c: int| cells_of(rows, c),
        ));
        lemma_all_cells(rows, ncols, ci + 1);
    }
}

proof fn lemma_row_text(
    cells: Seq<Seq<Seq<u8>>>,
    row: Seq<Seq<u8>>,
    r: int,
    delim: u8,
    k: int,
)
    requires
        0 <= k <= row.len(),
        row.len() <= cells.len(),
        forall|c: int| 0 <= c < row.len() ==> (#[trigger] cells[c])[r] == row[c],
    ensures
        row_text(cells, r, delim, k) == joined_upto(row, delim, k),
    decreases k,
{
    if k > 0 {
        lemma_row_text(cells, row, r, delim, k - 1);
        assert(cells[k - 1][r] == row[k - 1]);
    }
}

proof fn lemma_rows_text(v: CsvView, cells: Seq<Seq<Seq<u8>>>, lines: Seq<Seq<u8>>, k: int)
    requires
        0 <= k <= lines.len(),
        v.fields.len() == lines.len(),
        forall|r: int|
            0 <= r < lines.len() ==> row_text(cells, r, v.delim, v.fields[r] as int)
                == #[trigger] lines[r],
    ensures
        rows_text(v, cells, k) + lines_text(lines.skip(k), v.trailing) == lines_text(
            lines,
            v.trailing,
        ),
    decreases k,
{
    if k > 0 {
        lemma_rows_text(v, cells, lines, k - 1);
        let rest = lines.skip(k - 1);
        assert(rest[0] == lines[k - 1]);
        assert(rest.drop_first() =~= lines.skip(k));
        assert(row_text(cells, k - 1, v.delim, v.fields[k - 1] as int) == lines[k - 1]);
        assert(rows_text(v, cells, k) + lines_text(lines.skip(k), v.trailing) =~= rows_text(
            v,
            cells,
            k - 1,
        ) + lines_text(rest, v.trailing));
    } else {
        assert(lines.skip(0) =~= lines);
        assert(rows_text(v, cells, 0) + lines_text(lines, v.trailing) =~= lines_text(
            lines,
            v.trailing,
        ));
    }
}

/// Joining the streams of a text gives the text back, unless a row has more
/// fields than can be recorded.
pub proof fn law_csv_round_trip(d: Seq<u8>)
    requires
        d.len() <= u32::MAX,
        rows_fit(d),
    ensures
        csv_joined(csv_streams(d)) == Ok::<Seq<u8>, Fault>(d),
{
    let v = csv_streams(d);
    let lines = csv_lines(d);
    let rows = csv_rows(d);
    let n = rows.len() as int;
    let ncols = max_count(field_counts(rows), n);
    lemma_lines_text(d);
    lemma_max_count(field_counts(rows), n);
    assert forall|k: int, c: int| 0 <= k < rows.len() && 0 <= c < ncols implies (#[trigger] cell(
        rows[k],
        c,
    )).len() <= u32::MAX by {
        lemma_fields(lines[k], v.delim, false, Seq::empty());
        assert(lines[k].len() <= d.len());
        if c < rows[k].len() {
            assert(rows[k] == csv_fields(lines[k], v.delim, false, Seq::empty()));
            assert(rows[k][c].len() <= lines[k].len());
        }
    }
    lemma_all_cells(rows, ncols, 0);
    assert(Seq::new(0, |c: int| cells_of(rows, c)) =~= Seq::<Seq<Seq<u8>>>::empty());
    let cells = Seq::new(ncols as nat, |c: int| cells_of(rows, c));
    assert forall|r: int| 0 <= r < lines.len() implies row_text(
        cells,
        r,
        v.delim,
        v.fields[r] as int,
    ) == #[trigger] lines[r] by {
        let row = rows[r];
        assert(csv_rows(d)[r].len() <= 65535);
        assert(v.fields[r] == row.len());
        assert(row.len() <= ncols);
        assert forall|c: int| 0 <= c < row.len() implies (#[trigger] cells[c])[r] == row[c] by {
            assert(cells[c] == cells_of(rows, c));
        }
        lemma_row_text(cells, row, r, v.delim, row.len() as int);
        lemma_fields(lines[r], v.delim, false, Seq::empty());
        assert(Seq::<u8>::empty() + lines[r] =~= lines[r]);
    }
    lemma_rows_text(v, cells, lines, n);
    assert(lines.skip(n) =~= Seq::empty());
    assert(rows_text(v, cells, n) + Seq::<u8>::empty() =~= rows_text(v, cells, n));
}

/// The length of the first `k` lines.
spec fn lines_len(lines: Seq<Seq<u8>>, k: int) -> int
    decreases k,
{
    if k <= 0 {
        0
    } else {
        lines_len(lines, k - 1) + lines[k - 1].len()
    }
}

proof fn lemma_lines_len_cons(x: Seq<u8>, rest: Seq<Seq<u8>>, k: int)
    requires
        0 <= k <= rest.len(),
    ensures
        lines_len(seq![x] + rest, k + 1) == x.len() + lines_len(rest, k),
    decreases k,
{
    if k > 0 {
        lemma_lines_len_cons(x, rest, k - 1);
        assert((seq![x] + rest)[k] == rest[k - 1]);
    } else {
        reveal_with_fuel(lines_len, 2);
    }
}

proof fn lemma_lines_len(d: Seq<u8>)
    ensures
        lines_len(csv_lines(d), csv_lines(d).len() as int) + csv_lines(d).len() <= d.len() + 1,
        d.len() == 0 ==> csv_lines(d).len() == 0,
        csv_lines(d).len() <= d.len(),
    decreases d.len(),
{
    if d.len() > 0 {
        let k = line_len(d);
        lemma_line_len(d);
        if k < d.len() {
            let rest = d.skip(k + 1);
            lemma_lines_len(rest);
            lemma_lines_len_cons(d.take(k), csv_lines(rest), csv_lines(rest).len() as int);
        } else {
            reveal_with_fuel(lines_len, 2);
            assert(csv_lines(d) =~= seq![d.take(k)]);
        }
    }
}

proof fn lemma_column_len(d: Seq<u8>, c: int, k: int)
    requires
        0 <= c,
        0 <= k <= csv_rows(d).len(),
    ensures
        column_upto(csv_rows(d), c, k).len() <= 4 * k + lines_len(csv_lines(d), k),
    decreases k,
{
    if k > 0 {
        lemma_column_len(d, c, k - 1);
        lemma_fields(csv_lines(d)[k - 1], delimiter_of(d), false, Seq::empty());
        let row = csv_rows(d)[k - 1];
        assert(row == csv_fields(csv_lines(d)[k - 1], delimiter_of(d), false, Seq::empty()));
        if c < row.len() {
            assert(row[c].len() <= csv_lines(d)[k - 1].len());
        }
    }
}

/// A line ends at the next line feed, which belongs to no line.
pub proof fn law_csv_lines(line: Seq<u8>, rest: Seq<u8>)
    requires
        forall|i: int| 0 <= i < line.len() ==> #[trigger] line[i] != 0x0A,
    ensures
        csv_lines(line + seq![0x0Au8] + rest) == seq![line] + csv_lines(rest),
        line.len() > 0 ==> csv_lines(line) == seq![line],
{
    let d = line + seq![0x0Au8] + rest;
    lemma_line_len_of(line, seq![0x0Au8] + rest);
    assert(d =~= line + (seq![0x0Au8] + rest));
    assert(d.take(line.len() as int) =~= line);
    assert(d.skip(line.len() as int + 1) =~= rest);
    lemma_line_len_of(line, Seq::empty());
    assert(line + Seq::<u8>::empty() =~= line);
    assert(line.take(line.len() as int) =~= line);
    assert(seq![line] + Seq::<Seq<u8>>::empty() =~= seq![line]);
}

proof fn lemma_line_len_of(line: Seq<u8>, r: Seq<u8>)
    requires
        forall|i: int| 0 <= i < line.len() ==> #[trigger] line[i] != 0x0A,
        r.len() > 0 ==> r[0] == 0x0A,
    ensures
        line_len(line + r) == line.len(),
    decreases line.len(),
{
    let d = line + r;
    if line.len() > 0 {
        let rest = line.drop_first();
        assert(d[0] == line[0]);
        assert(d.drop_first() =~= rest + r);
        assert forall|i: int| 0 <= i < rest.len() implies #[trigger] rest[i] != 0x0A by {
            assert(line[i + 1] == rest[i]);
        }
        lemma_line_len_of(rest, r);
    } else {
        assert(d =~= r);
    }
}

proof fn lemma_plain_field(x: Seq<u8>, r: Seq<u8>, delim: u8, cur: Seq<u8>)
    requires
        forall|i: int| 0 <= i < x.len() ==> #[trigger] x[i] != delim && x[i] != 0x22,
    ensures
        csv_fields(x + r, delim, false, cur) == csv_fields(r, delim, false, cur + x),
    decreases x.len(),
{
    let d = x + r;
    if x.len() > 0 {
        let rest = x.drop_first();
        assert(d[0] == x[0]);
        assert(d.drop_first() =~= rest + r);
        assert forall|i: int| 0 <= i < rest.len() implies #[trigger] rest[i] != delim && rest[i]
            != 0x22 by {
            assert(x[i + 1] == rest[i]);
        }
        lemma_plain_field(rest, r, delim, cur.push(x[0]));
        assert(cur.push(x[0]) + rest =~= cur + x);
    } else {
        assert(d =~= r);
        assert(cur + x =~= cur);
    }
}

proof fn lemma_quoted_field(x: Seq<u8>, r: Seq<u8>, delim: u8, cur: Seq<u8>)
    requires
        forall|i: int| 0 <= i < x.len() ==> #[trigger] x[i] != 0x22,
        r.len() > 0 ==> r[0] != 0x22,
    ensures
        csv_fields(x + seq![0x22u8] + r, delim, true, cur) == csv_fields(
            r,
            delim,
            false,
            cur + x + seq![0x22u8],
        ),
    decreases x.len(),
{
    let d = x + seq![0x22u8] + r;
    if x.len() > 0 {
        let rest = x.drop_first();
        assert(d[0] == x[0]);
        assert(d.drop_first() =~= rest + seq![0x22u8] + r);
        assert forall|i: int| 0 <= i < rest.len() implies #[trigger] rest[i] != 0x22 by {
            assert(x[i + 1] == rest[i]);
        }
        lemma_quoted_field(rest, r, delim, cur.push(x[0]));
        assert(cur.push(x[0]) + rest + seq![0x22u8] =~= cur + x + seq![0x22u8]);
    } else {
        assert(d[0] == 0x22);
        assert(d.drop_first() =~= r);
        assert(cur.push(0x22) =~= cur + x + seq![0x22u8]);
    }
}

/// A field ends at the next delimiter that stands outside double quotes; a field in
/// quotes may hold delimiters.
pub proof fn law_csv_fields(x: Seq<u8>, rest: Seq<u8>, delim: u8)
    requires
        delim != 0x22,
        forall|i: int| 0 <= i < x.len() ==> #[trigger] x[i] != 0x22,
    ensures
        (forall|i: int| 0 <= i < x.len() ==> #[trigger] x[i] != delim) ==> row_fields(
            x + seq![delim] + rest,
            delim,
        ) == seq![x] + row_fields(rest, delim) && row_fields(x, delim) == seq![x],
        row_fields(seq![0x22u8] + x + seq![0x22u8] + seq![delim] + rest, delim) == seq![
            seq![0x22u8] + x + seq![0x22u8],
        ] + row_fields(rest, delim),
{
    let none = Seq::<u8>::empty();
    let tail = seq![delim] + rest;
    assert(tail.drop_first() =~= rest);
    if forall|i: int| 0 <= i < x.len() ==> #[trigger] x[i] != delim {
        lemma_plain_field(x, tail, delim, none);
        assert(x + tail =~= x + seq![delim] + rest);
        assert(none + x =~= x);
        lemma_plain_field(x, none, delim, none);
        assert(x + none =~= x);
    }
    let q = seq![0x22u8];
    let d = q + x + q + seq![delim] + rest;
    assert(d[0] == 0x22);
    assert(d.drop_first() =~= x + q + tail);
    lemma_quoted_field(x, tail, delim, none.push(0x22));
    assert(none.push(0x22) + x + q =~= q + x + q);
}

/// Column `c` of a table holds, one behind the other and each behind its length, the
/// fields with that number of all rows, empty ones where a row is shorter; and the
/// number of fields of each row is recorded up to 65535.
pub proof fn law_csv_columns(d: Seq<u8>, c: int)
    requires
        d.len() <= u32::MAX,
        0 <= c < csv_streams(d).columns.len(),
    ensures
        ({
            let v = csv_streams(d);
            let lines = csv_lines(d);
            &&& v.fields.len() == lines.len()
            &&& read_cells(v.columns[c], 0, lines.len() as int, Seq::empty()) == Ok::<
                (Seq<Seq<u8>>, int),
                Seq<char>,
            >(
                (
                    Seq::new(
                        lines.len(),
                        |r: int|
                            if c < row_fields(lines[r], v.delim).len() {
                                row_fields(lines[r], v.delim)[c]
                            } else {
                                Seq::empty()
                            },
                    ),
                    v.columns[c].len() as int,
                ),
            )
            &&& forall|r: int|
                0 <= r < lines.len() ==> (#[trigger] v.fields[r] == row_fields(
                    lines[r],
                    v.delim,
                ).len() || row_fields(lines[r], v.delim).len() > 65535 && v.fields[r] == 65535)
            &&& forall|r: int|
                0 <= r < lines.len() ==> #[trigger] v.fields[r] <= v.columns.len()
        }),
{
    let v = csv_streams(d);
    let lines = csv_lines(d);
    let rows = csv_rows(d);
    lemma_lines_text(d);
    assert forall|k: int| 0 <= k < rows.len() implies cell(#[trigger] rows[k], c).len()
        <= u32::MAX by {
        lemma_fields(lines[k], v.delim, false, Seq::empty());
        assert(lines[k].len() <= d.len());
        if c < rows[k].len() {
            assert(rows[k] == csv_fields(lines[k], v.delim, false, Seq::empty()));
            assert(rows[k][c].len() <= lines[k].len());
        }
    }
    lemma_read_cells(rows, c, 0);
    assert(cells_of(rows, c).take(0) =~= Seq::<Seq<u8>>::empty());
    assert(cells_of(rows, c) =~= Seq::new(
        lines.len(),
        |r: int|
            if c < row_fields(lines[r], v.delim).len() {
                row_fields(lines[r], v.delim)[c]
            } else {
                Seq::empty()
            },
    ));
    lemma_max_count(field_counts(rows), rows.len() as int);
}

/// The columns of a block are not much longer than the block, and their number
/// and that of the rows are bounded.
pub proof fn lemma_csv_sizes(d: Seq<u8>)
    ensures
        csv_streams(d).columns.len() <= u16::MAX,
        csv_streams(d).fields.len() <= d.len(),
        forall|c: int|
            0 <= c < csv_streams(d).columns.len() ==> (#[trigger] csv_streams(d).columns[c]).len()
                <= 5 * d.len() + 1,
{
    let rows = csv_rows(d);
    lemma_lines_len(d);
    lemma_max_count(field_counts(rows), rows.len() as int);
    assert forall|c: int| 0 <= c < csv_streams(d).columns.len() implies (#[trigger] csv_streams(
        d,
    ).columns[c]).len() <= 5 * d.len() + 1 by {
        lemma_column_len(d, c, rows.len() as int);
    }
}

impl CsvStreams {
    /// Number of rows.
    pub fn nrows(&self) -> (n: usize)
        ensures
            n == self@.fields.len(),
    {
        self.fields_per_row.len()
    }

    /// Number of columns.
    pub fn ncols(&self) -> (n: usize)
        ensures
            n == self@.columns.len(),
    {
        self.columns.len()
    }

    /// Total bytes across all column streams.
    pub fn total_len(&self) -> (n: usize)
        requires
            total_upto(self@.columns, self@.columns.len() as int) <= usize::MAX,
        ensures
            n == total_upto(self@.columns, self@.columns.len() as int),
    {
        let ghost cols = self@.columns;
        let mut n: usize = 0;
        let mut i: usize = 0;
        while i < self.columns.len()
            invariant
                cols == self@.columns,
                i <= cols.len(),
                total_upto(cols, cols.len() as int) <= usize::MAX,
                n == total_upto(cols, i as int),
            decreases cols.len() - i,
        {
            proof {
                lemma_total_mono(cols, i + 1, cols.len() as int);
                assert(cols[i as int] == self.columns@[i as int]@);
            }
            n = n + self.columns[i].len();
            i = i + 1;
        }
        n
    }
}

/// The length of the first `k` sequences together.
pub open spec fn total_upto(s: Seq<Seq<u8>>, k: int) -> int
    decreases k,
{
    if k <= 0 {
        0
    } else {
        total_upto(s, k - 1) + s[k - 1].len()
    }
}

proof fn lemma_total_mono(s: Seq<Seq<u8>>, i: int, j: int)
    requires
        i <= j,
    ensures
        total_upto(s, i) <= total_upto(s, j),
    decreases j - i,
{
    if i < j {
        lemma_total_mono(s, i, j - 1);
    }
}

fn detect_delim(data: &[u8]) -> (r: u8)
    ensures
        r == delimiter_of(data@),
{
    let part: &[u8] = split_common::sample_prefix(data);
    let commas: usize = split_common::count_byte(part, COMMA);
    let tabs: usize = split_common::count_byte(part, TAB);
    if tabs > commas {
        TAB
    } else {
        COMMA
    }
}

/// Splits a single row on `delim`, respecting double-quoted fields. Quoted
/// fields keep their quotes.
pub fn split_row(line: &[u8], delim: u8) -> (fields: Vec<Vec<u8>>)
    ensures
        byte_views(fields@) == row_fields(line@, delim),
{
    let ghost goal = row_fields(line@, delim);
    let mut fields: Vec<Vec<u8>> = Vec::new();
    let mut cur: Vec<u8> = Vec::new();
    let mut quoted: bool = false;
    let mut i: usize = 0;
    assert(line@.skip(0) =~= line@);
    assert(byte_views(fields@) + goal =~= goal);
    while i < line.len()
        invariant
            i <= line@.len(),
            byte_views(fields@) + csv_fields(line@.skip(i as int), delim, quoted, cur@) == goal,
        decreases line@.len() - i,
    {
        let ghost rest = line@.skip(i as int);
        let b: u8 = line[i];
        assert(rest[0] == b);
        assert(rest.drop_first() =~= line@.skip(i + 1));
        if quoted {
            cur.push(b);
            if b == QUOTE && line.len() - i > 1 && line[i + 1] == QUOTE {
                assert(rest.drop_first()[0] == QUOTE);
                assert(rest.skip(2) =~= line@.skip(i + 2));
                cur.push(QUOTE);
                i = i + 2;
            } else {
                if line.len() - i > 1 {
                    assert(rest.drop_first()[0] == line@[i + 1]);
                }
                quoted = b != QUOTE;
                i = i + 1;
            }
        } else if b == QUOTE {
            quoted = true;
            cur.push(b);
            i = i + 1;
        } else if b == delim {
            let ghost before = byte_views(fields@);
            let ghost c = cur@;
            let mut done: Vec<u8> = Vec::new();
            done.append(&mut cur);
            fields.push(done);
            i = i + 1;
            assert(done@ =~= c);
            assert(byte_views(fields@) =~= before.push(c));
            assert(byte_views(fields@) + csv_fields(
                line@.skip(i as int),
                delim,
                false,
                Seq::empty(),
            ) =~= before + csv_fields(rest, delim, false, c));
        } else {
            cur.push(b);
            i = i + 1;
        }
    }
    let ghost before = byte_views(fields@);
    let ghost c = cur@;
    fields.push(cur);
    assert(line@.skip(i as int).len() == 0);
    assert(byte_views(fields@) =~= before + seq![c]);
    fields
}

/// The fields of a list of rows.
pub open spec fn row_views(v: Seq<Vec<Vec<u8>>>) -> Seq<Seq<Seq<u8>>> {
    Seq::new(v.len(), |i: int| byte_views(v[i]@))
}

/// The end of the line that starts at `from`.
fn find_line_end(data: &[u8], from: usize) -> (end: usize)
    requires
        from <= data@.len(),
    ensures
        end == from + line_len(data@.skip(from as int)),
        from <= end <= data@.len(),
{
    let ghost total = line_len(data@.skip(from as int));
    let mut i: usize = from;
    while i < data.len() && data[i] != NEWLINE
        invariant
            from <= i <= data@.len(),
            total == i - from + line_len(data@.skip(i as int)),
        decreases data@.len() - i,
    {
        assert(data@.skip(i as int).drop_first() =~= data@.skip(i + 1));
        i = i + 1;
    }
    i
}

/// The rows of `data`, split into fields.
fn parse_rows(data: &[u8], delim: u8) -> (rows: Vec<Vec<Vec<u8>>>)
    ensures
        row_views(rows@) == Seq::new(
            csv_lines(data@).len(),
            |r: int| row_fields(csv_lines(data@)[r], delim),
        ),
{
    let ghost lines = csv_lines(data@);
    let mut rows: Vec<Vec<Vec<u8>>> = Vec::new();
    let mut i: usize = 0;
    assert(data@.skip(0) =~= data@);
    while i < data.len()
        invariant
            i <= data@.len(),
            lines == csv_lines(data@),
            rows@.len() <= lines.len(),
            lines.skip(rows@.len() as int) == csv_lines(data@.skip(i as int)),
            forall|r: int|
                0 <= r < rows@.len() ==> #[trigger] row_views(rows@)[r] == row_fields(
                    lines[r],
                    delim,
                ),
        decreases data@.len() - i,
    {
        let ghost rest = data@.skip(i as int);
        let ghost before = rows@;
        let end: usize = find_line_end(data, i);
        let ghost k = end - i;
        let line: &[u8] = vstd::slice::slice_subrange(data, i, end);
        assert(line@ =~= rest.take(k));
        let ghost m = rows@.len() as int;
        assert(csv_lines(rest).len() > 0);
        assert(lines.skip(m)[0] == rest.take(k));
        assert(lines[m] == line@);
        rows.push(split_row(line, delim));
        proof {
            if end < data@.len() {
                assert(rest.skip(k + 1) =~= data@.skip(end + 1));
            }
            assert(lines.skip(m + 1) =~= lines.skip(m).drop_first());
            assert forall|r: int| 0 <= r < rows@.len() implies #[trigger] row_views(rows@)[r]
                == row_fields(lines[r], delim) by {
                if r < m {
                    assert(row_views(before)[r] == row_fields(lines[r], delim));
                    assert(rows@[r] == before[r]);
                }
            }
        }
        if end < data.len() {
            assert(lines.skip(m + 1) =~= csv_lines(rest.skip(k + 1)));
            i = end + 1;
        } else {
            assert(data@.skip(end as int) =~= Seq::<u8>::empty());
            assert(lines.skip(m + 1) =~= Seq::empty());
            i = end;
        }
    }
    assert(data@.skip(i as int).len() == 0);
    assert(lines.skip(rows@.len() as int).len() == 0);
    assert(row_views(rows@) =~= Seq::new(lines.len(), |r: int| row_fields(lines[r], delim)));
    rows
}

/// Splits `data` into per-column streams (shorter rows are padded with empty
/// cells).
pub fn split(data: &[u8]) -> (out: CsvStreams)
    requires
        data@.len() <= u32::MAX,
    ensures
        out@ == csv_streams(data@),
{
    let delim: u8 = detect_delim(data);
    let trailing: bool = data.len() > 0 && data[data.len() - 1] == NEWLINE;
    let rows: Vec<Vec<Vec<u8>>> = parse_rows(data, delim);
    let ghost spec_rows = csv_rows(data@);
    assert(row_views(rows@) =~= spec_rows);
    let ghost n = spec_rows.len() as int;
    let mut fields: Vec<u16> = Vec::new();
    let mut ncols: usize = 0;
    let mut r: usize = 0;
    while r < rows.len()
        invariant
            r <= rows@.len(),
            spec_rows == row_views(rows@),
            fields@.len() == r,
            fields@ =~= field_counts(spec_rows).take(r as int),
            ncols == max_count(field_counts(spec_rows), r as int),
            ncols <= 65535,
        decreases rows@.len() - r,
    {
        let len: usize = rows[r].len();
        assert(spec_rows[r as int].len() == len);
        let f: u16 = if len < 65535 {
            len as u16
        } else {
            65535
        };
        fields.push(f);
        if f as usize > ncols {
            ncols = f as usize;
        }
        r = r + 1;
    }
    assert(fields@ =~= field_counts(spec_rows));
    proof {
        lemma_lines_text(data@);
        assert forall|k: int, c: int|
            0 <= k < n && 0 <= c implies (#[trigger] cell(spec_rows[k], c)).len()
                <= u32::MAX by {
            lemma_fields(csv_lines(data@)[k], delim, false, Seq::empty());
            assert(csv_lines(data@)[k].len() <= data@.len());
            if c < spec_rows[k].len() {
                assert(spec_rows[k] == csv_fields(
                    csv_lines(data@)[k],
                    delim,
                    false,
                    Seq::empty(),
                ));
                assert(spec_rows[k][c].len() <= csv_lines(data@)[k].len());
            }
        }
    }
    let mut columns: Vec<Vec<u8>> = Vec::new();
    let mut c: usize = 0;
    while c < ncols
        invariant
            c <= ncols,
            n == spec_rows.len(),
            spec_rows == row_views(rows@),
            forall|k: int, e: int|
                0 <= k < n && 0 <= e ==> (#[trigger] cell(spec_rows[k], e)).len() <= u32::MAX,
            columns@.len() == c,
            forall|e: int|
                0 <= e < c ==> #[trigger] byte_views(columns@)[e] == column_upto(
                    spec_rows,
                    e,
                    n,
                ),
        decreases ncols - c,
    {
        let mut col: Vec<u8> = Vec::new();
        let mut r: usize = 0;
        while r < rows.len()
            invariant
                r <= rows@.len(),
                n == rows@.len(),
                n == spec_rows.len(),
                spec_rows == row_views(rows@),
                forall|k: int, e: int|
                    0 <= k < n && 0 <= e ==> (#[trigger] cell(spec_rows[k], e)).len()
                        <= u32::MAX,
                col@ == column_upto(spec_rows, c as int, r as int),
            decreases rows@.len() - r,
        {
            assert(spec_rows[r as int] == byte_views(rows@[r as int]@));
            assert(cell(spec_rows[r as int], c as int).len() <= u32::MAX);
            if c < rows[r].len() {
                push_cell(&mut col, rows[r][c].as_slice());
            } else {
                let empty: Vec<u8> = Vec::new();
                push_cell(&mut col, empty.as_slice());
            }
            r = r + 1;
        }
        let ghost before = columns@;
        columns.push(col);
        assert forall|e: int| 0 <= e < c + 1 implies #[trigger] byte_views(columns@)[e]
            == column_upto(spec_rows, e, n) by {
            if e < c {
                assert(byte_views(before)[e] == column_upto(spec_rows, e, n));
                assert(columns@[e] == before[e]);
            }
        }
        c = c + 1;
    }
    let out = CsvStreams { delim, columns, fields_per_row: fields, trailing_newline: trailing };
    assert(out@ =~= csv_streams(data@));
    out
}

fn push_cell(col: &mut Vec<u8>, data: &[u8])
    requires
        data@.len() <= u32::MAX,
    ensures
        final(col)@ == old(col)@ + split_common::len_prefixed(data@),
{
    split_common::write_len_prefixed(col, data);
}

/// Decodes the cells of one column.
fn decode_column(col: &[u8], ci: usize, nrows: usize) -> (r: Result<Vec<Vec<u8>>, RcnError>)
    ensures
        r matches Ok(v) ==> column_cells(col@, ci as int, nrows as int) == Ok::<
            Seq<Seq<u8>>,
            Fault,
        >(byte_views(v@)),
        r matches Err(e) ==> column_cells(col@, ci as int, nrows as int) == Err::<
            Seq<Seq<u8>>,
            Fault,
        >(e@),
{
    let ghost goal = read_cells(col@, 0, nrows as int, Seq::empty());
    let mut cells: Vec<Vec<u8>> = Vec::new();
    let mut pos: usize = 0;
    let mut left: usize = nrows;
    assert(byte_views(cells@) =~= Seq::empty());
    while left > 0
        invariant
            goal == read_cells(col@, 0, nrows as int, Seq::empty()),
            goal == read_cells(col@, pos as int, left as int, byte_views(cells@)),
            pos <= col@.len(),
        decreases left,
    {
        match split_common::read_len_prefixed(col, pos) {
            Err(e) => {
                let mut m = String::from_str("column ");
                text::push_decimal(&mut m, ci as u64);
                m.append(": ");
                m.append(e.as_str());
                return Err(RcnError::CsvSplitError(m));
            },
            Ok((v, next)) => {
                let ghost before = byte_views(cells@);
                let ghost x = v@;
                cells.push(v);
                assert(byte_views(cells@) =~= before.push(x));
                pos = next;
            },
        }
        left = left - 1;
    }
    if pos != col.len() {
        let mut m = String::from_str("column ");
        text::push_decimal(&mut m, ci as u64);
        m.append(" has ");
        text::push_decimal(&mut m, (col.len() - pos) as u64);
        m.append(" trailing bytes");
        return Err(RcnError::CsvSplitError(m));
    }
    Ok(cells)
}

proof fn lemma_read_cells_len(col: Seq<u8>, pos: int, k: int, acc: Seq<Seq<u8>>)
    requires
        0 <= k,
    ensures
        read_cells(col, pos, k, acc) matches Ok((cells, p)) ==> cells.len() == acc.len() + k,
    decreases k,
{
    if k > 0 {
        match split_common::blob_at(col, pos) {
            Ok((blob, next)) => {
                lemma_read_cells_len(col, next, k - 1, acc.push(blob));
            },
            Err(_) => {},
        }
    }
}

/// Merges column streams back into CSV text.
pub fn join(streams: &CsvStreams) -> (r: Result<Vec<u8>, RcnError>)
    ensures
        error::outcome(r) == csv_joined(streams@),
{
    let ghost v = streams@;
    let nrows: usize = streams.nrows();
    let ncols: usize = streams.ncols();
    let ghost goal = all_cells(v.columns, 0, nrows as int, Seq::empty());
    let mut cells: Vec<Vec<Vec<u8>>> = Vec::new();
    let mut ci: usize = 0;
    assert(row_views(cells@) =~= Seq::empty());
    while ci < ncols
        invariant
            ci <= ncols,
            v == streams@,
            ncols == v.columns.len(),
            nrows == v.fields.len(),
            goal == all_cells(v.columns, 0, nrows as int, Seq::empty()),
            goal == all_cells(v.columns, ci as int, nrows as int, row_views(cells@)),
            cells@.len() == ci,
            forall|c: int| 0 <= c < ci ==> (#[trigger] row_views(cells@)[c]).len() == nrows,
        decreases ncols - ci,
    {
        let col: &Vec<u8> = &streams.columns[ci];
        assert(v.columns[ci as int] == col@);
        match decode_column(col.as_slice(), ci, nrows) {
            Err(e) => return Err(e),
            Ok(x) => {
                let ghost before = row_views(cells@);
                let ghost y = byte_views(x@);
                proof {
                    lemma_read_cells_len(col@, 0, nrows as int, Seq::empty());
                }
                cells.push(x);
                assert(row_views(cells@) =~= before.push(y));
            },
        }
        ci = ci + 1;
    }
    let ghost all = row_views(cells@);
    let mut out: Vec<u8> = Vec::new();
    let mut row: usize = 0;
    while row < nrows
        invariant
            row <= nrows,
            v == streams@,
            ncols == v.columns.len(),
            nrows == v.fields.len(),
            all == row_views(cells@),
            cells@.len() == ncols,
            forall|c: int| 0 <= c < ncols ==> (#[trigger] all[c]).len() == nrows,
            out@ == rows_text(v, all, row as int),
        decreases nrows - row,
    {
        let nfields: usize = streams.fields_per_row[row] as usize;
        let ghost before = out@;
        let mut col: usize = 0;
        assert(out@ =~= before + row_text(all, row as int, v.delim, 0));
        while col < nfields
            invariant
                col <= nfields,
                row < nrows,
                v == streams@,
                ncols == v.columns.len(),
                all == row_views(cells@),
                cells@.len() == ncols,
                forall|c: int| 0 <= c < ncols ==> (#[trigger] all[c]).len() == nrows,
                out@ == before + row_text(all, row as int, v.delim, col as int),
            decreases nfields - col,
        {
            let ghost mid = out@;
            if col > 0 {
                out.push(streams.delim);
            }
            if col < ncols {
                assert(all[col as int].len() == nrows);
                assert(all[col as int][row as int] == cells@[col as int]@[row as int]@);
                bytes::push_slice(&mut out, cells[col][row].as_slice());
            }
            col = col + 1;
            assert(out@ =~= before + row_text(all, row as int, v.delim, col as int));
        }
        if row + 1 < nrows || streams.trailing_newline {
            out.push(NEWLINE);
        }
        row = row + 1;
        assert(out@ =~= rows_text(v, all, row as int));
    }
    Ok(out)
}

/// Whether splitting `data` keeps all of it: joining its streams gives it back.
pub fn keeps(data: &[u8]) -> (r: bool)
    ensures
        r == csv_kept(data@),
{
    if data.len() as u64 > u32::MAX as u64 {
        return false;
    }
    match join(&split(data)) {
        Ok(back) => bytes::same(back.as_slice(), data),
        Err(_) => false,
    }
}

/// The column streams of a text.
pub fn split_csv(data: &[u8]) -> (out: Vec<Vec<u8>>)
    requires
        data@.len() <= u32::MAX,
    ensures
        byte_views(out@) == csv_streams(data@).columns,
{
    split(data).columns
}

/// How many length-prefixed cells start in `col` from `pos` on.
pub open spec fn cell_count(col: Seq<u8>, pos: int) -> int
    decreases
        if pos <= col.len() {
            col.len() - pos
        } else {
            0
        },
{
    if pos < 0 || pos + 4 > col.len() {
        0
    } else {
        1 + cell_count(col, pos + 4 + bytes::un_le32(col, pos))
    }
}

/// The streams that `join_csv` takes columns for: comma-separated, as many rows
/// as the first column has cells, every row with all columns.
pub open spec fn plain_table(columns: Seq<Seq<u8>>) -> CsvView {
    CsvView {
        delim: COMMA,
        columns,
        fields: Seq::new(
            cell_count(columns[0], 0) as nat,
            |r: int| (columns.len() % 65536) as u16,
        ),
        trailing: true,
    }
}

proof fn lemma_cell_count(col: Seq<u8>, pos: int)
    ensures
        0 <= cell_count(col, pos),
        0 <= pos <= col.len() ==> cell_count(col, pos) <= col.len() - pos,
        pos > col.len() ==> cell_count(col, pos) == 0,
    decreases
        if pos <= col.len() {
            col.len() - pos
        } else {
            0
        },
{
    if 0 <= pos && pos + 4 <= col.len() {
        lemma_cell_count(col, pos + 4 + bytes::un_le32(col, pos));
    }
}

/// Joins columns without their field counts, as a comma-separated table; prefer
/// `join`.
pub fn join_csv(columns: &[Vec<u8>]) -> (r: Result<Vec<u8>, RcnError>)
    ensures
        error::outcome(r) == if columns@.len() == 0 {
            Ok(Seq::empty())
        } else {
            csv_joined(plain_table(byte_views(columns@)))
        },
{
    if columns.len() == 0 {
        return Ok(Vec::new());
    }
    let first: &Vec<u8> = &columns[0];
    let ghost total = cell_count(first@, 0);
    let width: u16 = (columns.len() % 65536) as u16;
    let mut fields: Vec<u16> = Vec::new();
    let mut pos: usize = 0;
    let mut done: bool = false;
    while !done && pos <= first.len() && first.len() - pos >= 4
        invariant
            pos <= first@.len(),
            done ==> total == fields@.len(),
            !done ==> total == fields@.len() + cell_count(first@, pos as int),
            forall|r: int| 0 <= r < fields@.len() ==> fields@[r] == width,
        decreases
            first@.len() - pos,
            if done {
                0int
            } else {
                1
            },
    {
        let len: usize = bytes::get_u32(first.as_slice(), pos) as usize;
        fields.push(width);
        if first.len() - pos - 4 < len {
            proof {
                lemma_cell_count(first@, pos + 4 + len);
            }
            done = true;
        } else {
            pos = pos + 4 + len;
        }
    }
    let mut copies: Vec<Vec<u8>> = Vec::new();
    let mut i: usize = 0;
    while i < columns.len()
        invariant
            i <= columns@.len(),
            byte_views(copies@) =~= byte_views(columns@).take(i as int),
        decreases columns@.len() - i,
    {
        let ghost before = byte_views(copies@);
        copies.push(vstd::slice::slice_to_vec(columns[i].as_slice()));
        assert(byte_views(copies@) =~= before.push(columns@[i as int]@));
        i = i + 1;
    }
    let s = CsvStreams {
        delim: COMMA,
        columns: copies,
        fields_per_row: fields,
        trailing_newline: true,
    };
    proof {
        assert(byte_views(columns@)[0] == first@);
        assert(s@ =~= plain_table(byte_views(columns@)));
    }
    join(&s)
}

/// A line without a carriage return at its end.
pub open spec fn trimmed(line: Seq<u8>) -> Seq<u8> {
    if line.len() > 0 && line.last() == 0x0D {
        line.drop_last()
    } else {
        line
    }
}

/// The field counts of the lines that are not empty, at most `k` of them.
pub open spec fn sampled_counts(lines: Seq<Seq<u8>>, delim: u8, k: int) -> Seq<int>
    decreases lines.len(),
{
    if lines.len() == 0 || k <= 0 {
        Seq::empty()
    } else if trimmed(lines[0]).len() == 0 {
        sampled_counts(lines.drop_first(), delim, k)
    } else {
        seq![row_fields(trimmed(lines[0]), delim).len() as int] + sampled_counts(
            lines.drop_first(),
            delim,
            k - 1,
        )
    }
}

/// How many entries equal `x`.
pub open spec fn occurrences(s: Seq<int>, x: int) -> int
    decreases s.len(),
{
    if s.len() == 0 {
        0
    } else {
        occurrences(s.drop_last(), x) + if s.last() == x {
            1int
        } else {
            0
        }
    }
}

/// Not JSON or XML, ASCII with at least four delimiters in its first part, and
/// the first lines mostly have the field count of the first one, at least two.
pub open spec fn csv_like(d: Seq<u8>) -> bool {
    let idx = split_common::leading_spaces(d);
    let s = split_common::sample(d);
    let delim = delimiter_of(d);
    let counts = sampled_counts(csv_lines(s), delim, 16);
    &&& d.len() >= 32
    &&& !(idx < d.len() && (d[idx] == 0x7B || d[idx] == 0x5B || d[idx] == 0x3C))
    &&& split_common::all_ascii(s)
    &&& split_common::count_of(s, delim) >= 4
    &&& counts.len() >= 2
    &&& counts[0] >= 2
    &&& occurrences(counts, counts[0]) * 2 >= counts.len()
}

spec fn count_views(v: Seq<usize>) -> Seq<int> {
    Seq::new(v.len(), |i: int| v[i] as int)
}

/// The field counts of the first lines of a sample.
fn sample_counts(part: &[u8], delim: u8) -> (counts: Vec<usize>)
    ensures
        count_views(counts@) == sampled_counts(csv_lines(part@), delim, 16),
        counts@.len() <= 16,
{
    let ghost goal = sampled_counts(csv_lines(part@), delim, 16);
    let mut counts: Vec<usize> = Vec::new();
    let mut i: usize = 0;
    assert(part@.skip(0) =~= part@);
    assert(count_views(counts@) + goal =~= goal);
    while i < part.len() && counts.len() < 16
        invariant
            i <= part@.len(),
            counts@.len() <= 16,
            count_views(counts@) + sampled_counts(
                csv_lines(part@.skip(i as int)),
                delim,
                16 - counts@.len(),
            ) =~= goal,
        decreases part@.len() - i,
    {
        let ghost rest = part@.skip(i as int);
        let ghost lines = csv_lines(rest);
        let end: usize = find_line_end(part, i);
        let ghost k = end - i;
        let stop: usize = if end > i && part[end - 1] == 0x0D {
            end - 1
        } else {
            end
        };
        let line: &[u8] = vstd::slice::slice_subrange(part, i, stop);
        assert(lines[0] =~= rest.take(k));
        assert(line@ =~= trimmed(lines[0]));
        let ghost before = count_views(counts@);
        if line.len() > 0 {
            let n: usize = split_row(line, delim).len();
            counts.push(n);
            assert(count_views(counts@) =~= before.push(n as int));
        }
        i = if end < part.len() {
            end + 1
        } else {
            end
        };
        proof {
            let next = csv_lines(part@.skip(i as int));
            if end < part@.len() {
                assert(rest.skip(k + 1) =~= part@.skip(i as int));
            } else {
                assert(part@.skip(i as int) =~= Seq::<u8>::empty());
            }
            assert(lines.drop_first() =~= next);
        }
    }
    assert(part@.skip(i as int).len() == 0 || counts@.len() == 16);
    counts
}

/// Heuristic: many commas/tabs, consistent column counts in the first lines,
/// ASCII.
pub fn looks_like_csv(data: &[u8]) -> (r: bool)
    ensures
        r == csv_like(data@),
{
    if data.len() < 32 {
        return false;
    }
    let idx: usize = split_common::skip_ascii_whitespace(data);
    if idx < data.len() && (data[idx] == 0x7B || data[idx] == 0x5B || data[idx] == 0x3C) {
        return false;
    }
    let part: &[u8] = split_common::sample_prefix(data);
    if !split_common::is_all_ascii(part) {
        return false;
    }
    let delim: u8 = detect_delim(data);
    if split_common::count_byte(part, delim) < 4 {
        return false;
    }
    let counts: Vec<usize> = sample_counts(part, delim);
    if counts.len() < 2 {
        return false;
    }
    let ghost all = count_views(counts@);
    let first: usize = counts[0];
    assert(all[0] == first);
    if first < 2 {
        return false;
    }
    let mut same: usize = 0;
    let mut i: usize = 0;
    assert(all.take(0) =~= Seq::empty());
    while i < counts.len()
        invariant
            i <= counts@.len() <= 16,
            all == count_views(counts@),
            same <= i,
            same == occurrences(all.take(i as int), first as int),
        decreases counts@.len() - i,
    {
        assert(all.take(i + 1).drop_last() =~= all.take(i as int));
        if counts[i] == first {
            same = same + 1;
        }
        i = i + 1;
    }
    assert(all.take(i as int) =~= all);
    same * 2 >= counts.len()
}

} // verus!
