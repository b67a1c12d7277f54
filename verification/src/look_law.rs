//! What data looks like, said over its bytes.

use crate::classify;
use crate::classify::{BlockKind, Measures};
use crate::csv_split;
use crate::json_split;
use crate::split_common;
use crate::xml_split;
use vstd::prelude::*;

verus! {

/// How many of the bytes have a value.
pub open spec fn how_many(d: Seq<u8>, x: u8) -> int {
    d.filter(|b: u8| b == x).len() as int
}

/// The first 8 KiB of the data, or all of it.
pub open spec fn head(d: Seq<u8>) -> Seq<u8> {
    if d.len() <= 8192 {
        d
    } else {
        d.subrange(0, 8192)
    }
}

/// Whether data starts with white space up to `k`, and with something else there.
pub open spec fn starts_at(d: Seq<u8>, k: int) -> bool {
    &&& 0 <= k < d.len()
    &&& d[k] != 0x20 && d[k] != 0x09 && d[k] != 0x0A && d[k] != 0x0C && d[k] != 0x0D
    &&& forall|i: int|
        0 <= i < k ==> #[trigger] d[i] == 0x20 || d[i] == 0x09 || d[i] == 0x0A || d[i] == 0x0C
            || d[i] == 0x0D
}

proof fn lemma_how_many(d: Seq<u8>, x: u8)
    ensures
        split_common::count_of(d, x) == how_many(d, x),
    decreases d.len(),
{
    reveal(Seq::filter);
    if d.len() > 0 {
        lemma_how_many(d.drop_last(), x);
    }
}

proof fn lemma_starts_at(d: Seq<u8>, k: int)
    requires
        starts_at(d, k),
    ensures
        split_common::leading_spaces(d) == k,
    decreases d.len(),
{
    if k > 0 {
        assert(d[0] == 0x20 || d[0] == 0x09 || d[0] == 0x0A || d[0] == 0x0C || d[0] == 0x0D);
        let rest = d.drop_first();
        assert forall|i: int| 0 <= i < k - 1 implies #[trigger] rest[i] == 0x20 || rest[i] == 0x09
            || rest[i] == 0x0A || rest[i] == 0x0C || rest[i] == 0x0D by {
            assert(rest[i] == d[i + 1]);
        }
        lemma_starts_at(rest, k - 1);
    }
}

proof fn lemma_head(d: Seq<u8>)
    ensures
        split_common::sample(d) == head(d),
{
    assert(split_common::sample(d) =~= head(d));
}

/// Data of at least 32 bytes looks like JSON exactly if its first byte behind white
/// space is a brace or a bracket, and its head has two colons or more and at least
/// twice as many quotes.
pub proof fn law_json_look(d: Seq<u8>, k: int)
    requires
        starts_at(d, k),
    ensures
        json_split::json_like(d) <==> {
            &&& d.len() >= 32
            &&& d[k] == 0x7B || d[k] == 0x5B
            &&& how_many(head(d), 0x3A) >= 2
            &&& how_many(head(d), 0x22) >= 2 * how_many(head(d), 0x3A)
        },
{
    lemma_starts_at(d, k);
    lemma_head(d);
    lemma_how_many(head(d), 0x3A);
    lemma_how_many(head(d), 0x22);
}

proof fn lemma_ascii_count(d: Seq<u8>)
    ensures
        xml_split::ascii_count(d) == d.filter(|b: u8| b < 128).len(),
    decreases d.len(),
{
    reveal(Seq::filter);
    if d.len() > 0 {
        lemma_ascii_count(d.drop_last());
    }
}

/// Data of at least 16 bytes looks like markup exactly if its first byte behind white
/// space opens a tag, and a declaration stands there or its head is ASCII for at
/// least 70 of 100 bytes, with at least two brackets of each kind, the numbers of
/// which differ by at most half of the opening ones and one.
pub proof fn law_xml_look(d: Seq<u8>, k: int)
    requires
        starts_at(d, k),
    ensures
        ({
            let opening = how_many(head(d), 0x3C);
            let closing = how_many(head(d), 0x3E);
            let declared = k + 5 <= d.len() && d[k + 1] == 0x3F && (d[k + 2] == 0x78 && d[k + 3]
                == 0x6D && d[k + 4] == 0x6C || d[k + 2] == 0x58 && d[k + 3] == 0x4D && d[k + 4]
                == 0x4C);
            xml_split::xml_like(d) <==> {
                &&& d.len() >= 16
                &&& d[k] == 0x3C
                &&& declared || {
                    &&& 100 * head(d).filter(|b: u8| b < 128).len() >= 70 * head(d).len()
                    &&& opening >= 2
                    &&& closing >= 2
                    &&& opening - closing <= opening / 2 + 1
                    &&& closing - opening <= opening / 2 + 1
                }
            }
        }),
{
    lemma_starts_at(d, k);
    lemma_head(d);
    lemma_how_many(head(d), 0x3C);
    lemma_how_many(head(d), 0x3E);
    lemma_ascii_count(head(d));
    let n = head(d).len() as int;
    let a = xml_split::ascii_count(head(d)) * 100;
    if n > 0 {
        assert(a / n >= 70 <==> a >= 70 * n) by (nonlinear_arith)
            requires
                n > 0,
        ;
    }
    if k + 5 <= d.len() {
        let s = d.subrange(k, k + 5);
        assert(s[0] == d[k] && s[1] == d[k + 1] && s[2] == d[k + 2] && s[3] == d[k + 3] && s[4]
            == d[k + 4]);
        if d[k] == 0x3C && d[k + 1] == 0x3F && d[k + 2] == 0x78 && d[k + 3] == 0x6D && d[k + 4]
            == 0x6C {
            assert(s =~= seq![0x3Cu8, 0x3F, 0x78, 0x6D, 0x6C]);
        }
        if d[k] == 0x3C && d[k + 1] == 0x3F && d[k + 2] == 0x58 && d[k + 3] == 0x4D && d[k + 4]
            == 0x4C {
            assert(s =~= seq![0x3Cu8, 0x3F, 0x58, 0x4D, 0x4C]);
        }
    }
}

proof fn lemma_all_occur(s: Seq<int>, x: int)
    requires
        forall|i: int| 0 <= i < s.len() ==> #[trigger] s[i] == x,
    ensures
        csv_split::occurrences(s, x) == s.len(),
    decreases s.len(),
{
    if s.len() > 0 {
        lemma_all_occur(s.drop_last(), x);
    }
}

proof fn lemma_even_counts(lines: Seq<Seq<u8>>, delim: u8, k: int, n: int)
    requires
        forall|i: int|
            0 <= i < lines.len() ==> (#[trigger] lines[i]).len() > 0 && lines[i].last() != 0x0D
                && csv_split::row_fields(lines[i], delim).len() == n,
    ensures
        ({
            let c = csv_split::sampled_counts(lines, delim, k);
            &&& c.len() == if k <= 0 {
                0
            } else if lines.len() <= k {
                lines.len() as int
            } else {
                k
            }
            &&& forall|i: int| 0 <= i < c.len() ==> #[trigger] c[i] == n
        }),
    decreases lines.len(),
{
    if lines.len() > 0 && k > 0 {
        let rest = lines.drop_first();
        assert forall|i: int| 0 <= i < rest.len() implies (#[trigger] rest[i]).len() > 0
            && rest[i].last() != 0x0D && csv_split::row_fields(rest[i], delim).len() == n by {
            assert(rest[i] == lines[i + 1]);
        }
        lemma_even_counts(rest, delim, k - 1, n);
        assert(lines[0].len() > 0);
        let c = csv_split::sampled_counts(lines, delim, k);
        let r = csv_split::sampled_counts(rest, delim, k - 1);
        assert(c =~= seq![n] + r);
        assert forall|i: int| 0 <= i < c.len() implies #[trigger] c[i] == n by {
            if i > 0 {
                assert(c[i] == r[i - 1]);
            }
        }
    }
}

/// Data of at least 32 bytes whose head is ASCII, with lines of one and the same number
/// of fields, two or more, and at least two lines and four delimiters, looks like a
/// table, unless its first byte behind white space opens JSON or markup. The
/// delimiter is the tab where the head has more tabs than commas, else the comma.
pub proof fn law_csv_look(d: Seq<u8>, k: int, n: int)
    requires
        d.len() >= 32,
        starts_at(d, k),
        d[k] != 0x7B && d[k] != 0x5B && d[k] != 0x3C,
        forall|i: int| 0 <= i < head(d).len() ==> #[trigger] head(d)[i] < 128,
        n >= 2,
        ({
            let delim: u8 = if how_many(head(d), 0x09) > how_many(head(d), 0x2C) {
                0x09
            } else {
                0x2C
            };
            let lines = csv_split::csv_lines(head(d));
            &&& how_many(head(d), delim) >= 4
            &&& lines.len() >= 2
            &&& forall|i: int|
                0 <= i < lines.len() ==> (#[trigger] lines[i]).len() > 0 && lines[i].last() != 0x0D
                    && csv_split::row_fields(lines[i], delim).len() == n
        }),
    ensures
        csv_split::csv_like(d),
{
    lemma_starts_at(d, k);
    lemma_head(d);
    lemma_how_many(head(d), 0x09);
    lemma_how_many(head(d), 0x2C);
    let lines = csv_split::csv_lines(head(d));
    let delim = csv_split::delimiter_of(d);
    lemma_even_counts(lines, delim, 16, n);
    let c = csv_split::sampled_counts(lines, delim, 16);
    assert(c[0] == n);
    lemma_all_occur(c, n);
}

/// Data does not look like a table if it is shorter than 32 bytes, has fewer than four
/// tabs and fewer than four commas in its head, or opens as JSON or markup do.
pub proof fn law_no_csv_look(d: Seq<u8>, k: int)
    requires
        starts_at(d, k),
        d.len() < 32 || d[k] == 0x7B || d[k] == 0x5B || d[k] == 0x3C || how_many(head(d), 0x09) < 4
            && how_many(head(d), 0x2C) < 4,
    ensures
        !csv_split::csv_like(d),
{
    lemma_starts_at(d, k);
    lemma_head(d);
    lemma_how_many(head(d), 0x09);
    lemma_how_many(head(d), 0x2C);
}

/// Whether three bytes that open a function stand at `i`.
pub open spec fn opens_function(d: Seq<u8>, i: int) -> bool {
    0 <= i && i + 3 <= d.len() && (d[i] == 0x55 || d[i] == 0x48) && d[i + 1] == 0x89 && d[i + 2]
        == 0xE5
}

/// Whether the four bytes that open an ELF, a Mach-O or a PE file stand at `i`.
pub open spec fn opens_program(d: Seq<u8>, i: int) -> bool {
    0 <= i && i + 4 <= d.len() && (d[i] == 0x7F && d[i + 1] == 0x45 && d[i + 2] == 0x4C && d[i + 3]
        == 0x46 || d[i] == 0xCF && d[i + 1] == 0xFA && d[i + 2] == 0xED && d[i + 3] == 0xFE || d[i]
        == 0x4D && d[i + 1] == 0x5A && d[i + 2] == 0x90 && d[i + 3] == 0x00)
}

proof fn lemma_prologue(d: Seq<u8>, i: int)
    ensures
        classify::prologue_at(d, i) == opens_function(d, i),
{
    if 0 <= i && i + 3 <= d.len() {
        let s = d.subrange(i, i + 3);
        assert(s[0] == d[i] && s[1] == d[i + 1] && s[2] == d[i + 2]);
        if opens_function(d, i) {
            assert(s =~= seq![0x55u8, 0x89, 0xE5] || s =~= seq![0x48u8, 0x89, 0xE5]);
        }
    }
}

proof fn lemma_magic(d: Seq<u8>, i: int)
    ensures
        classify::magic_at(d, i) == opens_program(d, i),
{
    if 0 <= i && i + 4 <= d.len() {
        let s = d.subrange(i, i + 4);
        assert(s[0] == d[i] && s[1] == d[i + 1] && s[2] == d[i + 2] && s[3] == d[i + 3]);
        if opens_program(d, i) {
            assert(s =~= seq![0x7Fu8, 0x45, 0x4C, 0x46] || s =~= seq![0xCFu8, 0xFA, 0xED, 0xFE]
                || s =~= seq![0x4Du8, 0x5A, 0x90, 0x00]);
        }
    }
}

/// Data that is neither random nor printable is code where two functions or a program
/// open in it, wherever that is.
pub proof fn law_code_is_found(d: Seq<u8>, m: Measures, i: int, j: int)
    requires
        d.len() >= 32,
        !m.random,
        !m.printable,
        i < j && opens_function(d, i) && opens_function(d, j) || opens_program(d, i),
    ensures
        classify::kind_of(d, m) == BlockKind::Exec,
{
    lemma_prologue(d, i);
    lemma_prologue(d, j);
    lemma_magic(d, i);
}

/// Data is random where it measures so or has fewer than 32 bytes, text where it is
/// printable otherwise, and without a program and a second function binary.
pub proof fn law_other_kinds(d: Seq<u8>, m: Measures, i: int)
    requires
        forall|j: int| #[trigger] opens_function(d, j) ==> j == i,
        forall|j: int| !#[trigger] opens_program(d, j),
    ensures
        classify::kind_of(d, m) == if d.len() < 32 || m.random {
            BlockKind::Random
        } else if m.printable {
            BlockKind::Text
        } else {
            BlockKind::Binary
        },
{
    assert forall|j: int| #[trigger] classify::prologue_at(d, j) implies j == i by {
        lemma_prologue(d, j);
        assert(opens_function(d, j));
    }
    assert forall|j: int| !#[trigger] classify::magic_at(d, j) by {
        lemma_magic(d, j);
        assert(!opens_program(d, j));
    }
}

} // verus!
