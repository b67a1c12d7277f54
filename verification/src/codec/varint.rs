//! Unsigned numbers in groups of seven bits, the lowest group first.

use vstd::prelude::*;

verus! {

/// Numbers below this fit the six groups that are read.
pub const VARINT_LIMIT: u64 = 4398046511104;

/// A number in groups of seven bits; all groups but the last have bit 7 set.
pub open spec fn varint(v: int) -> Seq<u8>
    decreases v,
{
    if v < 128 {
        seq![v as u8]
    } else {
        seq![(128 + v % 128) as u8] + varint(v / 128)
    }
}

/// The number that starts at `pos`, of which `k` groups were read, and the place
/// behind it; a number of more than six groups is none.
pub open spec fn varint_from(d: Seq<u8>, pos: int, k: int) -> Option<(int, int)>
    decreases 6 - k,
{
    if k > 5 || pos < 0 || pos >= d.len() {
        None
    } else if d[pos] < 128 {
        Some((d[pos] as int, pos + 1))
    } else {
        match varint_from(d, pos + 1, k + 1) {
            Some((v, end)) => Some((d[pos] - 128 + 128 * v, end)),
            None => None,
        }
    }
}

/// The number at a place and the place behind it.
pub open spec fn varint_at(d: Seq<u8>, pos: int) -> Option<(int, int)> {
    varint_from(d, pos, 0)
}

/// Two to the power of `7 * k`, for the groups that are read.
pub open spec fn group_unit(k: int) -> int {
    if k <= 0 {
        1
    } else if k == 1 {
        128
    } else if k == 2 {
        16384
    } else if k == 3 {
        2097152
    } else if k == 4 {
        268435456
    } else if k == 5 {
        34359738368
    } else {
        4398046511104
    }
}

proof fn lemma_varint_from(before: Seq<u8>, v: int, after: Seq<u8>, k: int)
    requires
        0 <= k <= 5,
        0 <= v,
        v * group_unit(k) < VARINT_LIMIT,
    ensures
        varint_from(before + varint(v) + after, before.len() as int, k) == Some(
            (v, (before.len() + varint(v).len()) as int),
        ),
    decreases v,
{
    let d = before + varint(v) + after;
    let n = before.len() as int;
    if v < 128 {
        assert(d[n] == v);
    } else {
        let head = seq![(128 + v % 128) as u8];
        assert(d[n] == 128 + v % 128);
        assert(d =~= (before + head) + varint(v / 128) + after);
        assert(k <= 4) by (nonlinear_arith)
            requires
                v >= 128,
                v * group_unit(k) < VARINT_LIMIT,
                k <= 5,
                k == 5 ==> group_unit(k) == 34359738368,
                VARINT_LIMIT == 4398046511104,
        ;
        assert((v / 128) * group_unit(k + 1) < VARINT_LIMIT) by (nonlinear_arith)
            requires
                v * group_unit(k) < VARINT_LIMIT,
                v >= 0,
                group_unit(k + 1) == 128 * group_unit(k),
                group_unit(k) >= 1,
        ;
        lemma_varint_from(before + head, v / 128, after, k + 1);
    }
}

/// Reading a number gives back what was written.
pub proof fn law_varint_round_trip(before: Seq<u8>, v: int, after: Seq<u8>)
    requires
        0 <= v < VARINT_LIMIT,
    ensures
        varint_at(before + varint(v) + after, before.len() as int) == Some(
            (v, (before.len() + varint(v).len()) as int),
        ),
{
    lemma_varint_from(before, v, after, 0);
}

/// A number that fits is written in one to six bytes.
pub proof fn lemma_varint_len(v: int)
    requires
        0 <= v < VARINT_LIMIT,
    ensures
        1 <= varint(v).len() <= 6,
{
    reveal_with_fuel(varint, 7);
}

/// What is read lies within the data and fits.
pub proof fn lemma_varint_range(d: Seq<u8>, pos: int, k: int)
    requires
        0 <= k,
    ensures
        varint_from(d, pos, k) matches Some((v, end)) ==> 0 <= v && v * group_unit(k)
            < VARINT_LIMIT && pos < end <= d.len(),
    decreases 6 - k,
{
    if k <= 5 && 0 <= pos < d.len() {
        if d[pos] < 128 {
            assert(d[pos] * group_unit(k) < VARINT_LIMIT) by (nonlinear_arith)
                requires
                    d[pos] < 128,
                    group_unit(k) <= 34359738368,
                    group_unit(k) >= 1,
                    VARINT_LIMIT == 4398046511104,
            ;
        } else {
            lemma_varint_range(d, pos + 1, k + 1);
            if let Some((v, end)) = varint_from(d, pos + 1, k + 1) {
                let low = d[pos] - 128;
                let unit = group_unit(k);
                let cap = group_unit(6 - k - 1);
                assert(cap * (128 * unit) == VARINT_LIMIT);
                assert((low + 128 * v) * unit < VARINT_LIMIT) by (nonlinear_arith)
                    requires
                        v * (128 * unit) < VARINT_LIMIT,
                        cap * (128 * unit) == VARINT_LIMIT,
                        0 <= low < 128,
                        unit >= 1,
                        v >= 0,
                {
                    assert(v < cap);
                    assert(v + 1 <= cap);
                    assert((v + 1) * (128 * unit) <= VARINT_LIMIT);
                    assert((low + 128 * v) * unit < (128 + 128 * v) * unit);
                }
            }
        }
    }
}

/// Appends a number.
pub fn write_varint(out: &mut Vec<u8>, value: usize)
    ensures
        final(out)@ == old(out)@ + varint(value as int),
{
    let mut v: usize = value;
    let ghost before = out@;
    while v >= 128
        invariant
            out@ + varint(v as int) == before + varint(value as int),
        decreases v,
    {
        let ghost now = out@;
        out.push(128 + (v % 128) as u8);
        assert(out@ + varint((v / 128) as int) =~= now + varint(v as int));
        v = v / 128;
    }
    out.push(v as u8);
    assert(out@ =~= before + varint(value as int));
}

/// Reads a number at `offset`; returns it and the place behind it, or nothing
/// where the data ends or the number has more than six groups.
pub fn read_varint(data: &[u8], offset: usize) -> (r: Option<(u64, usize)>)
    ensures
        match r {
            Some((v, end)) => varint_at(data@, offset as int) == Some((v as int, end as int)) && v
                < VARINT_LIMIT && end <= data@.len(),
            None => varint_at(data@, offset as int) is None,
        },
{
    proof {
        lemma_varint_range(data@, offset as int, 0);
    }
    read_groups(data, offset, 0)
}

fn read_groups(data: &[u8], pos: usize, k: u32) -> (r: Option<(u64, usize)>)
    requires
        k <= 6,
    ensures
        match r {
            Some((v, end)) => varint_from(data@, pos as int, k as int) == Some(
                (v as int, end as int),
            ),
            None => varint_from(data@, pos as int, k as int) is None,
        },
    decreases 6 - k,
{
    if k > 5 || pos >= data.len() {
        return None;
    }
    let b: u8 = data[pos];
    if b < 128 {
        return Some((b as u64, pos + 1));
    }
    match read_groups(data, pos + 1, k + 1) {
        Some((v, end)) => {
            proof {
                lemma_varint_range(data@, pos + 1, k + 1);
                assert(v < VARINT_LIMIT) by (nonlinear_arith)
                    requires
                        v * group_unit(k + 1) < VARINT_LIMIT,
                        group_unit(k + 1) >= 1,
                        v >= 0,
                ;
            }
            Some(((b - 128) as u64 + 128 * v, end))
        },
        None => None,
    }
}

} // verus!
