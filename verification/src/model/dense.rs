//! Contexts made of the last few bytes and the position within the current one.

use crate::model::assembler;
use crate::model::ByteAssembler;
use vstd::prelude::*;

verus! {

/// Two to the power of 64.
pub const WORD: u128 = 0x1_0000_0000_0000_0000;

/// The number that bytes spell, the most significant one first.
pub open spec fn big_endian(s: Seq<u8>) -> int
    decreases s.len(),
{
    if s.len() == 0 {
        0
    } else {
        256 * big_endian(s.drop_last()) + s.last()
    }
}

/// The context key of the last `order` bytes, as far as it fits 64 bits, with
/// the bit position in the lowest three.
pub open spec fn dense_key(b: assembler::Bits, order: int) -> u64 {
    ((8 * big_endian(assembler::last_of(b.recent, order)) + b.len) % (WORD as int)) as u64
}

proof fn lemma_wrapped(x: int, f: int, c: int)
    requires
        f == 256 || f == 8,
    ensures
        (f * (x % (WORD as int)) + c) % (WORD as int) == (f * x + c) % (WORD as int),
{
    let m = WORD as int;
    let q = x / m;
    assert(x == q * m + x % m) by {
        vstd::arithmetic::div_mod::lemma_fundamental_div_mod(x, m);
        assert(m * q == q * m) by (nonlinear_arith);
    }
    let y = f * (x % m) + c;
    assert(f * x + c == y + (f * q) * m) by (nonlinear_arith)
        requires
            x == q * m + x % m,
            y == f * (x % m) + c,
    ;
    vstd::arithmetic::div_mod::lemma_mod_multiples_vanish(f * q, y, m);
    assert((f * q) * m + y == y + (f * q) * m);
    assert(m * (f * q) == (f * q) * m) by (nonlinear_arith);
}

/// A number tells its quotient and its remainder.
pub proof fn lemma_digits(q1: int, r1: int, q2: int, r2: int, m: int)
    requires
        0 <= r1 < m,
        0 <= r2 < m,
        q1 * m + r1 == q2 * m + r2,
    ensures
        q1 == q2,
        r1 == r2,
{
    vstd::arithmetic::div_mod::lemma_fundamental_div_mod_converse(q1 * m + r1, m, q1, r1);
    vstd::arithmetic::div_mod::lemma_fundamental_div_mod_converse(q2 * m + r2, m, q2, r2);
}

/// The context key of the last `order` bytes and the bit position.
pub fn key(bits: &ByteAssembler, order: usize) -> (k: u64)
    requires
        bits.wf(),
    ensures
        k == dense_key(bits@, order as int),
{
    let bytes: &[u8] = bits.last(order);
    let mut k: u64 = 0;
    let mut i: usize = 0;
    while i < bytes.len()
        invariant
            i <= bytes@.len(),
            k as int == big_endian(bytes@.take(i as int)) % (WORD as int),
        decreases bytes@.len() - i,
    {
        proof {
            let t = bytes@.take(i + 1);
            assert(t.drop_last() =~= bytes@.take(i as int));
            assert(t.last() == bytes@[i as int]);
            lemma_wrapped(big_endian(bytes@.take(i as int)), 256, bytes@[i as int] as int);
        }
        k = k.wrapping_mul(256).wrapping_add(bytes[i] as u64);
        i = i + 1;
    }
    assert(bytes@.take(bytes@.len() as int) =~= bytes@);
    proof {
        lemma_wrapped(big_endian(bytes@), 8, bits@.len);
    }
    k.wrapping_mul(8).wrapping_add(bits.nbits() as u64)
}

} // verus!
