//! Whole bytes from a stream of bits.

use vstd::prelude::*;

verus! {

/// Two to the power of `n`.
pub open spec fn two_to(n: nat) -> int
    decreases n,
{
    if n == 0 {
        1
    } else {
        2 * two_to((n - 1) as nat)
    }
}

/// The last `n` elements, or all where there are fewer.
pub open spec fn last_of(s: Seq<u8>, n: int) -> Seq<u8> {
    if s.len() <= n {
        s
    } else {
        s.skip(s.len() - n)
    }
}

/// Assembles whole bytes from coded bits, the most significant bit of a byte
/// first, and keeps the most recent ones.
#[derive(Debug, Clone, Default)]
pub struct ByteAssembler {
    pending: u8,
    nbits: u8,
    bytes: Vec<u8>,
    cap: usize,
}

/// One more bit behind the bits that spell `v`.
pub open spec fn with_bit(v: int, bit: bool) -> int {
    2 * v + if bit {
        1int
    } else {
        0
    }
}

/// What an assembler holds: the bits of the byte in progress as a number and
/// their count, the completed bytes that are kept, and how many may be.
#[verifier::ext_equal]
pub struct Bits {
    pub len: int,
    pub part: int,
    pub recent: Seq<u8>,
    pub kept: int,
}

/// Nothing seen yet.
pub open spec fn no_bits(kept: int) -> Bits {
    Bits { len: 0, part: 0, recent: Seq::empty(), kept }
}

/// The byte that one more bit completes, if it does.
pub open spec fn completed(b: Bits, bit: bool) -> Option<u8> {
    if b.len < 7 {
        None
    } else {
        Some(with_bit(b.part, bit) as u8)
    }
}

/// The bits with one more.
pub open spec fn pushed(b: Bits, bit: bool) -> Bits {
    match completed(b, bit) {
        None => Bits { len: b.len + 1, part: with_bit(b.part, bit), ..b },
        Some(byte) => Bits {
            len: 0,
            part: 0,
            recent: last_of(b.recent.push(byte), b.kept),
            kept: b.kept,
        },
    }
}

impl View for ByteAssembler {
    type V = Bits;

    closed spec fn view(&self) -> Bits {
        Bits {
            len: self.nbits as int,
            part: self.pending as int,
            recent: self.bytes@,
            kept: self.cap as int,
        }
    }
}

impl ByteAssembler {
    /// The pending number has no more than the pending bits, and no more bytes
    /// are kept than asked for.
    pub closed spec fn wf(&self) -> bool {
        &&& self.nbits < 8
        &&& self.pending < two_to(self.nbits as nat)
        &&& self.bytes@.len() <= self.cap
    }

    /// The pending number fits a byte, with one more bit too.
    pub proof fn lemma_part(&self)
        requires
            self.wf(),
        ensures
            0 <= self@.part < 128,
            0 <= self@.len < 8,
            self@.part < two_to(self@.len as nat),
            self@.recent.len() <= self@.kept <= usize::MAX,
    {
        lemma_two_to_mono(self.nbits as nat, 7);
        reveal_with_fuel(two_to, 9);
        assert(two_to(7) == 128);
    }

    /// An assembler that keeps up to `cap` completed bytes.
    pub fn new(cap: usize) -> (a: Self)
        ensures
            a.wf(),
            a@ == no_bits(cap as int),
    {
        Self { pending: 0, nbits: 0, bytes: Vec::new(), cap }
    }

    /// Takes one coded bit; returns the byte that it completes, if it does.
    pub fn push_bit(&mut self, bit: bool) -> (r: Option<u8>)
        requires
            old(self).wf(),
            old(self)@.kept > 0,
        ensures
            final(self).wf(),
            final(self)@ == pushed(old(self)@, bit),
            r == completed(old(self)@, bit),
    {
        proof {
            self.lemma_part();
        }
        let b: u8 = if bit {
            1
        } else {
            0
        };
        self.pending = 2 * self.pending + b;
        self.nbits = self.nbits + 1;
        if self.nbits == 8 {
            self.nbits = 0;
            let byte: u8 = self.pending;
            self.pending = 0;
            self.push_byte(byte);
            Some(byte)
        } else {
            None
        }
    }

    /// Takes a whole byte as completed; the byte in progress stays as it is.
    pub fn push_byte(&mut self, byte: u8)
        requires
            old(self).wf(),
            old(self)@.kept > 0,
        ensures
            final(self).wf(),
            final(self)@ == (Bits {
                recent: last_of(old(self)@.recent.push(byte), old(self)@.kept),
                ..old(self)@
            }),
    {
        if self.bytes.len() == self.cap {
            self.bytes.remove(0);
        }
        self.bytes.push(byte);
        assert(self.bytes@ =~= last_of(old(self).bytes@.push(byte), self.cap as int));
    }

    /// The number of bits of the byte in progress.
    pub fn nbits(&self) -> (n: u8)
        requires
            self.wf(),
        ensures
            n == self@.len,
            n < 8,
    {
        self.nbits
    }

    /// The number of completed bytes that are kept.
    pub fn bytes_len(&self) -> (n: u64)
        ensures
            n == self@.recent.len(),
    {
        self.bytes.len() as u64
    }

    /// The last `n` completed bytes, or fewer where there are fewer.
    pub fn last(&self, n: usize) -> (s: &[u8])
        ensures
            s@ == last_of(self@.recent, n as int),
    {
        let len: usize = self.bytes.len();
        let start: usize = if len < n {
            0
        } else {
            len - n
        };
        let s = vstd::slice::slice_subrange(self.bytes.as_slice(), start, len);
        assert(s@ =~= last_of(self@.recent, n as int));
        s
    }

    /// The most recent completed byte, or 0.
    pub fn last_byte(&self) -> (b: u8)
        ensures
            b == last_byte_of(self@.recent),
    {
        if self.bytes.len() == 0 {
            0
        } else {
            self.bytes[self.bytes.len() - 1]
        }
    }

    /// The completed byte before the most recent one, or 0.
    pub fn prev_byte(&self) -> (b: u8)
        ensures
            b == prev_byte_of(self@.recent),
    {
        if self.bytes.len() >= 2 {
            self.bytes[self.bytes.len() - 2]
        } else {
            0
        }
    }

    /// Whether a byte has been completed.
    pub fn has_byte(&self) -> (r: bool)
        ensures
            r == (self@.recent.len() > 0),
    {
        self.bytes.len() > 0
    }

    /// Forgets everything.
    pub fn reset(&mut self)
        ensures
            final(self).wf(),
            final(self)@ == no_bits(old(self)@.kept),
    {
        self.pending = 0;
        self.nbits = 0;
        self.bytes.clear();
    }
}

/// The last byte, or 0.
pub open spec fn last_byte_of(s: Seq<u8>) -> u8 {
    if s.len() == 0 {
        0
    } else {
        s.last()
    }
}

/// The byte before the last one, or 0.
pub open spec fn prev_byte_of(s: Seq<u8>) -> u8 {
    if s.len() >= 2 {
        s[s.len() - 2]
    } else {
        0
    }
}

/// Two to the power of `bits`.
pub fn power_of_two(bits: u32) -> (n: usize)
    requires
        bits < usize::BITS,
    ensures
        n == two_to(bits as nat),
        n > 0,
{
    let mut n: usize = 1;
    let mut i: u32 = 0;
    while i < bits
        invariant
            i <= bits,
            bits < usize::BITS,
            n == two_to(i as nat),
            n > 0,
        decreases bits - i,
    {
        proof {
            lemma_two_to_fits((i + 1) as nat);
        }
        n = n * 2;
        i = i + 1;
    }
    n
}

proof fn lemma_two_to_fits(i: nat)
    requires
        i < usize::BITS,
    ensures
        two_to(i) <= usize::MAX,
{
    if usize::BITS == 32 {
        lemma_two_to_mono(i, 31);
        reveal_with_fuel(two_to, 33);
    } else {
        lemma_two_to_mono(i, 63);
        reveal_with_fuel(two_to, 65);
    }
}

proof fn lemma_two_to_mono(i: nat, j: nat)
    requires
        i <= j,
    ensures
        0 < two_to(i) <= two_to(j),
    decreases j,
{
    if i < j {
        lemma_two_to_mono(i, (j - 1) as nat);
    } else if i > 0 {
        lemma_two_to_mono((i - 1) as nat, (i - 1) as nat);
    }
}

} // verus!
