//! Selection of one mixer out of a bank by the recent bytes.

use crate::model::assembler;
use crate::model::word;
use crate::model::ByteAssembler;
use vstd::prelude::*;

verus! {

/// Number of mixers in a bank.
pub const NUM_MIXERS: usize = 4096;

/// How many recent bytes are kept.
pub const KEPT: usize = 8;

/// Classes of bytes, as text has them.
#[derive(Debug, Clone, Copy, PartialEq, Eq, Structural)]
pub enum ByteClass {
    Space,
    Vowel,
    Consonant,
    Digit,
    Punct,
    Other,
}

/// Whether a byte is a vowel, large or small.
pub open spec fn vowel(b: u8) -> bool {
    b == 0x61 || b == 0x65 || b == 0x69 || b == 0x6F || b == 0x75 || b == 0x41 || b == 0x45 || b
        == 0x49 || b == 0x4F || b == 0x55
}

/// Whether a byte is one of the punctuation marks that count as such here:
/// `. , ; : ! ? " ' - ( ) [ ] { }`.
pub open spec fn mark(b: u8) -> bool {
    b == 0x2E || b == 0x2C || b == 0x3B || b == 0x3A || b == 0x21 || b == 0x3F || b == 0x22 || b
        == 0x27 || b == 0x2D || b == 0x28 || b == 0x29 || b == 0x5B || b == 0x5D || b == 0x7B || b
        == 0x7D
}

/// The class of a byte.
pub open spec fn class_of(b: u8) -> ByteClass {
    if b == 0x20 || b == 0x09 || b == 0x0A || b == 0x0D {
        ByteClass::Space
    } else if vowel(b) {
        ByteClass::Vowel
    } else if 0x30 <= b <= 0x39 {
        ByteClass::Digit
    } else if mark(b) {
        ByteClass::Punct
    } else if 0x41 <= b <= 0x5A || 0x61 <= b <= 0x7A {
        ByteClass::Consonant
    } else {
        ByteClass::Other
    }
}

/// The number of a class.
pub open spec fn class_number(c: ByteClass) -> u32 {
    match c {
        ByteClass::Space => 0,
        ByteClass::Vowel => 1,
        ByteClass::Consonant => 2,
        ByteClass::Digit => 3,
        ByteClass::Punct => 4,
        ByteClass::Other => 5,
    }
}

impl ByteClass {
    /// The class of a byte.
    pub fn classify(b: u8) -> (c: Self)
        ensures
            c == class_of(b),
    {
        match b {
            0x20 | 0x09 | 0x0A | 0x0D => ByteClass::Space,
            0x61 | 0x65 | 0x69 | 0x6F | 0x75 | 0x41 | 0x45 | 0x49 | 0x4F | 0x55 => {
                ByteClass::Vowel
            },
            0x30..=0x39 => ByteClass::Digit,
            0x2E | 0x2C | 0x3B | 0x3A | 0x21 | 0x3F | 0x22 | 0x27 | 0x2D | 0x28 | 0x29 | 0x5B
            | 0x5D | 0x7B | 0x7D => ByteClass::Punct,
            0x41..=0x5A | 0x61..=0x7A => ByteClass::Consonant,
            _ => ByteClass::Other,
        }
    }

    /// The number of a class.
    pub fn number(self) -> (n: u32)
        ensures
            n == class_number(self),
            n < 6,
    {
        match self {
            ByteClass::Space => 0,
            ByteClass::Vowel => 1,
            ByteClass::Consonant => 2,
            ByteClass::Digit => 3,
            ByteClass::Punct => 4,
            ByteClass::Other => 5,
        }
    }
}

/// The number of a mixer: three bits for the class of the last byte, three for
/// the bit position, and the lowest two of the last byte, of the byte before it and
/// of the word hash.
pub open spec fn bank_id(class: ByteClass, bit_pos: u8, o1: u8, o2: u8, hash: int) -> int {
    512 * class_number(class) + 64 * (bit_pos % 8) + 16 * (o1 % 4) + 4 * (o2 % 4) + hash % 4
}

/// Every number is one of a mixer, and two contexts share a mixer only if they
/// agree in all of the parts; so each bit position of a context has its own.
pub proof fn law_own_mixer(
    class1: ByteClass,
    class2: ByteClass,
    bp1: u8,
    bp2: u8,
    a1: u8,
    b1: u8,
    a2: u8,
    b2: u8,
    hash1: int,
    hash2: int,
)
    ensures
        0 <= bank_id(class1, bp1, a1, b1, hash1) < NUM_MIXERS,
        bank_id(class1, bp1, a1, b1, hash1) == bank_id(class2, bp2, a2, b2, hash2) <==> class1
            == class2 && bp1 % 8 == bp2 % 8 && a1 % 4 == a2 % 4 && b1 % 4 == b2 % 4 && hash1 % 4
            == hash2 % 4,
{
}

/// The number of the mixer for a context.
pub fn mixer_id(
    byte_class: ByteClass,
    bit_pos: u8,
    order1_byte: u8,
    order2_byte: u8,
    word_hash: usize,
) -> (id: usize)
    ensures
        id == bank_id(byte_class, bit_pos, order1_byte, order2_byte, word_hash as int),
        id < NUM_MIXERS,
{
    let class: usize = byte_class.number() as usize;
    512 * class + 64 * (bit_pos % 8) as usize + 16 * (order1_byte % 4) as usize + 4 * (order2_byte
        % 4) as usize + word_hash % 4
}

/// The number of the mixer for the next bit, given the recent bytes.
pub open spec fn selected(recent: Seq<u8>, bit_pos: u8) -> int {
    let class = if recent.len() == 0 {
        ByteClass::Other
    } else {
        class_of(recent.last())
    };
    bank_id(
        class,
        bit_pos,
        assembler::last_byte_of(recent),
        assembler::prev_byte_of(recent),
        word::hash_of(recent.skip(trailing_start(recent))) as int,
    )
}

/// Where the last run of bytes without a break starts.
pub open spec fn trailing_start(s: Seq<u8>) -> int
    decreases s.len(),
{
    if s.len() == 0 || word::ends_word(s.last()) {
        s.len() as int
    } else {
        trailing_start(s.drop_last())
    }
}

/// The recent bytes, by which a mixer is selected.
pub struct BankContext {
    bits: ByteAssembler,
}

impl View for BankContext {
    type V = Seq<u8>;

    closed spec fn view(&self) -> Seq<u8> {
        self.bits@.recent
    }
}

impl BankContext {
    /// The bytes keep to their number.
    pub closed spec fn wf(&self) -> bool {
        &&& self.bits.wf()
        &&& self.bits@.kept == KEPT
    }

    /// A context without a byte.
    pub fn new() -> (c: Self)
        ensures
            c.wf(),
            c@.len() == 0,
    {
        Self { bits: ByteAssembler::new(KEPT) }
    }

    /// The most recent byte, or 0.
    pub fn last_byte(&self) -> (b: u8)
        ensures
            b == assembler::last_byte_of(self@),
    {
        self.bits.last_byte()
    }

    /// The byte before the most recent one, or 0.
    pub fn prev_byte(&self) -> (b: u8)
        ensures
            b == assembler::prev_byte_of(self@),
    {
        self.bits.prev_byte()
    }

    fn word_hash(&self) -> (h: u32)
        requires
            self.wf(),
        ensures
            h == word::hash_of(self@.skip(trailing_start(self@))),
    {
        proof {
            self.bits.lemma_part();
        }
        let recent: &[u8] = self.bits.last(KEPT);
        assert(recent@ =~= self@);
        let mut start: usize = recent.len();
        while start > 0 && !word::is_break(recent[start - 1])
            invariant
                start <= recent@.len(),
                trailing_start_from(recent@, start as int),
            decreases start,
        {
            start = start - 1;
        }
        proof {
            lemma_trailing(recent@, start as int);
        }
        let tail = vstd::slice::slice_subrange(recent, start, recent.len());
        assert(tail@ =~= self@.skip(start as int));
        word::word_hash(tail)
    }

    /// The number of the mixer for the next bit.
    pub fn current_bank_id(&self, bit_pos: u8) -> (id: usize)
        requires
            self.wf(),
        ensures
            id == selected(self@, bit_pos),
            id < NUM_MIXERS,
    {
        let class: ByteClass = if self.bits.has_byte() {
            ByteClass::classify(self.bits.last_byte())
        } else {
            ByteClass::Other
        };
        mixer_id(
            class,
            bit_pos,
            self.bits.last_byte(),
            self.bits.prev_byte(),
            self.word_hash() as usize,
        )
    }

    /// Takes a completed byte.
    pub fn push_byte(&mut self, byte: u8)
        requires
            old(self).wf(),
        ensures
            final(self).wf(),
            final(self)@ == assembler::last_of(old(self)@.push(byte), KEPT as int),
            final(self)@ == assembler::last_of(old(self)@.push(byte), 8),
    {
        self.bits.push_byte(byte);
    }

    /// Forgets the bytes.
    pub fn reset(&mut self)
        requires
            old(self).wf(),
        ensures
            final(self).wf(),
            final(self)@.len() == 0,
    {
        self.bits.reset();
    }
}

/// Whether no byte from `start` on ends a word.
spec fn trailing_start_from(s: Seq<u8>, start: int) -> bool {
    forall|i: int| start <= i < s.len() ==> !word::ends_word(#[trigger] s[i])
}

proof fn lemma_trailing(s: Seq<u8>, start: int)
    requires
        0 <= start <= s.len(),
        trailing_start_from(s, start),
        start == 0 || word::ends_word(s[start - 1]),
    ensures
        trailing_start(s) == start,
    decreases s.len(),
{
    if start < s.len() {
        assert(!word::ends_word(s[s.len() - 1]));
        let t = s.drop_last();
        assert forall|i: int| start <= i < t.len() implies !word::ends_word(#[trigger] t[i]) by {
            assert(t[i] == s[i]);
        }
        lemma_trailing(t, start);
    }
}

/// A letter is a vowel where it is `a`, `e`, `i`, `o` or `u`, large or small, else a
/// consonant.
pub proof fn law_letters(b: u8, small: u8)
    requires
        0x61 <= small <= 0x7A,
        b == small || b == small - 32,
    ensures
        class_of(b) == if small == 0x61 || small == 0x65 || small == 0x69 || small == 0x6F || small
            == 0x75 {
            ByteClass::Vowel
        } else {
            ByteClass::Consonant
        },
{
}

/// Digits, white space and the marks have their classes; bytes from 128 on and control
/// bytes have none of these.
pub proof fn law_other_bytes(b: u8)
    ensures
        0x30 <= b <= 0x39 ==> class_of(b) == ByteClass::Digit,
        b == 0x20 || b == 0x09 || b == 0x0A || b == 0x0D ==> class_of(b) == ByteClass::Space,
        b == 0x2E || b == 0x2C || b == 0x21 || b == 0x3F || b == 0x3A || b == 0x3B || b == 0x22 || b
            == 0x27 || 0x28 <= b <= 0x29 || b == 0x2D || b == 0x5B || b == 0x5D || b == 0x7B || b
            == 0x7D ==> class_of(b) == ByteClass::Punct,
        b >= 0x80 || b < 0x09 || 0x0E <= b < 0x20 ==> class_of(b) == ByteClass::Other,
{
}

/// The word in progress is all that follows the last byte that ends a word: it alone
/// sets the lowest two bits of the mixer's number.
pub proof fn law_word_in_progress(before: Seq<u8>, w: Seq<u8>, bit_pos: u8)
    requires
        w.len() > 0,
        before.len() > 0 ==> word::ends_word(before.last()),
        forall|i: int| 0 <= i < w.len() ==> !word::ends_word(#[trigger] w[i]),
    ensures
        selected(before + w, bit_pos) % 4 == word::hash_of(w) % 4,
        selected(before + w, bit_pos) / 512 == class_number(class_of(w.last())),
{
    let s = before + w;
    let n = before.len() as int;
    assert forall|i: int| n <= i < s.len() implies !word::ends_word(#[trigger] s[i]) by {
        assert(s[i] == w[i - n]);
    }
    assert(n > 0 ==> s[n - 1] == before.last());
    lemma_trailing(s, n);
    assert(s.skip(n) =~= w);
    assert(s.last() == w.last());
}

} // verus!
