//! Word model: bit counts under the word before, for text.
//!
//! The word before and the last two bytes make up the context, so that what
//! tends to follow a word is predicted across its break.

use crate::model::assembler;
use crate::model::ctable;
use crate::model::ctable::CtxTable;
use crate::model::pairs;
use crate::model::pairs::BytePairDict;
use crate::model::xwrt;
use crate::model::{BitModel, ByteAssembler};
use vstd::prelude::*;

verus! {

/// Address bits of the context table.
pub const CTX_BITS: u32 = 19;

/// How many recent bytes are kept.
pub const KEPT: usize = 8;

/// How many words are kept.
pub const MAX_WORDS: usize = 8;

/// How many bytes of a word are kept.
pub const MAX_WORD_LEN: usize = 64;

/// Start of the word hash.
pub const HASH_START: u32 = 2166136261;

/// Factor of the word hash.
pub const HASH_FACTOR: u32 = 16777619;

/// White space, control bytes and punctuation end a word.
pub open spec fn ends_word(b: u8) -> bool {
    xwrt::breaks_word(b) || 1 <= b <= 8 || b == 0x0B || b == 0x0C || b == 0x0E || b == 0x0F
}

/// Whether a byte ends a word.
pub fn is_break(b: u8) -> (r: bool)
    ensures
        r == ends_word(b),
{
    xwrt::is_word_break(b) || (1 <= b && b <= 8) || b == 0x0B || b == 0x0C || b == 0x0E || b == 0x0F
}

/// The FNV-1a hash of a word.
pub open spec fn hash_of(word: Seq<u8>) -> u32
    decreases word.len(),
{
    if word.len() == 0 {
        HASH_START
    } else {
        let mixed = hash_of(word.drop_last()) ^ (word.last() as u32);
        ((mixed * HASH_FACTOR) % 0x1_0000_0000) as u32
    }
}

/// The FNV-1a hash of a word.
pub fn word_hash(word: &[u8]) -> (h: u32)
    ensures
        h == hash_of(word@),
{
    let mut h: u32 = HASH_START;
    let mut i: usize = 0;
    while i < word.len()
        invariant
            i <= word@.len(),
            h == hash_of(word@.take(i as int)),
        decreases word@.len() - i,
    {
        assert(word@.take(i + 1).drop_last() =~= word@.take(i as int));
        h = (h ^ word[i] as u32).wrapping_mul(HASH_FACTOR);
        i = i + 1;
    }
    assert(word@.take(word@.len() as int) =~= word@);
    h
}

/// Words with one more, the oldest one dropped where there are too many.
pub open spec fn with_word(words: Seq<Seq<u8>>, word: Seq<u8>, cap: int) -> Seq<Seq<u8>> {
    if words.len() == cap {
        words.skip(1).push(word)
    } else {
        words.push(word)
    }
}

/// The most recent completed words.
pub struct WordBuffer {
    words: Vec<Vec<u8>>,
    cap: usize,
}

impl View for WordBuffer {
    type V = Seq<Seq<u8>>;

    closed spec fn view(&self) -> Seq<Seq<u8>> {
        self.words@.map_values(|w: Vec<u8>| w@)
    }
}

impl WordBuffer {
    /// How many words are kept.
    pub closed spec fn kept(&self) -> int {
        self.cap as int
    }

    /// A buffer for up to `cap` words.
    pub fn new(cap: usize) -> (b: Self)
        ensures
            b@.len() == 0,
            b.kept() == cap,
    {
        Self { words: Vec::new(), cap }
    }

    /// Adds a completed word.
    pub fn push(&mut self, word: Vec<u8>)
        requires
            old(self).kept() > 0,
        ensures
            final(self)@ == with_word(old(self)@, word@, old(self).kept()),
            final(self).kept() == old(self).kept(),
    {
        if self.words.len() == self.cap {
            self.words.remove(0);
        }
        self.words.push(word);
        assert(self@ =~= with_word(old(self)@, word@, old(self).kept()));
    }

    /// The last word, if there is one.
    pub fn last(&self) -> (r: Option<&[u8]>)
        ensures
            match r {
                None => self@.len() == 0,
                Some(w) => self@.len() > 0 && w@ == self@.last(),
            },
    {
        let n: usize = self.words.len();
        if n == 0 {
            None
        } else {
            Some(self.words[n - 1].as_slice())
        }
    }

    /// The number of words.
    pub fn len(&self) -> (n: usize)
        ensures
            n == self@.len(),
    {
        self.words.len()
    }

    /// Forgets the words.
    pub fn reset(&mut self)
        ensures
            final(self)@.len() == 0,
            final(self).kept() == old(self).kept(),
    {
        self.words.clear();
    }
}

/// What a word model holds.
#[verifier::ext_equal]
pub struct WordState {
    pub bits: assembler::Bits,
    pub table: Seq<ctable::Counts>,
    pub words: Seq<Seq<u8>>,
    pub current: Seq<u8>,
    pub pairs: pairs::Pairs,
    pub prev: Option<u8>,
}

/// A word model that has seen nothing.
pub open spec fn new_state() -> WordState {
    WordState {
        bits: assembler::no_bits(KEPT as int),
        table: ctable::fresh(assembler::two_to(CTX_BITS as nat)),
        words: Seq::empty(),
        current: Seq::empty(),
        pairs: pairs::no_pairs(),
        prev: None,
    }
}

/// The context of a bit: the hash of the last word, mixed with the bit position,
/// and the last two bytes.
pub open spec fn context(bits: assembler::Bits, words: Seq<Seq<u8>>) -> u64 {
    let hash = if words.len() == 0 {
        0u32
    } else {
        hash_of(words.last())
    };
    let high = hash ^ ((bits.len * 0x100) as u32);
    (high * 0x1_0000_0000 + assembler::last_byte_of(bits.recent) * 0x100 + assembler::prev_byte_of(
        bits.recent,
    )) as u64
}

/// The words and the word in progress with one more byte: a byte that ends a word,
/// or that stands for a pair, completes it; a word that is too long keeps its front.
pub open spec fn spelled(words: Seq<Seq<u8>>, current: Seq<u8>, b: u8) -> (
    Seq<Seq<u8>>,
    Seq<u8>,
) {
    if b >= pairs::DICT_SYMBOL_BASE || ends_word(b) {
        if current.len() == 0 {
            (words, current)
        } else {
            (with_word(words, current, MAX_WORDS as int), Seq::empty())
        }
    } else if current.len() < MAX_WORD_LEN {
        (words, current.push(b))
    } else {
        (words, current)
    }
}

/// The model with one more bit seen: it is counted under the context in front of
/// it. A completed byte is recorded as a pair with the one before and spells a word.
pub open spec fn learned(s: WordState, bit: bool) -> WordState {
    let bits = assembler::pushed(s.bits, bit);
    let table = ctable::counted(s.table, context(s.bits, s.words), bit);
    match assembler::completed(s.bits, bit) {
        None => WordState { bits, table, ..s },
        Some(byte) => {
            let (words, current) = spelled(s.words, s.current, byte);
            WordState {
                bits,
                table,
                words,
                current,
                pairs: match s.prev {
                    None => s.pairs,
                    Some(p) => pairs::recorded(s.pairs, [p, byte]),
                },
                prev: Some(byte),
            }
        },
    }
}

/// The byte that would stand for the pair of the byte before and this one, where
/// that pair has a symbol and this byte is a small letter, a digit or a break.
pub open spec fn substitute(s: WordState, b: u8) -> Option<int> {
    match s.prev {
        None => None,
        Some(p) => match s.pairs.ids[p * 256 + b] {
            None => None,
            Some(id) => if 0x61 <= b <= 0x7A || 0x30 <= b <= 0x39 || ends_word(b) {
                Some(pairs::DICT_SYMBOL_BASE + id)
            } else {
                None
            },
        },
    }
}

/// Word model.
pub struct WordModel {
    bits: ByteAssembler,
    table: CtxTable,
    words: WordBuffer,
    cur_word: Vec<u8>,
    dict: BytePairDict,
    prev_byte: Option<u8>,
}

impl View for WordModel {
    type V = WordState;

    closed spec fn view(&self) -> WordState {
        WordState {
            bits: self.bits@,
            table: self.table@,
            words: self.words@,
            current: self.cur_word@,
            pairs: self.dict@,
            prev: self.prev_byte,
        }
    }
}

impl WordModel {
    /// A model that has seen nothing.
    pub fn new() -> (m: Self)
        ensures
            m.wf(),
            m@ == new_state(),
    {
        let m = Self {
            bits: ByteAssembler::new(KEPT),
            table: CtxTable::new(CTX_BITS),
            words: WordBuffer::new(MAX_WORDS),
            cur_word: Vec::new(),
            dict: BytePairDict::new(),
            prev_byte: None,
        };
        assert(m@ =~= new_state());
        m
    }

    /// The recent words.
    pub fn words(&self) -> (w: &WordBuffer)
        ensures
            w@ == self@.words,
    {
        &self.words
    }

    /// The dictionary of byte pairs.
    pub fn dict(&self) -> (d: &BytePairDict)
        ensures
            d@ == self@.pairs,
    {
        &self.dict
    }

    fn flush_word(&mut self)
        requires
            old(self).wf(),
        ensures
            final(self).wf(),
            final(self)@ == (WordState {
                words: if old(self)@.current.len() == 0 {
                    old(self)@.words
                } else {
                    with_word(old(self)@.words, old(self)@.current, MAX_WORDS as int)
                },
                current: Seq::empty(),
                ..old(self)@
            }),
    {
        if self.cur_word.len() > 0 {
            let mut word: Vec<u8> = Vec::new();
            std::mem::swap(&mut word, &mut self.cur_word);
            self.words.push(word);
        }
        assert(self.cur_word@ =~= Seq::empty());
    }

    fn key(&self) -> (k: u64)
        requires
            self.bits.wf(),
        ensures
            k == context(self@.bits, self@.words),
    {
        let hash: u32 = match self.words.last() {
            None => 0,
            Some(w) => word_hash(w),
        };
        let high: u32 = hash ^ (self.bits.nbits() as u32 * 0x100);
        high as u64 * 0x1_0000_0000 + self.bits.last_byte() as u64 * 0x100
            + self.bits.prev_byte() as u64
    }

    /// The byte that would stand for the pair that `byte` completes.
    pub fn try_substitute(&self, byte: u8) -> (r: Option<u8>)
        requires
            self.wf(),
            substitute(self@, byte) matches Some(symbol) ==> symbol <= 255,
        ensures
            match r {
                None => substitute(self@, byte) is None,
                Some(symbol) => substitute(self@, byte) == Some(symbol as int),
            },
    {
        match self.prev_byte {
            None => None,
            Some(prev) => match self.dict.lookup([prev, byte]) {
                None => None,
                Some(id) => {
                    let plain: bool = (0x61 <= byte && byte <= 0x7A) || (0x30 <= byte && byte
                        <= 0x39) || is_break(byte);
                    if plain {
                        Some(pairs::DICT_SYMBOL_BASE + id as u8)
                    } else {
                        None
                    }
                },
            },
        }
    }
}

impl BitModel for WordModel {
    closed spec fn wf(&self) -> bool {
        &&& self.bits.wf()
        &&& self.bits@.kept == KEPT
        &&& self.table.wf()
        &&& self.table@.len() == assembler::two_to(CTX_BITS as nat)
        &&& self.words.kept() == MAX_WORDS
        &&& self.dict.wf()
    }

    fn predict(&self) -> (p: u16)
        ensures
            p == ctable::prob_of(
                ctable::under(self@.table, context(self@.bits, self@.words)),
            ),
    {
        let c: [u32; 2] = self.table.get(self.key());
        ctable::prob(c[0], c[1])
    }

    fn update(&mut self, bit: bool)
        ensures
            final(self)@ == learned(old(self)@, bit),
    {
        let k: u64 = self.key();
        self.table.update(k, bit);
        match self.bits.push_bit(bit) {
            Some(byte) => {
                match self.prev_byte {
                    Some(prev) => {
                        self.dict.record_pair([prev, byte]);
                    },
                    None => {},
                }
                self.prev_byte = Some(byte);
                if BytePairDict::is_symbol(byte) || is_break(byte) {
                    self.flush_word();
                } else if self.cur_word.len() < MAX_WORD_LEN {
                    self.cur_word.push(byte);
                }
            },
            None => {},
        }
        assert(self@ =~= learned(old(self)@, bit));
    }

    fn reset(&mut self)
        ensures
            final(self)@ == new_state(),
    {
        self.bits.reset();
        self.table.reset();
        self.words.reset();
        self.cur_word.clear();
        self.dict.reset();
        self.prev_byte = None;
        assert(self@ =~= new_state());
    }
}

impl Default for WordModel {
    fn default() -> (m: Self)
        ensures
            m.wf(),
            m@ == new_state(),
    {
        Self::new()
    }
}

} // verus!
