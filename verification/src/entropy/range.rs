//! A bit coder over the rANS primitives of the `ans` crate.
//!
//! Every bit is coded against a table of two symbols that the predicted
//! probability gives. The encoder feeds the bits in reverse order and the
//! decoder reads them forward; the final state is the tail of the stream, four
//! little-endian bytes, and bytes are taken off the end in front of it.

use crate::bytes;
use crate::entropy::byterans;
use crate::entropy::byterans::RansState;
use crate::error::{Fault, RcnError};
use crate::text;
use vstd::prelude::*;
use vstd::string::*;

verus! {

/// The precision of probabilities, in bits.
pub const PRECISION: u32 = 12;

/// The total frequency mass.
pub const TOTAL: u32 = 4096;

/// `ans::AnsError`: why a table, an encoder or a decoder refused; opaque here.
#[verifier::external_type_specification]
#[verifier::external_body]
pub struct ExAnsError(ans::AnsError);

/// `ans::FrequencyTable`: the frequencies of the symbols of an alphabet; opaque
/// here but for `table_freqs`.
#[verifier::external_type_specification]
#[verifier::external_body]
pub struct ExFrequencyTable(ans::FrequencyTable);

/// `ans::RansEncoder`: a state and the bytes that were shifted out of it; opaque
/// here but for `encoder_state`.
#[verifier::external_type_specification]
#[verifier::external_body]
pub struct ExRansEncoder(ans::RansEncoder);

/// `ans::RansDecoder`: a state and the bytes that are left; opaque here but for
/// `decoder_state`.
#[verifier::external_type_specification]
#[verifier::external_body]
pub struct ExRansDecoder<'a>(ans::RansDecoder<'a>);

/// The frequencies of a table's symbols.
pub uninterp spec fn table_freqs(t: ans::FrequencyTable) -> Seq<u32>;

/// The state of an encoder, with the bytes that it has shifted out, those that it
/// shifted out last first.
pub uninterp spec fn encoder_state(e: ans::RansEncoder) -> RansState;

/// The state of a decoder, with the bytes that it has not read in the order in
/// which it reads them.
pub uninterp spec fn decoder_state(d: ans::RansDecoder) -> RansState;

/// A table of two symbols that share the total frequency mass.
pub open spec fn is_bit_table(f: Seq<u32>) -> bool {
    f.len() == 2 && f[0] >= 1 && f[1] >= 1 && f[0] + f[1] == TOTAL
}

/// Frequency and start of a symbol of such a table.
pub open spec fn bit_interval(f: Seq<u32>, bit: bool) -> (u32, u32) {
    if bit {
        (f[1], f[0])
    } else {
        (f[0], 0)
    }
}

/// The stream of an encoder's state: the bytes that were shifted out, in that
/// order, then the state.
pub open spec fn state_bytes(s: RansState) -> Seq<u8> {
    s.rest.reverse() + bytes::le32(s.x)
}

/// Whether pulling bytes into `x` runs out of them below the lower bound.
pub open spec fn runs_dry(x: int, rest: Seq<u8>) -> bool
    decreases rest.len(),
{
    if x >= byterans::BYTE_L {
        false
    } else if rest.len() == 0 {
        true
    } else {
        runs_dry(x * 256 + rest[0], rest.drop_first())
    }
}

/// `FrequencyTable::from_counts` on two counts that already add up to the total
/// mass of 12 bits: scaling leaves both as they are, so the table holds them.
#[verifier::external_body]
fn two_symbol_table(p0: u32, p1: u32) -> (r: Result<ans::FrequencyTable, ans::AnsError>)
    requires
        p0 >= 1,
        p1 >= 1,
        p0 + p1 == TOTAL,
    ensures
        r is Ok,
        table_freqs(r->Ok_0) == seq![p0, p1],
{
    ans::FrequencyTable::from_counts(&[p0, p1], PRECISION)
}

/// `RansEncoder::new`: the state is `2^23`, and no byte was shifted out.
#[verifier::external_body]
fn empty_encoder() -> (e: ans::RansEncoder)
    ensures
        encoder_state(e) == (RansState { x: byterans::BYTE_L as int, rest: Seq::empty() }),
{
    ans::RansEncoder::new()
}

/// `RansEncoder::put` with a table of two symbols of 12 bits: it cannot fail;
/// bytes are shifted out until the state is small enough for the symbol's
/// frequency, and the symbol's interval is then coded on top of it.
#[verifier::external_body]
fn put_bit(e: &mut ans::RansEncoder, bit: bool, t: &ans::FrequencyTable) -> (r: Result<
    (),
    ans::AnsError,
>)
    requires
        is_bit_table(table_freqs(*t)),
    ensures
        r is Ok,
        encoder_state(*final(e)) == byterans::put(
            encoder_state(*old(e)),
            bit_interval(table_freqs(*t), bit).0 as int,
            bit_interval(table_freqs(*t), bit).1 as int,
        ),
{
    e.put(u32::from(bit), t)
}

/// `RansEncoder::finish`: the bytes come in the order in which they were shifted
/// out, the state behind them.
#[verifier::external_body]
fn finish_encoder(e: ans::RansEncoder) -> (out: Vec<u8>)
    ensures
        out@ == state_bytes(encoder_state(e)),
{
    e.finish()
}

/// The number in the last four bytes of a stream.
pub open spec fn tail_state(s: Seq<u8>) -> int {
    bytes::un_le32(s, s.len() - 4)
}

/// Whether a stream ends in a state.
pub open spec fn can_start(s: Seq<u8>) -> bool {
    s.len() >= 4 && tail_state(s) >= byterans::BYTE_L
}

/// The state in which the decoding of a stream starts.
pub open spec fn start_state(s: Seq<u8>) -> RansState {
    RansState { x: tail_state(s), rest: s.take(s.len() - 4).reverse() }
}

/// `RansDecoder::new`: the last four bytes are the state, which must not lie
/// below `2^23`; the bytes in front of it are read from the end.
#[verifier::external_body]
fn start_decoder(data: &[u8]) -> (r: Result<ans::RansDecoder<'_>, ans::AnsError>)
    ensures
        r is Ok <==> can_start(data@),
        r is Ok ==> decoder_state(r->Ok_0) == start_state(data@),
{
    ans::RansDecoder::new(data)
}

/// `RansDecoder::get` with a table of two symbols of 12 bits: the symbol is the
/// one whose interval holds the low 12 bits of the state; its interval is taken
/// off and bytes are pulled in, and it is an error if they run out. Nothing is
/// said of the decoder behind an error.
#[verifier::external_body]
fn get_symbol(d: &mut ans::RansDecoder<'_>, t: &ans::FrequencyTable) -> (r: Result<
    u32,
    ans::AnsError,
>)
    requires
        is_bit_table(table_freqs(*t)),
        byterans::BYTE_L <= decoder_state(*old(d)).x,
    ensures
        r is Ok <==> !bit_runs_dry(decoder_state(*old(d)), table_freqs(*t)),
        r is Ok ==> r->Ok_0 == (if carries_one(decoder_state(*old(d)), table_freqs(*t)) {
            1u32
        } else {
            0u32
        }) && decoder_state(*final(d)) == after_bit(decoder_state(*old(d)), table_freqs(*t)),
{
    d.get(t)
}

/// Whether the low bits of a state lie in the interval of symbol 1.
pub open spec fn carries_one(s: RansState, f: Seq<u32>) -> bool {
    byterans::state_cdf(s) >= f[0]
}

/// The interval that a state carries.
pub open spec fn carried(s: RansState, f: Seq<u32>) -> (u32, u32) {
    bit_interval(f, carries_one(s, f))
}

/// Whether the bytes run out behind the bit that a state carries.
pub open spec fn bit_runs_dry(s: RansState, f: Seq<u32>) -> bool {
    runs_dry(
        byterans::take_off(s, carried(s, f).0 as int, carried(s, f).1 as int),
        s.rest,
    )
}

/// The state behind the bit that a state carries.
pub open spec fn after_bit(s: RansState, f: Seq<u32>) -> RansState {
    byterans::rans_advance(s, carried(s, f).0 as int, carried(s, f).1 as int)
}

/// A probability within the range that a table of two symbols can hold.
pub open spec fn clamped(p: u16) -> u16 {
    if p < 1 {
        1
    } else if p > 4095 {
        4095
    } else {
        p
    }
}

/// The frequencies for a predicted probability of bit 1.
pub open spec fn bit_freqs(p: u16) -> Seq<u32> {
    seq![(TOTAL - clamped(p)) as u32, clamped(p) as u32]
}

/// The intervals of bits with their predicted probabilities.
pub open spec fn bit_syms(bits: Seq<(bool, u16)>) -> Seq<(u32, u32)> {
    Seq::new(bits.len(), |i: int| bit_interval(bit_freqs(bits[i].1), bits[i].0))
}

/// The stream of bits that were coded with predicted probabilities of bit 1.
pub open spec fn bits_stream(bits: Seq<(bool, u16)>) -> Seq<u8> {
    state_bytes(byterans::rans_encode(bit_syms(bits)))
}

proof fn lemma_bit_syms(bits: Seq<(bool, u16)>)
    ensures
        byterans::valid_syms(bit_syms(bits)),
        bits.len() > 0 ==> bit_syms(bits).drop_first() == bit_syms(bits.drop_first()),
{
    if bits.len() > 0 {
        assert(bit_syms(bits).drop_first() =~= bit_syms(bits.drop_first()));
    }
}

proof fn lemma_shrink_dry(x: int, freq: int, rest: Seq<u8>)
    requires
        1 <= freq <= 4096,
        0 <= x < 2147483648,
        x >= byterans::BYTE_L,
    ensures
        !runs_dry(byterans::shrink(x, freq).x, byterans::shrink(x, freq).rest + rest),
{
    lemma_shrink_dry_any(x, freq, rest);
}

proof fn lemma_shrink_dry_any(x: int, freq: int, rest: Seq<u8>)
    requires
        1 <= freq <= 4096,
        0 <= x < 2147483648,
    ensures
        runs_dry(byterans::shrink(x, freq).x, byterans::shrink(x, freq).rest + rest) == runs_dry(
            x,
            rest,
        ),
    decreases x,
{
    if x >= 524288 * freq {
        let low = (x % 256) as u8;
        let inner = byterans::shrink(x / 256, freq);
        lemma_shrink_dry_any(x / 256, freq, seq![low] + rest);
        assert(inner.rest.push(low) + rest =~= inner.rest + (seq![low] + rest));
        assert((seq![low] + rest).drop_first() =~= rest);
        assert(x / 256 * 256 + low == x);
    } else {
        assert(Seq::<u8>::empty() + rest =~= rest);
    }
}

/// The stream of bits starts in the encoder's final state.
pub proof fn law_bits_start(bits: Seq<(bool, u16)>)
    ensures
        can_start(bits_stream(bits)),
        start_state(bits_stream(bits)) == byterans::rans_encode(bit_syms(bits)),
{
    let syms = bit_syms(bits);
    lemma_bit_syms(bits);
    byterans::lemma_encode_range(syms);
    let e = byterans::rans_encode(syms);
    let s = bits_stream(bits);
    let n = e.rest.len() as int;
    assert(s.len() == n + 4);
    assert(s.subrange(n, n + 4) =~= bytes::le32(e.x));
    bytes::lemma_un_le32(s, n, e.x);
    assert(s.take(n) =~= e.rest.reverse());
    assert(s.take(n).reverse() =~= e.rest);
}

/// Reading a bit with the probability with which it was coded gives the bit,
/// and leaves the state of the bits behind it.
pub proof fn law_bit_round_trip(bits: Seq<(bool, u16)>)
    requires
        bits.len() > 0,
    ensures
        carries_one(byterans::rans_encode(bit_syms(bits)), bit_freqs(bits[0].1)) == bits[0].0,
        !bit_runs_dry(byterans::rans_encode(bit_syms(bits)), bit_freqs(bits[0].1)),
        after_bit(byterans::rans_encode(bit_syms(bits)), bit_freqs(bits[0].1))
            == byterans::rans_encode(bit_syms(bits.drop_first())),
{
    let syms = bit_syms(bits);
    let tail = bit_syms(bits.drop_first());
    lemma_bit_syms(bits);
    lemma_bit_syms(bits.drop_first());
    byterans::law_rans_round_trip(syms);
    byterans::lemma_encode_range(tail);
    let freq = syms[0].0 as int;
    let cum = syms[0].1 as int;
    let t = byterans::rans_encode(tail);
    byterans::lemma_shrink_range(t.x, freq);
    byterans::lemma_step(byterans::shrink(t.x, freq).x, freq, cum);
    lemma_shrink_dry(t.x, freq, t.rest);
    assert(syms[0] == bit_interval(bit_freqs(bits[0].1), bits[0].0));
}

/// The stream of bits takes at most two bytes for a bit, and four more.
pub proof fn lemma_bits_stream_len(bits: Seq<(bool, u16)>)
    ensures
        bits_stream(bits).len() <= 2 * bits.len() + 4,
{
    lemma_bit_syms(bits);
    byterans::lemma_rest_len(bit_syms(bits));
}

/// The tables made so far, by the frequency of symbol 1.
struct Tables {
    made: Vec<Option<ans::FrequencyTable>>,
}

impl Tables {
    /// Each table is the one for its place.
    spec fn wf(&self) -> bool {
        &&& self.made@.len() == TOTAL
        &&& forall|i: int|
            0 <= i < TOTAL ==> (#[trigger] self.made@[i] matches Some(t) ==> table_freqs(t)
                == bit_freqs(i as u16) && 0 < i)
    }

    fn new() -> (t: Self)
        ensures
            t.wf(),
    {
        let mut made: Vec<Option<ans::FrequencyTable>> = Vec::new();
        let mut i: u32 = 0;
        while i < TOTAL
            invariant
                i <= TOTAL,
                made@.len() == i,
                forall|j: int| 0 <= j < i ==> #[trigger] made@[j] is None,
            decreases TOTAL - i,
        {
            made.push(None);
            i = i + 1;
        }
        Tables { made }
    }

    /// The table for a predicted probability of bit 1.
    fn bit_table(&mut self, p: u16) -> (t: &ans::FrequencyTable)
        requires
            old(self).wf(),
        ensures
            final(self).wf(),
            table_freqs(*t) == bit_freqs(p),
            is_bit_table(table_freqs(*t)),
    {
        let p1: usize = if p < 1 {
            1
        } else if p > 4095 {
            4095
        } else {
            p as usize
        };
        if self.made[p1].is_none() {
            let r = two_symbol_table(TOTAL - p1 as u32, p1 as u32);
            assert(r is Ok);
            self.made.set(p1, Some(r.unwrap()));
        }
        assert(clamped(p1 as u16) == clamped(p));
        self.made[p1].as_ref().unwrap()
    }
}

/// Bit-level encoder over rANS.
pub struct BitEncoder {
    pending: Vec<(bool, u16)>,
}

impl View for BitEncoder {
    type V = Seq<(bool, u16)>;

    /// The bits so far with their predicted probabilities.
    closed spec fn view(&self) -> Seq<(bool, u16)> {
        self.pending@
    }
}

impl BitEncoder {
    /// A new bit encoder.
    pub fn new() -> (e: Self)
        ensures
            e@ == Seq::<(bool, u16)>::empty(),
    {
        Self { pending: Vec::new() }
    }

    /// Buffers one bit; `p` is the predicted probability of bit 1, in
    /// `[1, 4095]`.
    pub fn encode_bit(&mut self, bit: bool, p: u16)
        ensures
            final(self)@ == old(self)@.push((bit, p)),
    {
        self.pending.push((bit, p));
    }

    /// The coded byte stream.
    pub fn finish(self) -> (out: Vec<u8>)
        ensures
            out@ == bits_stream(self@),
    {
        let ghost bits = self@;
        let n: usize = self.pending.len();
        let mut enc = empty_encoder();
        let mut tables = Tables::new();
        let mut k: usize = n;
        assert(bit_syms(bits).skip(n as int) =~= Seq::<(u32, u32)>::empty());
        while k > 0
            invariant
                k <= n,
                n == self.pending@.len(),
                bits == self.pending@,
                encoder_state(enc) == byterans::rans_encode(bit_syms(bits).skip(k as int)),
                tables.wf(),
            decreases k,
        {
            k = k - 1;
            let (bit, p) = self.pending[k];
            let r = put_bit(&mut enc, bit, tables.bit_table(p));
            assert(r is Ok);
            assert(bit_syms(bits).skip(k as int).drop_first() =~= bit_syms(bits).skip(k + 1));
        }
        assert(bit_syms(bits).skip(0) =~= bit_syms(bits));
        finish_encoder(enc)
    }
}

impl Default for BitEncoder {
    fn default() -> (e: Self)
        ensures
            e@ == Seq::<(bool, u16)>::empty(),
    {
        Self::new()
    }
}

/// What is wrong with a stream that does not end in a state.
pub open spec fn start_fault(s: Seq<u8>) -> Fault {
    if s.len() < 4 {
        Fault::Entropy(dry_text(s.len() as int, 4))
    } else {
        Fault::Entropy(
            "invalid rANS state 0x"@ + text::hex(tail_state(s)) + " (expected >= 0x800000)"@,
        )
    }
}

/// What is said of a stream with too few bytes.
pub open spec fn dry_text(available: int, needed: int) -> Seq<char> {
    "truncated input ("@ + text::decimal(available) + " bytes available, need at least "@
        + text::decimal(needed) + ")"@
}

/// The message for a stream with too few bytes.
pub fn dry_message(available: usize, needed: usize) -> (m: String)
    ensures
        m@ == dry_text(available as int, needed as int),
{
    let mut m = String::from_str("truncated input (");
    text::push_decimal(&mut m, available as u64);
    m.append(" bytes available, need at least ");
    text::push_decimal(&mut m, needed as u64);
    m.append(")");
    m
}

/// Bit-level decoder over rANS.
pub struct BitDecoder<'a> {
    dec: ans::RansDecoder<'a>,
    tables: Tables,
}

impl<'a> BitDecoder<'a> {
    /// The state of the decoder.
    pub closed spec fn state(&self) -> RansState {
        decoder_state(self.dec)
    }

    /// The state is not below its lower bound, and the tables are right.
    pub closed spec fn ready(&self) -> bool {
        &&& self.state().x >= byterans::BYTE_L
        &&& self.tables.wf()
    }

    /// A decoder over a stream that `BitEncoder::finish` gave. A stream of fewer
    /// than four bytes, or whose last four bytes are no state, is an error.
    pub fn new(data: &'a [u8]) -> (r: Result<Self, RcnError>)
        ensures
            r matches Ok(d) ==> can_start(data@) && d.state() == start_state(data@) && d.ready(),
            r matches Err(e) ==> !can_start(data@) && e@ == start_fault(data@),
    {
        match start_decoder(data) {
            Ok(dec) => Ok(BitDecoder { dec, tables: Tables::new() }),
            Err(_) => {
                let n: usize = data.len();
                if n < 4 {
                    return Err(RcnError::Entropy(dry_message(n, 4)));
                }
                let mut m = String::from_str("invalid rANS state 0x");
                text::push_bare_hex(&mut m, bytes::get_u32(data, n - 4));
                m.append(" (expected >= 0x800000)");
                Err(RcnError::Entropy(m))
            },
        }
    }

    /// Decodes one bit, given the predicted probability of bit 1. It is an error
    /// if the stream ends before it.
    pub fn decode_bit(&mut self, p: u16) -> (r: Result<bool, RcnError>)
        requires
            old(self).ready(),
        ensures
            r matches Ok(bit) ==> {
                &&& !bit_runs_dry(old(self).state(), bit_freqs(p))
                &&& bit == carries_one(old(self).state(), bit_freqs(p))
                &&& final(self).state() == after_bit(old(self).state(), bit_freqs(p))
                &&& final(self).ready()
            },
            r matches Err(e) ==> {
                &&& bit_runs_dry(old(self).state(), bit_freqs(p))
                &&& e@ == Fault::Entropy(dry_text(0, 1))
            },
    {
        let ghost s = self.state();
        let table = self.tables.bit_table(p);
        match get_symbol(&mut self.dec, table) {
            Ok(sym) => {
                proof {
                    let (freq, cum) = carried(s, bit_freqs(p));
                    byterans::lemma_advance_normalized(s, freq as int, cum as int);
                }
                Ok(sym == 1)
            },
            Err(_) => Err(RcnError::Entropy(dry_message(0, 1))),
        }
    }
}

} // verus!
