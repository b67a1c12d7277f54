//! 256-symbol rANS entropy coder for the byte-level codec path.
//!
//! A 32-bit state, a 12-bit frequency scale and byte-wise renormalization. The
//! encoder buffers the symbols, codes them in reverse order and writes the
//! final state first, so that the decoder reads the stream forward.

use crate::bytes;
use vstd::arithmetic::power::pow;
use vstd::prelude::*;

verus! {

/// Total frequency mass (12 bits).
pub const BYTE_SCALE: u32 = 4096;

/// Lower bound of a normalized state: states are kept in `[BYTE_L, 2^31)` by
/// the encoder.
pub const BYTE_L: u32 = 8388608;

/// A state together with the renormalization bytes that are still to be read.
#[verifier::ext_equal]
pub struct RansState {
    pub x: int,
    pub rest: Seq<u8>,
}

/// The frequency interval `[cum, cum + freq)` is a non-empty part of the scale.
pub open spec fn valid_interval(freq: int, cum: int) -> bool {
    1 <= freq && 0 <= cum && cum + freq <= BYTE_SCALE
}

/// Shrinks a state below `2^19 * freq`; the bytes that are shifted out are
/// listed in the order in which the decoder reads them.
pub open spec fn shrink(x: int, freq: int) -> RansState
    decreases x,
{
    if freq >= 1 && x >= 524288 * freq {
        let inner = shrink(x / 256, freq);
        RansState { x: inner.x, rest: inner.rest.push((x % 256) as u8) }
    } else {
        RansState { x, rest: Seq::empty() }
    }
}

/// The state after coding the interval `[cum, cum + freq)` on top of a shrunk
/// state `x`.
pub open spec fn encode_step(x: int, freq: int, cum: int) -> int {
    (x / freq) * (BYTE_SCALE as int) + cum + x % freq
}

/// What the encoder has after coding one more interval.
pub open spec fn put(s: RansState, freq: int, cum: int) -> RansState {
    let small = shrink(s.x, freq);
    RansState { x: encode_step(small.x, freq, cum), rest: small.rest + s.rest }
}

/// What the encoder has after coding all of `syms`, last interval first.
pub open spec fn rans_encode(syms: Seq<(u32, u32)>) -> RansState
    decreases syms.len(),
{
    if syms.len() == 0 {
        RansState { x: BYTE_L as int, rest: Seq::empty() }
    } else {
        put(rans_encode(syms.drop_first()), syms[0].0 as int, syms[0].1 as int)
    }
}

/// The byte stream for `syms`: the final state, then the renormalization bytes.
pub open spec fn rans_stream(syms: Seq<(u32, u32)>) -> Seq<u8> {
    bytes::le32(rans_encode(syms).x) + rans_encode(syms).rest
}

/// Pulls bytes into a state until it reaches `BYTE_L`; zero bytes follow the
/// end of the stream.
pub open spec fn grow(s: RansState) -> RansState
    decreases
        s.rest.len(),
        if s.x < BYTE_L {
            BYTE_L - s.x
        } else {
            0
        },
{
    if s.x < 0 || s.x >= BYTE_L {
        s
    } else if s.rest.len() > 0 {
        grow(RansState { x: s.x * 256 + s.rest[0], rest: s.rest.drop_first() })
    } else if s.x > 0 {
        grow(RansState { x: s.x * 256, rest: s.rest })
    } else {
        s
    }
}

/// The scaled position within the distribution that a state carries.
pub open spec fn state_cdf(s: RansState) -> int {
    s.x % (BYTE_SCALE as int)
}

/// The number left in a state once the interval `[cum, cum + freq)` is taken off.
pub open spec fn take_off(s: RansState, freq: int, cum: int) -> int {
    freq * (s.x / (BYTE_SCALE as int)) + state_cdf(s) - cum
}

/// The decoder's state after it has taken off the interval `[cum, cum + freq)`.
pub open spec fn rans_advance(s: RansState, freq: int, cum: int) -> RansState {
    grow(RansState { x: take_off(s, freq, cum), rest: s.rest })
}

/// Whether pulling in bytes ends: the number is positive or some byte is.
pub open spec fn can_grow(x: int, rest: Seq<u8>) -> bool {
    x > 0 || exists|i: int| 0 <= i < rest.len() && rest[i] != 0
}

/// A number from which pulling in bytes ends reaches `BYTE_L`.
pub proof fn lemma_grow_reaches(s: RansState)
    requires
        0 <= s.x,
        can_grow(s.x, s.rest),
    ensures
        grow(s).x >= BYTE_L,
    decreases
        s.rest.len(),
        if s.x < BYTE_L {
            BYTE_L - s.x
        } else {
            0
        },
{
    if s.x < BYTE_L {
        if s.rest.len() > 0 {
            let next = RansState { x: s.x * 256 + s.rest[0], rest: s.rest.drop_first() };
            if next.x == 0 {
                let i = choose|i: int| 0 <= i < s.rest.len() && s.rest[i] != 0;
                assert(next.rest[i - 1] == s.rest[i]);
            }
            lemma_grow_reaches(next);
        } else {
            lemma_grow_reaches(RansState { x: s.x * 256, rest: s.rest });
        }
    }
}

/// Taking an interval that the state carries off a normalized state leaves a
/// normalized state.
pub proof fn lemma_advance_normalized(s: RansState, freq: int, cum: int)
    requires
        s.x >= BYTE_L,
        1 <= freq,
        cum <= state_cdf(s),
    ensures
        take_off(s, freq, cum) > 0,
        rans_advance(s, freq, cum).x >= BYTE_L,
{
    let high = s.x / 4096;
    assert(freq * high >= 1) by (nonlinear_arith)
        requires
            freq >= 1,
            high >= 1,
    ;
    lemma_grow_reaches(RansState { x: take_off(s, freq, cum), rest: s.rest });
}

/// The symbol whose cumulative range contains `cdf`.
pub open spec fn symbol_at(p: Seq<u16>, cdf: int) -> int {
    choose|s: int|
        0 <= s < p.len() && #[trigger] bytes::sum_to(p, s) <= cdf < bytes::sum_to(p, s + 1)
}

/// Cumulative ranges are disjoint, so at most one contains `cdf`.
pub proof fn lemma_symbol_at(p: Seq<u16>, cdf: int, s: int)
    requires
        0 <= s < p.len(),
        bytes::sum_to(p, s) <= cdf < bytes::sum_to(p, s + 1),
    ensures
        symbol_at(p, cdf) == s,
{
    let t = symbol_at(p, cdf);
    if t < s {
        bytes::lemma_sum_to_mono(p, t + 1, s);
    } else if s < t {
        bytes::lemma_sum_to_mono(p, s + 1, t);
    }
}

/// All intervals of `syms` are valid.
pub open spec fn valid_syms(syms: Seq<(u32, u32)>) -> bool {
    forall|i: int|
        0 <= i < syms.len() ==> valid_interval(
            (#[trigger] syms[i]).0 as int,
            syms[i].1 as int,
        )
}

/// Shrinking leaves a state from which one coding step gives a normalized one.
pub proof fn lemma_shrink_range(x: int, freq: int)
    requires
        1 <= freq <= 4096,
        2048 * freq <= x,
    ensures
        2048 * freq <= shrink(x, freq).x < 524288 * freq,
    decreases x,
{
    if x >= 524288 * freq {
        lemma_shrink_range(x / 256, freq);
    }
}

/// A coding step on a shrunk state gives a normalized state that carries the
/// interval, and taking the interval off gives the shrunk state back.
pub proof fn lemma_step(x: int, freq: int, cum: int)
    requires
        valid_interval(freq, cum),
        2048 * freq <= x < 524288 * freq,
    ensures
        BYTE_L <= encode_step(x, freq, cum) < 2147483648,
        cum <= encode_step(x, freq, cum) % 4096 < cum + freq,
        freq * (encode_step(x, freq, cum) / 4096) + encode_step(x, freq, cum) % 4096 - cum == x,
{
    let q = x / freq;
    let r = x % freq;
    assert(x == q * freq + r && 0 <= r < freq) by (nonlinear_arith)
        requires
            q == x / freq,
            r == x % freq,
            freq >= 1,
    ;
    assert(2048 <= q < 524288) by (nonlinear_arith)
        requires
            x == q * freq + r,
            0 <= r < freq,
            2048 * freq <= x < 524288 * freq,
            freq >= 1,
    ;
    let y = encode_step(x, freq, cum);
    assert(y == q * 4096 + cum + r);
    assert(y / 4096 == q);
    assert(freq * q == q * freq) by (nonlinear_arith);
}

/// Growing a shrunk state over the bytes that were shifted out undoes the
/// shrinking.
pub proof fn lemma_grow_shrink(x: int, freq: int, rest: Seq<u8>)
    requires
        1 <= freq <= 4096,
        0 <= x < 2147483648,
    ensures
        grow(RansState { x: shrink(x, freq).x, rest: shrink(x, freq).rest + rest }) == grow(
            RansState { x, rest },
        ),
    decreases x,
{
    if x >= 524288 * freq {
        let low = (x % 256) as u8;
        let inner = shrink(x / 256, freq);
        lemma_grow_shrink(x / 256, freq, seq![low] + rest);
        assert(inner.rest.push(low) + rest =~= inner.rest + (seq![low] + rest));
        assert((seq![low] + rest).drop_first() =~= rest);
        assert(x / 256 * 256 + low == x);
    } else {
        assert(Seq::<u8>::empty() + rest =~= rest);
    }
}

/// The encoder's state stays normalized.
pub proof fn lemma_encode_range(syms: Seq<(u32, u32)>)
    requires
        valid_syms(syms),
    ensures
        BYTE_L <= rans_encode(syms).x < 2147483648,
    decreases syms.len(),
{
    if syms.len() > 0 {
        let tail = syms.drop_first();
        assert forall|i: int| 0 <= i < tail.len() implies valid_interval(
            (#[trigger] tail[i]).0 as int,
            tail[i].1 as int,
        ) by {
            assert(tail[i] == syms[i + 1]);
        }
        lemma_encode_range(tail);
        lemma_shrink_range(rans_encode(tail).x, syms[0].0 as int);
        lemma_step(
            shrink(rans_encode(tail).x, syms[0].0 as int).x,
            syms[0].0 as int,
            syms[0].1 as int,
        );
    }
}

proof fn lemma_shrink_len(x: int, freq: int)
    requires
        1 <= freq,
        0 <= x < 2147483648,
    ensures
        shrink(x, freq).rest.len() <= 2,
{
    reveal_with_fuel(shrink, 4);
}

/// Coding an interval shifts out at most two bytes.
pub proof fn lemma_rest_len(syms: Seq<(u32, u32)>)
    requires
        valid_syms(syms),
    ensures
        rans_encode(syms).rest.len() <= 2 * syms.len(),
    decreases syms.len(),
{
    if syms.len() > 0 {
        let tail = syms.drop_first();
        assert forall|i: int| 0 <= i < tail.len() implies valid_interval(
            (#[trigger] tail[i]).0 as int,
            tail[i].1 as int,
        ) by {
            assert(tail[i] == syms[i + 1]);
        }
        lemma_rest_len(tail);
        lemma_encode_range(tail);
        lemma_shrink_len(rans_encode(tail).x, syms[0].0 as int);
    }
}

/// A state as one number: the bytes to be read count as its lower digits.
spec fn weight(s: RansState) -> int {
    s.x * pow(256, s.rest.len())
}

proof fn lemma_shrink_weight(x: int, freq: int)
    requires
        1 <= freq,
        0 <= x,
    ensures
        weight(shrink(x, freq)) <= x,
    decreases x,
{
    if x >= 524288 * freq {
        let inner = shrink(x / 256, freq);
        lemma_shrink_weight(x / 256, freq);
        let k = inner.rest.len();
        assert(shrink(x, freq).rest.len() == k + 1);
        assert(pow(256, k + 1) == 256 * pow(256, k)) by {
            reveal(pow);
        }
        let p = pow(256, k);
        assert(inner.x * (256 * p) == 256 * (inner.x * p)) by (nonlinear_arith);
    } else {
        reveal(pow);
        assert(x * 1 == x);
    }
}

proof fn lemma_put_weight(s: RansState, freq: int, cum: int)
    requires
        valid_interval(freq, cum),
        2048 * freq <= s.x,
    ensures
        weight(put(s, freq, cum)) * (2048 * freq) <= 8392704 * weight(s),
{
    let small = shrink(s.x, freq);
    lemma_shrink_range(s.x, freq);
    lemma_shrink_weight(s.x, freq);
    let x = small.x;
    let y = encode_step(x, freq, cum);
    let q = x / freq;
    let r = x % freq;
    assert(x == q * freq + r && 0 <= r < freq) by (nonlinear_arith)
        requires
            q == x / freq,
            r == x % freq,
            freq >= 1,
    ;
    assert(y <= q * 4096 + 4096);
    assert(y * freq <= 4096 * (q * freq) + 4096 * freq) by (nonlinear_arith)
        requires
            y <= q * 4096 + 4096,
            freq >= 1,
    ;
    assert(y * (2048 * freq) == 2048 * (y * freq)) by (nonlinear_arith);
    assert(y * (2048 * freq) <= 8392704 * x);
    let a = small.rest.len();
    let b = s.rest.len();
    let pa = pow(256, a);
    let pb = pow(256, b);
    vstd::arithmetic::power::lemma_pow_adds(256, a, b);
    vstd::arithmetic::power::lemma_pow_positive(256, a);
    vstd::arithmetic::power::lemma_pow_positive(256, b);
    assert(put(s, freq, cum).rest.len() == a + b);
    assert(y * (pa * pb) * (2048 * freq) == (y * (2048 * freq)) * pa * pb) by (nonlinear_arith);
    assert((y * (2048 * freq)) * pa * pb <= (8392704 * x) * pa * pb) by (nonlinear_arith)
        requires
            y * (2048 * freq) <= 8392704 * x,
            pa > 0,
            pb > 0,
    ;
    assert((8392704 * x) * pa * pb == 8392704 * ((x * pa) * pb)) by (nonlinear_arith);
    assert((x * pa) * pb <= s.x * pb) by (nonlinear_arith)
        requires
            x * pa <= s.x,
            pb > 0,
    ;
}

/// The product of the frequencies of intervals, each times 2048.
pub open spec fn freq_product(syms: Seq<(u32, u32)>) -> int
    decreases syms.len(),
{
    if syms.len() == 0 {
        1
    } else {
        (2048 * syms[0].0) * freq_product(syms.drop_first())
    }
}

proof fn lemma_weight_bound(syms: Seq<(u32, u32)>)
    requires
        valid_syms(syms),
    ensures
        freq_product(syms) >= 1,
        weight(rans_encode(syms)) * freq_product(syms) <= 8388608 * pow(8392704, syms.len()),
    decreases syms.len(),
{
    reveal(pow);
    if syms.len() > 0 {
        let tail = syms.drop_first();
        assert forall|i: int| 0 <= i < tail.len() implies valid_interval(
            (#[trigger] tail[i]).0 as int,
            tail[i].1 as int,
        ) by {
            assert(tail[i] == syms[i + 1]);
        }
        lemma_weight_bound(tail);
        lemma_encode_range(tail);
        let s = rans_encode(tail);
        let f = syms[0].0 as int;
        assert(valid_interval(f, syms[0].1 as int));
        lemma_put_weight(s, f, syms[0].1 as int);
        let w = weight(rans_encode(syms));
        let v = weight(s);
        let g = freq_product(tail);
        let bound = 8388608 * pow(8392704, tail.len());
        assert(w * ((2048 * f) * g) == (w * (2048 * f)) * g) by (nonlinear_arith);
        assert((w * (2048 * f)) * g <= (8392704 * v) * g) by (nonlinear_arith)
            requires
                w * (2048 * f) <= 8392704 * v,
                g >= 1,
        ;
        assert((8392704 * v) * g == 8392704 * (v * g)) by (nonlinear_arith);
        assert((2048 * f) * g >= 1) by (nonlinear_arith)
            requires
                f >= 1,
                g >= 1,
        ;
        assert(pow(8392704, syms.len()) == 8392704 * pow(8392704, tail.len()));
    } else {
        assert(pow(256, 0) == 1 && pow(8392704, 0) == 1);
    }
}

/// A stream is as short as the frequencies allow: an interval of frequency `f` takes
/// off the share `f / 4096`, up to one part in 2048. The product over all intervals
/// of `f * 2048`, times 256 for each byte behind the state, is at most that of
/// `4096 * 2049` for each interval.
pub proof fn law_stream_length(syms: Seq<(u32, u32)>)
    requires
        valid_syms(syms),
    ensures
        rans_stream(syms).len() >= 4,
        pow(256, (rans_stream(syms).len() - 4) as nat) * freq_product(syms) <= pow(
            8392704,
            syms.len(),
        ),
{
    lemma_weight_bound(syms);
    lemma_encode_range(syms);
    let s = rans_encode(syms);
    let k = s.rest.len();
    assert(rans_stream(syms).len() - 4 == k);
    let p = pow(256, k);
    let g = freq_product(syms);
    let bound = pow(8392704, syms.len());
    vstd::arithmetic::power::lemma_pow_positive(256, k);
    assert(8388608 * (p * g) <= (s.x * p) * g) by (nonlinear_arith)
        requires
            8388608 <= s.x,
            p > 0,
            g >= 1,
    ;
}

/// Decoding undoes encoding: the state for `syms` carries its first interval,
/// and taking that interval off gives the state for the remaining ones.
pub proof fn law_rans_round_trip(syms: Seq<(u32, u32)>)
    requires
        valid_syms(syms),
        syms.len() > 0,
    ensures
        syms[0].1 <= state_cdf(rans_encode(syms)) < syms[0].1 + syms[0].0,
        rans_advance(rans_encode(syms), syms[0].0 as int, syms[0].1 as int) == rans_encode(
            syms.drop_first(),
        ),
        take_off(rans_encode(syms), syms[0].0 as int, syms[0].1 as int) > 0,
{
    let tail = syms.drop_first();
    let freq = syms[0].0 as int;
    let cum = syms[0].1 as int;
    assert(valid_syms(tail)) by {
        assert forall|i: int| 0 <= i < tail.len() implies valid_interval(
            (#[trigger] tail[i]).0 as int,
            tail[i].1 as int,
        ) by {
            assert(tail[i] == syms[i + 1]);
        }
    }
    lemma_encode_range(tail);
    let t = rans_encode(tail);
    lemma_shrink_range(t.x, freq);
    let small = shrink(t.x, freq);
    lemma_step(small.x, freq, cum);
    lemma_grow_shrink(t.x, freq, t.rest);
    assert(grow(t) == t);
}

/// The stream of `syms` starts with the state and goes on with its bytes.
pub proof fn lemma_stream_parts(syms: Seq<(u32, u32)>)
    requires
        valid_syms(syms),
    ensures
        rans_stream(syms).len() >= 4,
        bytes::un_le32(rans_stream(syms), 0) == rans_encode(syms).x,
        rans_stream(syms).skip(4) == rans_encode(syms).rest,
{
    lemma_encode_range(syms);
    let s = rans_stream(syms);
    assert(s.subrange(0, 4) =~= bytes::le32(rans_encode(syms).x));
    bytes::lemma_un_le32(s, 0, rans_encode(syms).x);
    assert(s.skip(4) =~= rans_encode(syms).rest);
}

/// Byte-level rANS encoder. Buffers symbols; `finish` encodes them in reverse
/// (the rANS convention) and returns the byte stream.
pub struct RansByteEncoder {
    syms: Vec<(u32, u32)>,
}

impl View for RansByteEncoder {
    type V = Seq<(u32, u32)>;

    /// The buffered `(freq, cum)` records, in the caller's order.
    closed spec fn view(&self) -> Seq<(u32, u32)> {
        self.syms@
    }
}

impl Default for RansByteEncoder {
    fn default() -> (enc: Self)
        ensures
            enc@ == Seq::<(u32, u32)>::empty(),
    {
        Self::new()
    }
}

impl RansByteEncoder {
    /// An encoder that holds no symbol yet.
    pub fn new() -> (enc: Self)
        ensures
            enc@ == Seq::<(u32, u32)>::empty(),
    {
        Self { syms: Vec::new() }
    }

    /// Buffers `symbol` with its interval in the distribution `probs`.
    pub fn encode_symbol(&mut self, symbol: u8, probs: [u16; 256])
        requires
            probs[symbol as int] >= 1,
            bytes::sum_to(probs@, symbol + 1) <= BYTE_SCALE,
        ensures
            final(self)@ == old(self)@.push(
                (probs[symbol as int] as u32, bytes::sum_to(probs@, symbol as int) as u32),
            ),
    {
        let freq: u32 = probs[symbol as usize] as u32;
        let mut cum: u32 = 0;
        let mut i: usize = 0;
        while i < symbol as usize
            invariant
                i <= symbol <= 255,
                cum == bytes::sum_to(probs@, i as int),
                cum <= 65535 * i,
            decreases symbol - i,
        {
            cum = cum + probs[i] as u32;
            i = i + 1;
        }
        self.syms.push((freq, cum));
    }

    /// Buffers one symbol whose `freq`/`cum` are already known.
    pub fn encode_fc(&mut self, freq: u32, cum: u32)
        ensures
            final(self)@ == old(self)@.push((freq, cum)),
    {
        self.syms.push((freq, cum));
    }

    /// Encodes the buffered symbols and returns the byte stream: the final
    /// state, then the renormalization bytes in the order of reading.
    pub fn finish(self) -> (out: Vec<u8>)
        requires
            valid_syms(self@),
        ensures
            out@ == rans_stream(self@),
    {
        let ghost syms = self.syms@;
        let mut state: u32 = BYTE_L;
        let mut pending: Vec<u8> = Vec::new();
        let mut k: usize = self.syms.len();
        assert(syms.skip(k as int) =~= Seq::empty());
        assert(pending@.reverse() =~= Seq::<u8>::empty());
        while k > 0
            invariant
                k <= syms.len(),
                syms == self.syms@,
                valid_syms(syms),
                state == rans_encode(syms.skip(k as int)).x,
                pending@.reverse() == rans_encode(syms.skip(k as int)).rest,
            decreases k,
        {
            let ghost tail = syms.skip(k as int);
            let ghost cur = syms.skip(k - 1);
            let freq: u32 = self.syms[k - 1].0;
            let cum: u32 = self.syms[k - 1].1;
            proof {
                assert(syms[k - 1] == (freq, cum));
                assert(cur.drop_first() =~= tail);
                assert(valid_syms(tail)) by {
                    assert forall|i: int| 0 <= i < tail.len() implies valid_interval(
                        (#[trigger] tail[i]).0 as int,
                        tail[i].1 as int,
                    ) by {
                        assert(tail[i] == syms[i + k]);
                    }
                }
                lemma_encode_range(tail);
                lemma_shrink_range(state as int, freq as int);
                lemma_step(shrink(state as int, freq as int).x, freq as int, cum as int);
                assert(Seq::<u8>::empty() + pending@.reverse() =~= pending@.reverse());
            }
            let x_max: u32 = 524288 * freq;
            let ghost whole = shrink(state as int, freq as int);
            let ghost done = rans_encode(tail).rest;
            while state >= x_max
                invariant
                    1 <= freq <= 4096,
                    x_max == 524288 * freq,
                    shrink(state as int, freq as int).x == whole.x,
                    shrink(state as int, freq as int).rest + pending@.reverse() == whole.rest
                        + done,
                decreases state,
            {
                let ghost before = pending@;
                let low: u8 = (state % 256) as u8;
                pending.push(low);
                proof {
                    let inner = shrink(state as int / 256, freq as int);
                    assert(pending@.reverse() =~= seq![low] + before.reverse());
                    assert(inner.rest.push(low) + before.reverse() =~= inner.rest
                        + pending@.reverse());
                }
                state = state / 256;
            }
            proof {
                assert(Seq::<u8>::empty() + pending@.reverse() =~= pending@.reverse());
                let q = state as int / freq as int;
                assert(q * 4096 <= encode_step(state as int, freq as int, cum as int));
                assert(state as int % freq as int >= 0);
            }
            state = (state / freq) * BYTE_SCALE + cum + (state % freq);
            k = k - 1;
        }
        assert(syms.skip(0) =~= syms);
        let mut out: Vec<u8> = Vec::new();
        bytes::push_u32(&mut out, state);
        let mut j: usize = pending.len();
        assert(out@ =~= bytes::le32(state as int) + pending@.reverse().take(0));
        while j > 0
            invariant
                j <= pending.len(),
                out@ == bytes::le32(state as int) + pending@.reverse().take(pending.len() - j),
            decreases j,
        {
            j = j - 1;
            out.push(pending[j]);
            assert(out@ =~= bytes::le32(state as int) + pending@.reverse().take(
                pending.len() - j,
            ));
        }
        assert(pending@.reverse().take(pending.len() as int) =~= pending@.reverse());
        out
    }
}

/// Byte-level rANS decoder over a stream from `RansByteEncoder::finish`.
pub struct RansByteDecoder<'a> {
    data: &'a [u8],
    pos: usize,
    state: u32,
}

impl<'a> View for RansByteDecoder<'a> {
    type V = RansState;

    /// The current state and the bytes that were not read yet.
    closed spec fn view(&self) -> RansState {
        RansState { x: self.state as int, rest: self.data@.skip(self.pos as int) }
    }
}

impl<'a> RansByteDecoder<'a> {
    /// The read position lies within the stream.
    #[verifier::type_invariant]
    spec fn wf(self) -> bool {
        self.pos <= self.data@.len()
    }

    /// Creates a decoder; fails exactly on a stream that is too short to hold
    /// the final state.
    pub fn new(data: &'a [u8]) -> (r: Result<Self, ()>)
        ensures
            r is Ok <==> data@.len() >= 4,
            r matches Ok(dec) ==> dec@ == (RansState {
                x: bytes::un_le32(data@, 0),
                rest: data@.skip(4),
            }),
    {
        if data.len() < 4 {
            return Err(());
        }
        let state: u32 = bytes::get_u32(data, 0);
        Ok(Self { data, pos: 4, state })
    }

    /// The scaled position within the distribution that the state carries.
    pub fn cdf(&self) -> (c: u32)
        ensures
            c == state_cdf(self@),
            c < BYTE_SCALE,
    {
        self.state % BYTE_SCALE
    }

    /// Takes the interval `[cum, cum + freq)` off the state, then pulls in bytes
    /// until the state is normalized again.
    pub fn advance(&mut self, freq: u32, cum: u32)
        requires
            freq <= BYTE_SCALE,
            cum <= state_cdf(old(self)@) < cum + freq,
            can_grow(take_off(old(self)@, freq as int, cum as int), old(self)@.rest),
        ensures
            final(self)@ == rans_advance(old(self)@, freq as int, cum as int),
    {
        proof {
            use_type_invariant(&*self);
        }
        let ghost start = self@;
        let cdf: u32 = self.state % BYTE_SCALE;
        let high: u32 = self.state / BYTE_SCALE;
        assert(freq * high <= 4096 * high && freq * high >= 0) by (nonlinear_arith)
            requires
                0 <= freq <= 4096,
                0 <= high,
        ;
        let mut state: u32 = freq * high + (cdf - cum);
        let mut pos: usize = self.pos;
        let data: &'a [u8] = self.data;
        let ghost goal = rans_advance(start, freq as int, cum as int);
        while state < BYTE_L
            invariant
                pos <= data@.len(),
                goal == grow(RansState { x: state as int, rest: data@.skip(pos as int) }),
                can_grow(state as int, data@.skip(pos as int)),
            decreases
                data@.len() - pos,
                if state < BYTE_L {
                    BYTE_L - state
                } else {
                    0
                },
        {
            let ghost rest = data@.skip(pos as int);
            if pos < data.len() {
                let byte: u8 = data[pos];
                assert(rest[0] == byte);
                assert(rest.drop_first() =~= data@.skip(pos + 1));
                proof {
                    if state == 0 && byte == 0 {
                        let i = choose|i: int| 0 <= i < rest.len() && rest[i] != 0;
                        assert(data@.skip(pos + 1)[i - 1] == rest[i]);
                    }
                }
                pos = pos + 1;
                state = state * 256 + byte as u32;
            } else {
                assert(rest.len() == 0);
                state = state * 256;
            }
        }
        *self = RansByteDecoder { data, pos, state };
    }

    /// Decodes one symbol against `probs`, which sums to `BYTE_SCALE`.
    pub fn decode_symbol(&mut self, probs: &[u16; 256]) -> (sym: u8)
        requires
            bytes::sum_to(probs@, 256) == BYTE_SCALE,
            old(self)@.x >= BYTE_L,
        ensures
            bytes::sum_to(probs@, sym as int) <= state_cdf(old(self)@) < bytes::sum_to(
                probs@,
                sym + 1,
            ),
            final(self)@ == rans_advance(
                old(self)@,
                probs[sym as int] as int,
                bytes::sum_to(probs@, sym as int),
            ),
    {
        let c: u32 = self.cdf();
        let (sym, freq, cum) = find_symbol(probs, c);
        proof {
            bytes::lemma_sum_to_mono(probs@, sym + 1, 256);
            bytes::lemma_sum_to_bound(probs@, sym as int);
            let high = self@.x / 4096;
            assert(freq * high > 0) by (nonlinear_arith)
                requires
                    freq >= 1,
                    high >= 1,
            ;
        }
        self.advance(freq, cum);
        sym
    }
}

/// Finds the symbol whose cumulative range `[cum, cum + freq)` contains `cdf`.
/// A distribution that sums to no more than `cdf` gives the last symbol.
pub fn find_symbol(probs: &[u16; 256], cdf: u32) -> (r: (u8, u32, u32))
    ensures
        r.1 == probs[r.0 as int],
        r.2 == bytes::sum_to(probs@, r.0 as int),
        cdf < bytes::sum_to(probs@, 256) ==> r.2 <= cdf < r.2 + r.1,
        cdf >= bytes::sum_to(probs@, 256) ==> r.0 == 255,
{
    let mut running: u32 = 0;
    let mut s: usize = 0;
    while s < 256
        invariant
            s <= 256,
            running == bytes::sum_to(probs@, s as int),
            running <= 65535 * s,
            running <= cdf,
        decreases 256 - s,
    {
        let p: u32 = probs[s] as u32;
        if running + p > cdf {
            proof {
                bytes::lemma_sum_to_mono(probs@, s + 1, 256);
            }
            return (s as u8, p, running);
        }
        running = running + p;
        s = s + 1;
    }
    proof {
        bytes::lemma_sum_to_bound(probs@, 255);
    }
    (255, probs[255] as u32, running - probs[255] as u32)
}

} // verus!
