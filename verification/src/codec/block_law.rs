//! A coded block decodes to itself, and encoder and decoder stay in step.

use crate::bwt::pipeline;
use crate::bwt::pipeline::BwtPipeline;
use crate::bwt::trial;
use crate::bytecodec;
use crate::classify::BlockKind;
use crate::codec::bit_block;
use crate::codec::block;
use crate::codec::block::CoderView;
use crate::codec::byte_block;
use crate::codec::method;
use crate::codec::method::CodecMode;
use crate::codec::predictor;
use crate::codec::predictor::Step;
use crate::codec::search;
use crate::codec::side;
use crate::entropy::range;
use crate::entropy::side_fse;
use crate::error::Fault;
use crate::model::assembler;
use crate::model::e8e9;
use crate::wire;
use vstd::prelude::*;

verus! {

/// What a history ends with, it also ends with once more bytes are behind it.
pub proof fn lemma_extended(a: Seq<u8>, b: Seq<u8>, d: Seq<u8>)
    requires
        side::ends_with(a, b),
    ensures
        side::ends_with(search::extended(a, d), search::extended(b, d)),
        search::extended(b, d).len() <= search::MATCH_HIST_CAP,
{
    let cap = search::MATCH_HIST_CAP as int;
    let x = a + d;
    let y = b + d;
    let ex = assembler::last_of(x, cap);
    let ey = assembler::last_of(y, cap);
    assert(x.skip(x.len() - y.len()) =~= y) by {
        let cut = a.len() - b.len();
        assert forall|i: int| 0 <= i < y.len() implies x.skip(cut)[i] == y[i] by {
            if i < b.len() {
                assert(a.skip(cut)[i] == b[i]);
            }
        }
    }
    assert(ex.skip(ex.len() - ey.len()) =~= ey) by {
        let k = x.len() - y.len();
        assert forall|i: int| 0 <= i < ey.len() implies ex.skip(ex.len() - ey.len())[i]
            == ey[i] by {
            let from_end = ey.len() - i;
            assert(x.skip(k)[y.len() - from_end] == y[y.len() - from_end]);
        }
    }
}

/// The entropy-coded form of a block is not longer than the block.
pub proof fn lemma_domain_len(
    mode: CodecMode,
    kind: BlockKind,
    b: Seq<u8>,
    near_random: bool,
    dict: Option<Seq<Seq<u8>>>,
)
    ensures
        block::domain(mode, kind, b, near_random, dict).len() <= b.len(),
{
    e8e9::law_e8e9_round_trip(b);
    trial::law_trial_smallest(b, dict, near_random);
}

/// A text block of moderate size fits every pipeline that is tried on it.
pub proof fn lemma_candidates_fit(b: Seq<u8>, near_random: bool, dict: Option<Seq<Seq<u8>>>)
    requires
        b.len() <= method::MAX_BLOCK,
        block::dict_fits(dict),
    ensures
        trial::all_fit(trial::candidates(b, dict, near_random), b, dict),
{
    let jobs = trial::candidates(b, dict, near_random);
    assert forall|i: int| 0 <= i < jobs.len() implies pipeline::pipeline_fits(
        #[trigger] jobs[i],
        b,
        dict,
    ) by {
        if jobs[i] == BwtPipeline::XwrtBwtMtfRle {
            assert(dict is Some);
        }
        pipeline::lemma_block_fits(jobs[i], b, dict);
    }
}

proof fn lemma_candidate_exact(
    b: Seq<u8>,
    near_random: bool,
    dict: Option<Seq<Seq<u8>>>,
    i: int,
)
    requires
        block::dict_fits(dict),
        0 <= i < trial::candidates(b, dict, near_random).len(),
    ensures
        pipeline::pipeline_exact(trial::candidates(b, dict, near_random)[i], b, dict),
{
}

proof fn lemma_text_undone(
    mode: CodecMode,
    b: Seq<u8>,
    near_random: bool,
    dict: Option<Seq<Seq<u8>>>,
    m: u8,
)
    requires
        b.len() <= method::MAX_BLOCK,
        block::dict_fits(dict),
        mode != CodecMode::Wire,
        m == block::coded_method(
            mode,
            BlockKind::Text,
            block::text_pipeline(b, near_random, dict),
        ),
    ensures
        block::transform_undone(
            m,
            block::domain(mode, BlockKind::Text, b, near_random, dict),
            dict,
        ) == Ok::<Seq<u8>, Fault>(b),
{
    if mode != CodecMode::General {
        let p = block::text_pipeline(b, near_random, dict);
        lemma_candidates_fit(b, near_random, dict);
        trial::law_trial_smallest(b, dict, near_random);
        let jobs = trial::candidates(b, dict, near_random);
        let i = choose|i: int| 0 <= i < jobs.len() && jobs[i] == p;
        assert(pipeline::pipeline_fits(jobs[i], b, dict));
        lemma_candidate_exact(b, near_random, dict, i);
        pipeline::law_pipeline_round_trip(p, b, dict);
        match p {
            BwtPipeline::RawCm => {},
            BwtPipeline::BwtMtfRle => {},
            BwtPipeline::LzpBwtMtf => {},
            BwtPipeline::JsonSplit => {},
            BwtPipeline::XwrtBwtMtfRle => {},
            BwtPipeline::CsvSplit => {},
            BwtPipeline::XmlSplit => {},
        }
    }
}

proof fn lemma_undone(
    mode: CodecMode,
    kind: BlockKind,
    b: Seq<u8>,
    near_random: bool,
    dict: Option<Seq<Seq<u8>>>,
    m: u8,
)
    requires
        b.len() <= method::MAX_BLOCK,
        block::dict_fits(dict),
        mode != CodecMode::Wire,
        kind != BlockKind::Random,
        m == block::coded_method(mode, kind, block::text_pipeline(b, near_random, dict)),
    ensures
        block::transform_undone(m, block::domain(mode, kind, b, near_random, dict), dict) == Ok::<
            Seq<u8>,
            Fault,
        >(b),
{
    e8e9::law_e8e9_round_trip(b);
    if kind == BlockKind::Text {
        lemma_text_undone(mode, b, near_random, dict, m);
    }
}

/// The history that the decoder of a byte-level block uses.
spec fn fast_hist(st: CoderView, m: u8) -> Seq<u8> {
    if m == method::METHOD_BYTE_CM || m == method::METHOD_BYTE_EXEC_E8E9 {
        st.hist
    } else {
        Seq::empty()
    }
}

/// What the decoder keeps behind a byte-level block.
spec fn fast_after(st: CoderView, m: u8, d: Seq<u8>) -> CoderView {
    if m == method::METHOD_BYTE_CM {
        block::kept_behind(st, BlockKind::Binary, d)
    } else if m == method::METHOD_BYTE_EXEC_E8E9 {
        block::kept_behind(st, BlockKind::Exec, d)
    } else {
        block::forgotten(st)
    }
}

proof fn lemma_fast_decoded<S>(
    m: u8,
    comp: Seq<u8>,
    n: int,
    dict: Option<Seq<Seq<u8>>>,
    dec: CoderView,
    f: spec_fn(S, Step) -> (S, u16),
    s: S,
    d: Seq<u8>,
    b: Seq<u8>,
)
    requires
        block::is_byte_method(m),
        byte_block::byte_decoded(comp, n, fast_hist(dec, m)) == Ok::<Seq<u8>, Fault>(d),
        block::transform_undone(m, d, dict) == Ok::<Seq<u8>, Fault>(b),
    ensures
        block::block_decoded(m, comp, n, dict, dec, f, s) == Ok::<
            (Seq<u8>, CoderView, S),
            Fault,
        >((b, fast_after(dec, m, d), s)),
{
    reveal(block::block_decoded);
}

proof fn lemma_fast_in_step(
    mode: CodecMode,
    kind: BlockKind,
    m: u8,
    enc: CoderView,
    dec: CoderView,
    d: Seq<u8>,
)
    requires
        block::in_step(mode, enc, dec),
        !method::is_slow(mode, kind),
        kind != BlockKind::Random,
        kind == BlockKind::Binary ==> m == method::METHOD_BYTE_CM,
        kind == BlockKind::Exec ==> m == method::METHOD_BYTE_EXEC_E8E9,
    ensures
        side::ends_with(fast_hist(dec, m), block::usable_hist(enc, kind)),
        kind != BlockKind::Text ==> block::in_step(
            mode,
            CoderView {
                hist: search::extended(block::usable_hist(enc, kind), d),
                hist_kind: Some(kind),
                stack_kind: enc.stack_kind,
            },
            fast_after(dec, m, d),
        ),
        kind == BlockKind::Text ==> block::in_step(
            mode,
            CoderView { hist: Seq::empty(), hist_kind: None, stack_kind: enc.stack_kind },
            fast_after(dec, m, d),
        ),
{
    let none = Seq::<u8>::empty();
    let used = fast_hist(dec, m);
    let h = block::usable_hist(enc, kind);
    if h.len() == 0 {
        assert(h =~= none);
    }
    assert(used.skip(used.len() as int) =~= none);
    let after = fast_after(dec, m, d).hist;
    assert(after.skip(after.len() as int) =~= none);
    if kind != BlockKind::Text {
        let base = if dec.hist_kind == Some(kind) {
            dec.hist
        } else {
            none
        };
        assert(base.skip(base.len() as int) =~= none);
        lemma_extended(base, h, d);
    }
}

proof fn lemma_fast_method(mode: CodecMode, kind: BlockKind, p: BwtPipeline)
    requires
        !method::is_slow(mode, kind),
        kind != BlockKind::Random,
    ensures
        ({
            let m = block::coded_method(mode, kind, p);
            &&& block::is_byte_method(m)
            &&& kind == BlockKind::Binary ==> m == method::METHOD_BYTE_CM
            &&& kind == BlockKind::Exec ==> m == method::METHOD_BYTE_EXEC_E8E9
        }),
{
}

proof fn lemma_fast_step<S>(
    mode: CodecMode,
    kind: BlockKind,
    b: Seq<u8>,
    near_random: bool,
    dict: Option<Seq<Seq<u8>>>,
    enc: CoderView,
    dec: CoderView,
    f: spec_fn(S, Step) -> (S, u16),
    s: S,
)
    requires
        block::in_step(mode, enc, dec),
        block::sized(enc, b),
        block::dict_fits(dict),
        mode != CodecMode::Wire,
        kind != BlockKind::Random,
        !method::is_slow(mode, kind),
    ensures
        ({
            let c = block::block_coded(mode, kind, b, near_random, dict, enc, f, s);
            block::block_decoded(c.method, c.payload, c.len, dict, dec, f, s) matches Ok((got, after, t))
                && got == b && t == block::predictor_after(
                mode,
                kind,
                b,
                near_random,
                dict,
                enc,
                f,
                s,
            ) && block::in_step(
                mode,
                block::coder_after(mode, kind, b, near_random, dict, enc),
                after,
            )
        }),
{
    reveal(block::block_coded);
    reveal(block::predictor_after);
    reveal(block::coder_after);
    let d = block::domain(mode, kind, b, near_random, dict);
    let h = block::usable_hist(enc, kind);
    let m = block::coded_method(mode, kind, block::text_pipeline(b, near_random, dict));
    let comp = byte_block::byte_coded(h, d, kind);
    lemma_domain_len(mode, kind, b, near_random, dict);
    byte_block::lemma_matches_fit(h, d, kind);
    lemma_undone(mode, kind, b, near_random, dict, m);
    lemma_fast_method(mode, kind, block::text_pipeline(b, near_random, dict));
    lemma_fast_in_step(mode, kind, m, enc, dec, d);
    byte_block::law_byte_round_trip(h, fast_hist(dec, m), d, kind);
    lemma_fast_decoded(m, comp, d.len() as int, dict, dec, f, s, d, b);
}

/// What the decoder keeps behind a bit-level block.
spec fn slow_after(st: CoderView, kind: BlockKind, d: Seq<u8>) -> CoderView {
    let now = block::rebuilt_for(st, kind);
    if kind == BlockKind::Binary || kind == BlockKind::Exec {
        CoderView {
            hist: search::extended(now.hist, d),
            hist_kind: now.hist_kind,
            stack_kind: now.stack_kind,
        }
    } else {
        block::forgotten(now)
    }
}

proof fn lemma_slow_decoded<S>(
    m: u8,
    kind: BlockKind,
    comp: Seq<u8>,
    n: int,
    dict: Option<Seq<Seq<u8>>>,
    dec: CoderView,
    f: spec_fn(S, Step) -> (S, u16),
    s: S,
    t: S,
    d: Seq<u8>,
    b: Seq<u8>,
)
    requires
        m != method::METHOD_COPY,
        m != method::METHOD_WIRE,
        !block::is_byte_method(m),
        method::method_kind(m) == Ok::<BlockKind, Fault>(kind),
        bit_block::bit_decoded(
            f,
            predictor::rebuilt(f, s, dec.stack_kind, kind),
            comp,
            n,
            block::bit_hist(dec, kind),
        ) == Ok::<(Seq<u8>, S), Fault>((d, t)),
        block::transform_undone(m, d, dict) == Ok::<Seq<u8>, Fault>(b),
    ensures
        block::block_decoded(m, comp, n, dict, dec, f, s) == Ok::<
            (Seq<u8>, CoderView, S),
            Fault,
        >((b, slow_after(dec, kind, d), predictor::faded(f, t))),
{
    reveal(block::block_decoded);
}

proof fn lemma_slow_in_step(
    mode: CodecMode,
    kind: BlockKind,
    enc: CoderView,
    dec: CoderView,
    d: Seq<u8>,
)
    requires
        block::in_step(mode, enc, dec),
        method::is_slow(mode, kind),
        kind != BlockKind::Random,
    ensures
        side::ends_with(block::bit_hist(dec, kind), block::usable_hist(enc, kind)),
        kind != BlockKind::Text ==> block::in_step(
            mode,
            CoderView {
                hist: search::extended(block::usable_hist(enc, kind), d),
                hist_kind: Some(kind),
                stack_kind: Some(kind),
            },
            slow_after(dec, kind, d),
        ),
        kind == BlockKind::Text ==> block::in_step(
            mode,
            CoderView { hist: Seq::empty(), hist_kind: None, stack_kind: Some(kind) },
            slow_after(dec, kind, d),
        ),
{
    let none = Seq::<u8>::empty();
    assert(none.skip(0) =~= none);
    let used = block::bit_hist(dec, kind);
    assert(used.skip(used.len() as int) =~= none);
    let h = block::usable_hist(enc, kind);
    if h.len() == 0 {
        assert(h =~= none);
    }
    lemma_extended(used, block::usable_hist(enc, kind), d);
}

proof fn lemma_slow_method(mode: CodecMode, kind: BlockKind, p: BwtPipeline)
    requires
        method::is_slow(mode, kind),
        kind != BlockKind::Random,
    ensures
        ({
            let m = block::coded_method(mode, kind, p);
            &&& m != method::METHOD_COPY
            &&& m != method::METHOD_WIRE
            &&& !block::is_byte_method(m)
            &&& method::method_kind(m) == Ok::<BlockKind, Fault>(kind)
        }),
{
}

proof fn lemma_slow_step<S>(
    mode: CodecMode,
    kind: BlockKind,
    b: Seq<u8>,
    near_random: bool,
    dict: Option<Seq<Seq<u8>>>,
    enc: CoderView,
    dec: CoderView,
    f: spec_fn(S, Step) -> (S, u16),
    s: S,
)
    requires
        block::in_step(mode, enc, dec),
        block::sized(enc, b),
        block::dict_fits(dict),
        kind != BlockKind::Random,
        method::is_slow(mode, kind),
    ensures
        ({
            let c = block::block_coded(mode, kind, b, near_random, dict, enc, f, s);
            block::block_decoded(c.method, c.payload, c.len, dict, dec, f, s) matches Ok((got, after, t))
                && got == b && t == block::predictor_after(
                mode,
                kind,
                b,
                near_random,
                dict,
                enc,
                f,
                s,
            ) && block::in_step(
                mode,
                block::coder_after(mode, kind, b, near_random, dict, enc),
                after,
            )
        }),
{
    reveal(block::block_coded);
    reveal(block::coder_after);
    reveal(block::predictor_after);
    let d = block::domain(mode, kind, b, near_random, dict);
    let h = block::usable_hist(enc, kind);
    let m = block::coded_method(mode, kind, block::text_pipeline(b, near_random, dict));
    let front = predictor::rebuilt(f, s, enc.stack_kind, kind);
    let comp = bit_block::slow_coded(f, front, h, d, kind);
    lemma_domain_len(mode, kind, b, near_random, dict);
    byte_block::lemma_matches_fit(h, d, kind);
    lemma_undone(mode, kind, b, near_random, dict, m);
    lemma_slow_method(mode, kind, block::text_pipeline(b, near_random, dict));
    lemma_slow_in_step(mode, kind, enc, dec, d);
    bit_block::law_slow_round_trip(f, front, h, block::bit_hist(dec, kind), d, kind);
    let t = bit_block::slow_told(f, front, h, d, kind);
    lemma_slow_decoded(m, kind, comp, d.len() as int, dict, dec, f, s, t, d, b);
}

/// A coded block decodes to itself, and encoder and decoder stay in step.
pub proof fn law_block_step<S>(
    mode: CodecMode,
    kind: BlockKind,
    b: Seq<u8>,
    near_random: bool,
    dict: Option<Seq<Seq<u8>>>,
    enc: CoderView,
    dec: CoderView,
    f: spec_fn(S, Step) -> (S, u16),
    s: S,
)
    requires
        block::in_step(mode, enc, dec),
        block::sized(enc, b),
        block::dict_fits(dict),
    ensures
        ({
            let c = block::block_coded(mode, kind, b, near_random, dict, enc, f, s);
            block::block_decoded(c.method, c.payload, c.len, dict, dec, f, s) matches Ok((got, after, t))
                && got == b && t == block::predictor_after(
                mode,
                kind,
                b,
                near_random,
                dict,
                enc,
                f,
                s,
            ) && block::in_step(
                mode,
                block::coder_after(mode, kind, b, near_random, dict, enc),
                after,
            )
        }),
{
    reveal(block::block_coded);
    reveal(block::predictor_after);
    reveal(block::coder_after);
    reveal(block::block_decoded);
    if mode == CodecMode::Wire {
        wire::lemma_lz_len(b);
        wire::law_wire_round_trip(b);
        let none = Seq::<u8>::empty();
        assert(none.skip(0) =~= none);
    } else if kind == BlockKind::Random {
        let none = Seq::<u8>::empty();
        assert(none.skip(0) =~= none);
    } else if method::is_slow(mode, kind) {
        lemma_slow_step(mode, kind, b, near_random, dict, enc, dec, f, s);
    } else {
        lemma_fast_step(mode, kind, b, near_random, dict, enc, dec, f, s);
    }
}

/// What is kept behind a block keeps to its cap, and the numbers of a block's
/// entry fit.
pub proof fn lemma_coded_sizes<S>(
    mode: CodecMode,
    kind: BlockKind,
    b: Seq<u8>,
    near_random: bool,
    dict: Option<Seq<Seq<u8>>>,
    st: CoderView,
    f: spec_fn(S, Step) -> (S, u16),
    s: S,
)
    requires
        block::sized(st, b),
    ensures
        block::coder_after(mode, kind, b, near_random, dict, st).hist.len()
            <= search::MATCH_HIST_CAP,
        0 <= block::block_coded(mode, kind, b, near_random, dict, st, f, s).len <= b.len(),
{
    reveal(block::block_coded);
    reveal(block::coder_after);
    lemma_domain_len(mode, kind, b, near_random, dict);
    let h = block::usable_hist(st, kind);
    assert(h.skip(0) =~= h);
    lemma_extended(h, h, block::domain(mode, kind, b, near_random, dict));
}

proof fn lemma_side_len(h: Seq<u8>, d: Seq<u8>, kind: BlockKind)
    requires
        h.len() <= search::MATCH_HIST_CAP,
        d.len() <= method::MAX_BLOCK,
    ensures
        side::side_frame(search::scanned(h, d, kind)).len() <= 18 * d.len() + 9,
        side::literals(d, search::scanned(h, d, kind), 0).len() <= d.len(),
{
    let runs = search::scanned(h, d, kind);
    search::law_scanned_fit(h, d, kind);
    side::lemma_fit_writable(h, d, runs, 0, 0);
    side::lemma_records_len(runs, 0);
    side_fse::law_packed_not_larger(side::records(runs, 0));
    side::lemma_literal_count(d, runs, 0);
    side::lemma_literal_bound(d.len() as int, runs, 0);
}

/// The payload of a block has a length that fits its entry.
pub proof fn lemma_payload_len<S>(
    mode: CodecMode,
    kind: BlockKind,
    b: Seq<u8>,
    near_random: bool,
    dict: Option<Seq<Seq<u8>>>,
    st: CoderView,
    f: spec_fn(S, Step) -> (S, u16),
    s: S,
)
    requires
        block::sized(st, b),
    ensures
        block::block_coded(mode, kind, b, near_random, dict, st, f, s).payload.len() <= 200000000,
{
    reveal(block::block_coded);
    if mode != CodecMode::Wire && kind != BlockKind::Random {
        let d = block::domain(mode, kind, b, near_random, dict);
        let h = block::usable_hist(st, kind);
        let lits = side::literals(d, search::scanned(h, d, kind), 0);
        lemma_domain_len(mode, kind, b, near_random, dict);
        lemma_side_len(h, d, kind);
        bytecodec::lemma_block_stream_len(lits);
        let front = predictor::rebuilt(f, s, st.stack_kind, kind);
        let ps = bit_block::body_given(f, front, d, search::scanned(h, d, kind));
        range::lemma_bits_stream_len(bit_block::coded_bits(lits, ps));
    }
}

} // verus!
