//! The trial that picks the pipeline with the smallest payload.

use crate::bwt::pipeline;
use crate::bwt::pipeline::BwtPipeline;
use crate::csv_split;
use crate::json_split;
use crate::model::xwrt::XwrtDictionary;
use crate::split_common;
use crate::xml_split;
use vstd::prelude::*;

verus! {

/// Blocks below this length skip the trials unless they are structured.
pub const TRIAL_MIN_LEN: usize = 1048576;

/// Blocks below this length skip the trials.
pub const STRUCTURED_MIN_LEN: usize = 262144;

/// The outcome of a trial.
#[derive(Debug, Clone, Copy, PartialEq, Eq, Structural)]
pub struct BwtPathResult {
    /// The chosen pipeline.
    pub pipeline: BwtPipeline,
    /// The size of its payload.
    pub encoded_size: usize,
    /// Whether the pipeline transforms the block.
    pub is_bwt: bool,
}

/// Whether a block looks like JSON, a table or markup.
pub open spec fn looks_structured(d: Seq<u8>) -> bool {
    json_split::json_like(d) || csv_split::csv_like(d) || xml_split::xml_like(d)
}

/// The structured pipeline that a block looks made for; tables and markup only
/// where the split keeps all of the block.
pub open spec fn structured(d: Seq<u8>) -> Seq<BwtPipeline> {
    if json_split::json_like(d) {
        seq![BwtPipeline::JsonSplit]
    } else if csv_split::csv_like(d) {
        if csv_split::csv_kept(d) {
            seq![BwtPipeline::CsvSplit]
        } else {
            Seq::empty()
        }
    } else if xml_split::xml_like(d) && xml_split::xml_kept(d) {
        seq![BwtPipeline::XmlSplit]
    } else {
        Seq::empty()
    }
}

/// The pipelines that are tried on a block, in this order.
pub open spec fn tried(d: Seq<u8>, dict: Option<Seq<Seq<u8>>>) -> Seq<BwtPipeline> {
    seq![BwtPipeline::RawCm, BwtPipeline::BwtMtfRle, BwtPipeline::LzpBwtMtf] + structured(d) + if dict
        is Some && split_common::all_ascii(d) {
        seq![BwtPipeline::XwrtBwtMtfRle]
    } else {
        Seq::empty()
    }
}

/// Whether a block skips the trials.
pub open spec fn skips_trial(d: Seq<u8>, near_random: bool) -> bool {
    d.len() < STRUCTURED_MIN_LEN || (d.len() < TRIAL_MIN_LEN && !looks_structured(d))
        || near_random
}

/// The candidates of a trial.
pub open spec fn candidates(
    d: Seq<u8>,
    dict: Option<Seq<Seq<u8>>>,
    near_random: bool,
) -> Seq<BwtPipeline> {
    if skips_trial(d, near_random) {
        seq![BwtPipeline::RawCm]
    } else {
        tried(d, dict)
    }
}

/// The payload sizes of pipelines.
pub open spec fn sizes(
    jobs: Seq<BwtPipeline>,
    d: Seq<u8>,
    dict: Option<Seq<Seq<u8>>>,
) -> Seq<int> {
    Seq::new(jobs.len(), |i: int| pipeline::pipeline_coded(jobs[i], d, dict).len() as int)
}

/// The place of the smallest of the first `k` numbers; the first one wins a tie.
pub open spec fn smallest(s: Seq<int>, k: int) -> int
    decreases k,
{
    if k <= 1 {
        0
    } else if s[k - 1] < s[smallest(s, k - 1)] {
        k - 1
    } else {
        smallest(s, k - 1)
    }
}

/// The candidate with the smallest payload; the first one wins a tie.
pub open spec fn trial_choice(
    d: Seq<u8>,
    dict: Option<Seq<Seq<u8>>>,
    near_random: bool,
) -> BwtPipeline {
    let jobs = candidates(d, dict, near_random);
    jobs[smallest(sizes(jobs, d, dict), jobs.len() as int)]
}

/// Whether a block fits every pipeline of a list.
pub open spec fn all_fit(jobs: Seq<BwtPipeline>, d: Seq<u8>, dict: Option<Seq<Seq<u8>>>) -> bool {
    forall|i: int|
        0 <= i < jobs.len() ==> pipeline::pipeline_fits(#[trigger] jobs[i], d, dict)
}

proof fn lemma_smallest(s: Seq<int>, k: int)
    requires
        1 <= k <= s.len(),
    ensures
        0 <= smallest(s, k) < k,
        forall|i: int| 0 <= i < k ==> s[smallest(s, k)] <= #[trigger] s[i],
        forall|i: int| 0 <= i < smallest(s, k) ==> s[smallest(s, k)] < #[trigger] s[i],
    decreases k,
{
    if k > 1 {
        lemma_smallest(s, k - 1);
    }
}

/// No candidate has a smaller payload than the chosen one, and none before it
/// one of the same size; so the payload is never larger than the block.
pub proof fn law_trial_smallest(d: Seq<u8>, dict: Option<Seq<Seq<u8>>>, near_random: bool)
    ensures
        candidates(d, dict, near_random).contains(trial_choice(d, dict, near_random)),
        forall|i: int|
            0 <= i < candidates(d, dict, near_random).len() ==> pipeline::pipeline_coded(
                trial_choice(d, dict, near_random),
                d,
                dict,
            ).len() <= pipeline::pipeline_coded(
                #[trigger] candidates(d, dict, near_random)[i],
                d,
                dict,
            ).len(),
        pipeline::pipeline_coded(trial_choice(d, dict, near_random), d, dict).len() <= d.len(),
{
    let jobs = candidates(d, dict, near_random);
    let s = sizes(jobs, d, dict);
    let k = smallest(s, jobs.len() as int);
    lemma_smallest(s, jobs.len() as int);
    assert(jobs[k] == trial_choice(d, dict, near_random));
    assert(jobs[0] == BwtPipeline::RawCm);
    assert(s[0] == d.len());
    assert forall|i: int| 0 <= i < jobs.len() implies pipeline::pipeline_coded(
        trial_choice(d, dict, near_random),
        d,
        dict,
    ).len() <= pipeline::pipeline_coded(#[trigger] jobs[i], d, dict).len() by {
        assert(s[k] <= s[i]);
    }
}

/// A block that is transformed is not larger than by the two plain transforms, and
/// one below the smallest size of a trial is not transformed.
pub proof fn law_trial_gain(d: Seq<u8>, dict: Option<Seq<Seq<u8>>>, near_random: bool)
    ensures
        d.len() < STRUCTURED_MIN_LEN || near_random ==> trial_choice(d, dict, near_random)
            == BwtPipeline::RawCm,
        trial_choice(d, dict, near_random) != BwtPipeline::RawCm ==> {
            let size = pipeline::pipeline_coded(
                trial_choice(d, dict, near_random),
                d,
                dict,
            ).len();
            &&& size < d.len()
            &&& size <= pipeline::pipeline_coded(BwtPipeline::BwtMtfRle, d, dict).len()
            &&& size <= pipeline::pipeline_coded(BwtPipeline::LzpBwtMtf, d, dict).len()
        },
{
    let jobs = candidates(d, dict, near_random);
    let s = sizes(jobs, d, dict);
    let k = smallest(s, jobs.len() as int);
    lemma_smallest(s, jobs.len() as int);
    assert(jobs[0] == BwtPipeline::RawCm);
    assert(s[0] == d.len());
    if k != 0 {
        assert(s[k] < s[0]);
        assert(jobs[1] == BwtPipeline::BwtMtfRle && jobs[2] == BwtPipeline::LzpBwtMtf);
        assert(s[k] <= s[1] && s[k] <= s[2]);
    }
}

/// A block of a mebibyte or more that is not nearly random is tried, whatever it
/// looks like, and one that looks structured already from 256 KiB on: the chosen
/// payload is at most as long as the block and as that of each plain transform. So
/// the block stays as it is only where neither transform makes it shorter, and one
/// that a transform makes shorter is transformed.
pub proof fn law_long_blocks_are_tried(d: Seq<u8>, dict: Option<Seq<Seq<u8>>>)
    requires
        d.len() >= 0x10_0000 || d.len() >= 0x4_0000 && (json_split::json_like(d)
            || csv_split::csv_like(d) || xml_split::xml_like(d)),
    ensures
        ({
            let choice = trial_choice(d, dict, false);
            let size = pipeline::pipeline_coded(choice, d, dict).len();
            let rle = pipeline::pipeline_coded(BwtPipeline::BwtMtfRle, d, dict).len();
            let lzp = pipeline::pipeline_coded(BwtPipeline::LzpBwtMtf, d, dict).len();
            &&& size <= d.len() && size <= rle && size <= lzp
            &&& choice == BwtPipeline::RawCm ==> d.len() <= rle && d.len() <= lzp
            &&& rle < d.len() || lzp < d.len() ==> choice != BwtPipeline::RawCm && size < d.len()
        }),
{
    let jobs = tried(d, dict);
    assert(candidates(d, dict, false) == jobs);
    assert(jobs[0] == BwtPipeline::RawCm);
    assert(jobs[1] == BwtPipeline::BwtMtfRle && jobs[2] == BwtPipeline::LzpBwtMtf);
    law_trial_smallest(d, dict, false);
    assert(pipeline::pipeline_coded(jobs[1], d, dict).len() >= pipeline::pipeline_coded(
        trial_choice(d, dict, false),
        d,
        dict,
    ).len());
    assert(pipeline::pipeline_coded(jobs[2], d, dict).len() >= pipeline::pipeline_coded(
        trial_choice(d, dict, false),
        d,
        dict,
    ).len());
}

/// What a block looks like is tried too: JSON always, a table or markup where its
/// split gives the block back, the first look in this order alone; and word tokens
/// where there is a dictionary and all of the block is ASCII.
pub proof fn law_special_candidates_are_tried(d: Seq<u8>, dict: Option<Seq<Seq<u8>>>)
    requires
        d.len() >= 0x10_0000 || d.len() >= 0x4_0000 && (json_split::json_like(d)
            || csv_split::csv_like(d) || xml_split::xml_like(d)),
    ensures
        ({
            let size = pipeline::pipeline_coded(trial_choice(d, dict, false), d, dict).len();
            let json = json_split::json_like(d);
            let csv = !json && csv_split::csv_like(d);
            let xml = !json && !csv && xml_split::xml_like(d);
            &&& json ==> size <= pipeline::pipeline_coded(BwtPipeline::JsonSplit, d, dict).len()
            &&& csv && csv_split::csv_kept(d) ==> size <= pipeline::pipeline_coded(
                BwtPipeline::CsvSplit,
                d,
                dict,
            ).len()
            &&& xml && xml_split::xml_kept(d) ==> size <= pipeline::pipeline_coded(
                BwtPipeline::XmlSplit,
                d,
                dict,
            ).len()
            &&& dict is Some && split_common::all_ascii(d) ==> size <= pipeline::pipeline_coded(
                BwtPipeline::XwrtBwtMtfRle,
                d,
                dict,
            ).len()
            &&& trial_choice(d, dict, false) == BwtPipeline::JsonSplit ==> json
            &&& trial_choice(d, dict, false) == BwtPipeline::CsvSplit ==> csv && csv_split::csv_kept(
                d,
            )
            &&& trial_choice(d, dict, false) == BwtPipeline::XmlSplit ==> xml && xml_split::xml_kept(
                d,
            )
            &&& trial_choice(d, dict, false) == BwtPipeline::XwrtBwtMtfRle ==> dict is Some
                && split_common::all_ascii(d)
        }),
{
    let jobs = tried(d, dict);
    assert(candidates(d, dict, false) == jobs);
    law_trial_smallest(d, dict, false);
    let extra = structured(d);
    let plain = seq![BwtPipeline::RawCm, BwtPipeline::BwtMtfRle, BwtPipeline::LzpBwtMtf];
    if extra.len() > 0 {
        assert(jobs[3] == extra[0]);
        assert(pipeline::pipeline_coded(jobs[3], d, dict).len() >= pipeline::pipeline_coded(
            trial_choice(d, dict, false),
            d,
            dict,
        ).len());
    }
    if dict is Some && split_common::all_ascii(d) {
        let k = 3 + extra.len() as int;
        assert(jobs[k] == BwtPipeline::XwrtBwtMtfRle);
        assert(pipeline::pipeline_coded(jobs[k], d, dict).len() >= pipeline::pipeline_coded(
            trial_choice(d, dict, false),
            d,
            dict,
        ).len());
    }
    let c = choose|i: int| 0 <= i < jobs.len() && jobs[i] == trial_choice(d, dict, false);
    assert(0 <= c < jobs.len() && jobs[c] == trial_choice(d, dict, false));
    assert(c < 3 ==> jobs[c] == plain[c]);
    assert(3 <= c < 3 + extra.len() ==> jobs[c] == extra[c - 3]);
    assert(c >= 3 + extra.len() ==> jobs[c] == BwtPipeline::XwrtBwtMtfRle);
}

/// A block that is nearly random, or shorter than 256 KiB, or shorter than a mebibyte
/// without a look of structure, stays as it is.
pub proof fn law_other_blocks_stay(d: Seq<u8>, dict: Option<Seq<Seq<u8>>>, near_random: bool)
    requires
        near_random || d.len() < 0x4_0000 || d.len() < 0x10_0000 && !json_split::json_like(d)
            && !csv_split::csv_like(d) && !xml_split::xml_like(d),
    ensures
        trial_choice(d, dict, near_random) == BwtPipeline::RawCm,
{
}

/// Whether numbers are the payload sizes of pipelines.
pub open spec fn measured(
    out: Seq<usize>,
    jobs: Seq<BwtPipeline>,
    d: Seq<u8>,
    dict: Option<Seq<Seq<u8>>>,
) -> bool {
    &&& out.len() == jobs.len()
    &&& forall|i: int| 0 <= i < jobs.len() ==> #[trigger] out[i] == sizes(jobs, d, dict)[i]
}

/// Runs two lists of size trials with `rayon::join`, which calls both closures,
/// possibly on two threads, and returns both results: here, what `trial_sizes`
/// gives for each list.
#[verifier::external_body]
fn join_sizes(
    left: &[BwtPipeline],
    right: &[BwtPipeline],
    data: &[u8],
    dict: Option<&XwrtDictionary>,
) -> (r: (Vec<usize>, Vec<usize>))
    requires
        all_fit(left@, data@, pipeline::dict_view(dict)),
        all_fit(right@, data@, pipeline::dict_view(dict)),
    ensures
        measured(r.0@, left@, data@, pipeline::dict_view(dict)),
        measured(r.1@, right@, data@, pipeline::dict_view(dict)),
{
    rayon::join(|| trial_sizes(left, data, dict), || trial_sizes(right, data, dict))
}

/// The payload sizes of pipelines, found concurrently.
pub fn trial_sizes(jobs: &[BwtPipeline], data: &[u8], dict: Option<&XwrtDictionary>) -> (out: Vec<
    usize,
>)
    requires
        all_fit(jobs@, data@, pipeline::dict_view(dict)),
    ensures
        measured(out@, jobs@, data@, pipeline::dict_view(dict)),
{
    let ghost d = data@;
    let ghost dv = pipeline::dict_view(dict);
    let n: usize = jobs.len();
    let mut out: Vec<usize> = Vec::new();
    if n == 0 {
        return out;
    }
    if n == 1 {
        assert(pipeline::pipeline_fits(jobs@[0], d, dv));
        out.push(jobs[0].encode(data, dict).len());
        return out;
    }
    let mid: usize = n / 2;
    let left = vstd::slice::slice_subrange(jobs, 0, mid);
    let right = vstd::slice::slice_subrange(jobs, mid, n);
    assert forall|i: int| 0 <= i < right@.len() implies pipeline::pipeline_fits(
        #[trigger] right@[i],
        d,
        dv,
    ) by {
        assert(right@[i] == jobs@[i + mid]);
    }
    let (mut a, mut b) = join_sizes(left, right, data, dict);
    let ghost sa = a@;
    let ghost sb = b@;
    a.append(&mut b);
    assert(a@ =~= sa + sb);
    assert forall|i: int| 0 <= i < n implies #[trigger] a@[i] == sizes(jobs@, d, dv)[i] by {
        if i < mid {
            assert(sa[i] == sizes(left@, d, dv)[i]);
        } else {
            assert(sb[i - mid] == sizes(right@, d, dv)[i - mid]);
        }
    }
    a
}

/// The structured pipeline that a block looks made for, and whether it looks
/// structured at all.
fn structured_jobs(data: &[u8]) -> (r: (Vec<BwtPipeline>, bool))
    ensures
        r.0@ == structured(data@),
        r.1 == looks_structured(data@),
{
    let mut jobs: Vec<BwtPipeline> = Vec::new();
    let mut looks: bool = true;
    if json_split::looks_like_json(data) {
        jobs.push(BwtPipeline::JsonSplit);
    } else if csv_split::looks_like_csv(data) {
        if csv_split::keeps(data) {
            jobs.push(BwtPipeline::CsvSplit);
        }
    } else if xml_split::looks_like_xml(data) {
        if xml_split::keeps(data) {
            jobs.push(BwtPipeline::XmlSplit);
        }
    } else {
        looks = false;
    }
    assert(jobs@ =~= structured(data@));
    (jobs, looks)
}

fn tried_jobs(data: &[u8], structured_job: Vec<BwtPipeline>, with_dict: bool) -> (jobs: Vec<
    BwtPipeline,
>)
    requires
        structured_job@ == structured(data@),
    ensures
        forall|dict: Option<Seq<Seq<u8>>>|
            dict is Some == with_dict ==> jobs@ == #[trigger] tried(data@, dict),
{
    let mut extra = structured_job;
    let mut jobs: Vec<BwtPipeline> = Vec::new();
    jobs.push(BwtPipeline::RawCm);
    jobs.push(BwtPipeline::BwtMtfRle);
    jobs.push(BwtPipeline::LzpBwtMtf);
    jobs.append(&mut extra);
    if with_dict && split_common::is_all_ascii(data) {
        jobs.push(BwtPipeline::XwrtBwtMtfRle);
    }
    assert forall|dict: Option<Seq<Seq<u8>>>| dict is Some == with_dict implies jobs@
        == #[trigger] tried(data@, dict) by {
        assert(jobs@ =~= tried(data@, dict));
    }
    jobs
}

/// Runs the trials on a block and returns the pipeline with the smallest
/// payload. Short blocks, blocks of medium length that do not look structured, and
/// blocks whose bytes are nearly random (`near_random`: more than 7.2 bits of
/// Shannon entropy in a byte) skip the trials and stay as they are.
pub fn compress_text_with_trial(
    data: &[u8],
    global_dict: Option<&XwrtDictionary>,
    near_random: bool,
) -> (r: BwtPathResult)
    requires
        all_fit(
            candidates(data@, pipeline::dict_view(global_dict), near_random),
            data@,
            pipeline::dict_view(global_dict),
        ),
    ensures
        r.pipeline == trial_choice(data@, pipeline::dict_view(global_dict), near_random),
        r.encoded_size == pipeline::pipeline_coded(
            r.pipeline,
            data@,
            pipeline::dict_view(global_dict),
        ).len(),
        r.is_bwt == (r.pipeline != BwtPipeline::RawCm),
{
    let ghost d = data@;
    let ghost dv = pipeline::dict_view(global_dict);
    let plain = BwtPathResult {
        pipeline: BwtPipeline::RawCm,
        encoded_size: data.len(),
        is_bwt: false,
    };
    if data.len() < STRUCTURED_MIN_LEN || near_random {
        return plain;
    }
    let (structured_job, looks) = structured_jobs(data);
    if data.len() < TRIAL_MIN_LEN && !looks {
        return plain;
    }
    let jobs = tried_jobs(data, structured_job, global_dict.is_some());
    assert(jobs@ == candidates(d, dv, near_random));
    let found = trial_sizes(jobs.as_slice(), data, global_dict);
    let ghost s = sizes(jobs@, d, dv);
    let mut best: usize = 0;
    let mut k: usize = 1;
    while k < jobs.len()
        invariant
            1 <= k <= jobs@.len(),
            best < k,
            s == sizes(jobs@, d, dv),
            measured(found@, jobs@, d, dv),
            best == smallest(s, k as int),
        decreases jobs@.len() - k,
    {
        assert(found@[k as int] == s[k as int] && found@[best as int] == s[best as int]);
        if found[k] < found[best] {
            best = k;
        }
        k = k + 1;
    }
    assert(found@[best as int] == s[best as int]);
    let chosen = jobs[best];
    BwtPathResult {
        pipeline: chosen,
        encoded_size: found[best],
        is_bwt: chosen != BwtPipeline::RawCm,
    }
}

} // verus!
