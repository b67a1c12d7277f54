//! What the payload of a pipeline is made of and how long it is.

use crate::bwt::frames;
use crate::bwt::lzp;
use crate::bwt::mtf;
use crate::bwt::pipeline;
use crate::bwt::pipeline::BwtPipeline;
use crate::bwt::rle;
use crate::bwt::rotation;
use crate::bwt::stages;
use crate::csv_split;
use crate::json_split;
use crate::model::xwrt;
use crate::xml_split;
use vstd::prelude::*;

verus! {

/// How long streams are in their shortest forms, together, up to number `k`.
pub open spec fn short_total(parts: Seq<Seq<u8>>, k: int) -> int
    decreases k,
{
    if k <= 0 {
        0
    } else {
        let d = parts[k - 1];
        let sorted = rle::rle0_coded(mtf::mtf_coded(rotation::bwt_coded(d))).len() as int;
        let filtered = mtf::mtf_coded(rotation::bwt_coded(lzp::lzp_coded(d))).len() as int;
        let least = if sorted <= filtered {
            sorted
        } else {
            filtered
        };
        short_total(parts, k - 1) + if least <= d.len() {
            least
        } else {
            d.len() as int
        }
    }
}

proof fn lemma_bodies(parts: Seq<Seq<u8>>, k: int)
    requires
        0 <= k <= parts.len(),
    ensures
        frames::concat_upto(stages::bodies_of(parts), k).len() == short_total(parts, k),
    decreases k,
{
    reveal(stages::picked);
    if k > 0 {
        lemma_bodies(parts, k - 1);
        assert(stages::bodies_of(parts)[k - 1] == stages::picked(parts[k - 1]).1);
    }
}

/// The plain pipelines: the block itself; sorted, ranked and its runs of zeros counted;
/// or filtered first, then sorted and ranked.
pub proof fn law_plain_pipelines(d: Seq<u8>, dict: Option<Seq<Seq<u8>>>)
    ensures
        pipeline::pipeline_coded(BwtPipeline::RawCm, d, dict) == d,
        pipeline::pipeline_coded(BwtPipeline::BwtMtfRle, d, dict) == rle::rle0_coded(
            mtf::mtf_coded(rotation::bwt_coded(d)),
        ),
        pipeline::pipeline_coded(BwtPipeline::LzpBwtMtf, d, dict) == mtf::mtf_coded(
            rotation::bwt_coded(lzp::lzp_coded(d)),
        ),
{
}

/// Word tokens are sorted, ranked and counted behind eight bytes; a dictionary of the
/// block's own goes along, one that was given does not.
pub proof fn law_word_payload(d: Seq<u8>, g: Seq<Seq<u8>>)
    ensures
        ({
            let own = xwrt::dictionary_of(d);
            pipeline::pipeline_coded(BwtPipeline::XwrtBwtMtfRle, d, Some(g)).len() == 8
                + rle::rle0_coded(mtf::mtf_coded(rotation::bwt_coded(xwrt::xwrt_coded(g, d)))).len()
                && pipeline::pipeline_coded(BwtPipeline::XwrtBwtMtfRle, d, None).len() == 8
                + rle::rle0_coded(mtf::mtf_coded(rotation::bwt_coded(xwrt::xwrt_coded(own, d)))).len()
                + xwrt::dict_bytes(own).len()
        }),
{
}

/// Split JSON is 17 bytes and its four streams, split markup 13 bytes and its three,
/// each stream in the shortest of its forms.
pub proof fn law_split_payloads(d: Seq<u8>, dict: Option<Seq<Seq<u8>>>)
    ensures
        ({
            let j = json_split::json_streams(json_split::json_split_pieces(d));
            let x = xml_split::xml_streams(xml_split::xml_split_pieces(d));
            &&& pipeline::pipeline_coded(BwtPipeline::JsonSplit, d, dict).len() == 17 + short_total(
                seq![j.structural, j.keys, j.string_values, j.numbers],
                4,
            )
            &&& pipeline::pipeline_coded(BwtPipeline::XmlSplit, d, dict).len() == 13 + short_total(
                seq![x.tags, x.attrs, x.text],
                3,
            )
        }),
{
    let j = pipeline::json_parts(pipeline::json_of(d));
    let x = pipeline::xml_parts(pipeline::xml_of(d));
    lemma_bodies(j, 4);
    lemma_bodies(x, 3);
    assert(frames::lens(stages::bodies_of(j).drop_last()).len() == 3);
    assert(frames::lens(stages::bodies_of(x).drop_last()).len() == 2);
}

/// A split table is twelve bytes, two for each row, a quarter and four for each column,
/// and its columns, each in the shortest of its forms.
pub proof fn law_table_payload(d: Seq<u8>, dict: Option<Seq<Seq<u8>>>)
    ensures
        ({
            let v = csv_split::csv_streams(d);
            let n = v.columns.len() as int;
            pipeline::pipeline_coded(BwtPipeline::CsvSplit, d, dict).len() == 12 + 2 * v.fields.len()
                + (n + 3) / 4 + 4 * n + short_total(v.columns, n)
        }),
{
    let v = csv_split::csv_streams(d);
    lemma_bodies(v.columns, v.columns.len() as int);
}

} // verus!
