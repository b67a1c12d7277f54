//! The pipelines that turn a text block into a payload and back, and the trial
//! that picks the smallest one.

use crate::bwt::lzp;
use crate::bwt::marked;
use crate::bwt::mtf;
use crate::bwt::rle;
use crate::bwt::rotation;
use crate::bwt::stages;
use crate::bwt::table;
use crate::bytes;
use crate::csv_split;
use crate::error;
use crate::error::{Fault, RcnError};
use crate::json_split;
use crate::json_split::{JsonStreams, JsonView};
use crate::model::xwrt;
use crate::model::xwrt::XwrtDictionary;
use crate::split_common;
use crate::xml_split;
use crate::xml_split::{XmlStreams, XmlView};
use vstd::prelude::*;

verus! {

/// Which pipeline was chosen for a block.
#[derive(Debug, Clone, Copy, PartialEq, Eq, Structural)]
pub enum BwtPipeline {
    /// No transform.
    RawCm,
    /// Transform, move-to-front, zero-run coding.
    BwtMtfRle,
    /// LZP filter, transform, move-to-front.
    LzpBwtMtf,
    /// JSON split into four streams, each in its smallest form.
    JsonSplit,
    /// Word dictionary, then transform, move-to-front, zero-run coding.
    XwrtBwtMtfRle,
    /// CSV split into columns, each in its smallest form.
    CsvSplit,
    /// XML split into three streams, each in its smallest form.
    XmlSplit,
}

/// The streams of a JSON block in payload order.
pub open spec fn json_parts(v: JsonView) -> Seq<Seq<u8>> {
    seq![v.structural, v.keys, v.string_values, v.numbers]
}

/// The streams of an XML block in payload order.
pub open spec fn xml_parts(v: XmlView) -> Seq<Seq<u8>> {
    seq![v.tags, v.attrs, v.text]
}

/// The JSON streams of a block.
pub open spec fn json_of(d: Seq<u8>) -> JsonView {
    json_split::json_streams(json_split::json_split_pieces(d))
}

/// The XML streams of a block.
pub open spec fn xml_of(d: Seq<u8>) -> XmlView {
    xml_split::xml_streams(xml_split::xml_split_pieces(d))
}

/// The payload of streams, each in its smallest form, with their selectors in
/// one byte.
pub open spec fn parts_packed(n: int, parts: Seq<Seq<u8>>) -> Seq<u8> {
    marked::streams_packed(
        n,
        stages::selector_byte(stages::pipes_of(parts), 0),
        stages::bodies_of(parts),
    )
}

/// The streams from number `i` on, each from its smallest form; `acc` holds
/// those before it.
pub open spec fn parts_decoded(
    parts: Seq<Seq<u8>>,
    selector: u8,
    i: int,
    acc: Seq<Seq<u8>>,
) -> Result<Seq<Seq<u8>>, Fault>
    decreases parts.len() - i,
{
    if i >= parts.len() {
        Ok(acc)
    } else {
        match stages::picked_plain(parts[i], stages::two_bits(selector, i)) {
            Ok(s) => parts_decoded(parts, selector, i + 1, acc.push(s)),
            Err(e) => Err(e),
        }
    }
}

/// Original length and streams of a payload of `n` streams.
pub open spec fn parts_unpacked(p: Seq<u8>, n: int) -> Result<(int, Seq<Seq<u8>>), Fault> {
    match marked::streams_unpacked(p, n) {
        Ok((len, selector, parts)) => match parts_decoded(parts, selector, 0, Seq::empty()) {
            Ok(s) => Ok((len, s)),
            Err(e) => Err(e),
        },
        Err(e) => Err(e),
    }
}

/// The dictionary that codes a block: the given one, or the block's own.
pub open spec fn used_dict(d: Seq<u8>, dict: Option<Seq<Seq<u8>>>) -> Seq<Seq<u8>> {
    match dict {
        Some(g) => g,
        None => xwrt::dictionary_of(d),
    }
}

/// The payload of a block that a word dictionary codes: a dictionary of the
/// block's own goes with it.
pub open spec fn words_packed(d: Seq<u8>, dict: Option<Seq<Seq<u8>>>) -> Seq<u8> {
    let body = stages::bwt_mtf_rle_coded(xwrt::xwrt_coded(used_dict(d, dict), d));
    bytes::le32(d.len() as int) + bytes::le32(body.len() as int) + body + match dict {
        Some(_) => Seq::empty(),
        None => xwrt::dict_bytes(xwrt::dictionary_of(d)),
    }
}

/// What a payload of word tokens stands for; an embedded dictionary that cannot
/// be parsed is an error.
pub open spec fn words_unpacked(p: Seq<u8>, dict: Option<Seq<Seq<u8>>>) -> Result<Seq<u8>, Fault> {
    let len = bytes::un_le32(p, 4);
    if p.len() < 8 {
        Err(Fault::CorruptBlock("xwrt payload truncated"@))
    } else if p.len() < 8 + len {
        Err(Fault::CorruptBlock("xwrt encoded body overruns payload"@))
    } else {
        match stages::rle_path_plain(p.subrange(8, 8 + len)) {
            Ok(tokens) => match dict {
                Some(g) => Ok(xwrt::xwrt_plain(g, tokens)),
                None => match xwrt::parsed_dict(p.skip(8 + len)) {
                    Some(own) => Ok(xwrt::xwrt_plain(own, tokens)),
                    None => Err(Fault::CorruptBlock("xwrt dictionary is corrupt"@)),
                },
            },
            Err(e) => Err(e),
        }
    }
}

/// The payload of a block.
pub open spec fn pipeline_coded(
    p: BwtPipeline,
    d: Seq<u8>,
    dict: Option<Seq<Seq<u8>>>,
) -> Seq<u8> {
    match p {
        BwtPipeline::RawCm => d,
        BwtPipeline::BwtMtfRle => stages::bwt_mtf_rle_coded(d),
        BwtPipeline::LzpBwtMtf => stages::lzp_path_coded(d),
        BwtPipeline::JsonSplit => parts_packed(d.len() as int, json_parts(json_of(d))),
        BwtPipeline::CsvSplit => table::table_packed(d.len() as int, csv_split::csv_streams(d)),
        BwtPipeline::XmlSplit => parts_packed(d.len() as int, xml_parts(xml_of(d))),
        BwtPipeline::XwrtBwtMtfRle => words_packed(d, dict),
    }
}

/// What a payload stands for.
pub open spec fn pipeline_decoded(
    p: BwtPipeline,
    s: Seq<u8>,
    dict: Option<Seq<Seq<u8>>>,
) -> Result<Seq<u8>, Fault> {
    match p {
        BwtPipeline::RawCm => Ok(s),
        BwtPipeline::BwtMtfRle => stages::rle_path_plain(s),
        BwtPipeline::LzpBwtMtf => stages::lzp_path_plain(s),
        BwtPipeline::JsonSplit => match parts_unpacked(s, 4) {
            Ok((n, t)) => json_split::json_merged(
                JsonView { structural: t[0], keys: t[1], string_values: t[2], numbers: t[3] },
                n,
            ),
            Err(e) => Err(e),
        },
        BwtPipeline::CsvSplit => match table::table_unpacked(s) {
            Ok(v) => csv_split::csv_joined(v),
            Err(e) => Err(e),
        },
        BwtPipeline::XmlSplit => match parts_unpacked(s, 3) {
            Ok((n, t)) => xml_split::xml_joined(
                XmlView { tags: t[0], attrs: t[1], text: t[2] },
                n,
            ),
            Err(e) => Err(e),
        },
        BwtPipeline::XwrtBwtMtfRle => words_unpacked(s, dict),
    }
}

/// Whether a word dictionary can code text.
pub open spec fn dict_usable(dict: Option<Seq<Seq<u8>>>) -> bool {
    match dict {
        Some(g) => xwrt::no_endless_word(g) && g.len() <= 65536,
        None => true,
    }
}

/// Whether a block fits the counters and suffix arrays of a pipeline.
pub open spec fn pipeline_fits(p: BwtPipeline, d: Seq<u8>, dict: Option<Seq<Seq<u8>>>) -> bool {
    match p {
        BwtPipeline::RawCm => true,
        BwtPipeline::BwtMtfRle => stages::sortable(d),
        BwtPipeline::LzpBwtMtf => d.len() <= i32::MAX && stages::sortable(lzp::lzp_coded(d)),
        BwtPipeline::JsonSplit => d.len() <= u32::MAX && stages::streams_fit(
            json_parts(json_of(d)),
        ),
        BwtPipeline::CsvSplit => d.len() <= u32::MAX && stages::streams_fit(
            csv_split::csv_streams(d).columns,
        ),
        BwtPipeline::XmlSplit => d.len() <= u32::MAX && stages::streams_fit(xml_parts(xml_of(d))),
        BwtPipeline::XwrtBwtMtfRle => d.len() <= u32::MAX && stages::sortable(
            xwrt::xwrt_coded(used_dict(d, dict), d),
        ) && dict_usable(dict),
    }
}

/// Whether a pipeline keeps all of a block: tables and markup come back from
/// their streams, word tokens stand for ASCII text and their dictionary fits its
/// tokens.
pub open spec fn pipeline_exact(p: BwtPipeline, d: Seq<u8>, dict: Option<Seq<Seq<u8>>>) -> bool {
    match p {
        BwtPipeline::CsvSplit => csv_split::csv_kept(d),
        BwtPipeline::XmlSplit => xml_split::xml_kept(d),
        BwtPipeline::XwrtBwtMtfRle => split_common::all_ascii(d) && match dict {
            Some(g) => g.len() <= xwrt::MAX_XWRT_WORDS,
            None => true,
        },
        _ => true,
    }
}

proof fn lemma_parts_decoded(parts: Seq<Seq<u8>>, i: int)
    requires
        stages::streams_fit(parts),
        parts.len() <= 4,
        0 <= i <= parts.len(),
    ensures
        parts_decoded(
            stages::bodies_of(parts),
            stages::selector_byte(stages::pipes_of(parts), 0),
            i,
            parts.take(i),
        ) == Ok::<Seq<Seq<u8>>, Fault>(parts),
    decreases parts.len() - i,
{
    if i < parts.len() {
        let pipes = stages::pipes_of(parts);
        assert(stages::stream_fits(parts[i]));
        stages::law_pick_round_trip(parts[i]);
        stages::law_selector_round_trip(pipes, i);
        assert(stages::selectors_packed(pipes)[0] == stages::selector_byte(pipes, 0));
        assert(parts.take(i).push(parts[i]) =~= parts.take(i + 1));
        lemma_parts_decoded(parts, i + 1);
    } else {
        assert(parts.take(i) =~= parts);
    }
}

/// Streams come back from their payload.
pub proof fn law_parts_round_trip(n: int, parts: Seq<Seq<u8>>)
    requires
        0 <= n <= u32::MAX,
        0 < parts.len() <= 4,
        stages::streams_fit(parts),
    ensures
        parts_unpacked(parts_packed(n, parts), parts.len() as int) == Ok::<
            (int, Seq<Seq<u8>>),
            Fault,
        >((n, parts)),
{
    let bodies = stages::bodies_of(parts);
    assert forall|i: int| 0 <= i < bodies.len() implies (#[trigger] bodies[i]).len()
        <= u32::MAX by {
        assert(stages::stream_fits(parts[i]));
        stages::law_pick_round_trip(parts[i]);
    }
    marked::law_streams_round_trip(
        n,
        stages::selector_byte(stages::pipes_of(parts), 0),
        bodies,
    );
    lemma_parts_decoded(parts, 0);
    assert(parts.take(0) =~= Seq::<Seq<u8>>::empty());
}

/// Text comes back from its word tokens.
pub proof fn law_words_round_trip(d: Seq<u8>, dict: Option<Seq<Seq<u8>>>)
    requires
        pipeline_fits(BwtPipeline::XwrtBwtMtfRle, d, dict),
        pipeline_exact(BwtPipeline::XwrtBwtMtfRle, d, dict),
    ensures
        words_unpacked(words_packed(d, dict), dict) == Ok::<Seq<u8>, Fault>(d),
{
    let used = used_dict(d, dict);
    let tokens = xwrt::xwrt_coded(used, d);
    let body = stages::bwt_mtf_rle_coded(tokens);
    let tail = match dict {
        Some(_) => Seq::empty(),
        None => xwrt::dict_bytes(xwrt::dictionary_of(d)),
    };
    let p = words_packed(d, dict);
    lemma_rle_path_len(tokens);
    assert(p.subrange(4, 8) =~= bytes::le32(body.len() as int));
    bytes::lemma_un_le32(p, 4, body.len() as int);
    assert(p.subrange(8, 8 + body.len() as int) =~= body);
    assert(p.skip(8 + body.len() as int) =~= tail);
    stages::law_bwt_mtf_rle_round_trip(tokens);
    if dict is None {
        xwrt::lemma_ascii_dictionary(d);
        xwrt::law_dict_round_trip(used);
    }
    xwrt::law_xwrt_round_trip(used, d);
}

/// Transform, move-to-front and zero-run coding at most double a stream and add
/// eight bytes.
pub proof fn lemma_rle_path_len(d: Seq<u8>)
    requires
        d.len() <= u32::MAX,
    ensures
        stages::bwt_mtf_rle_coded(d).len() <= 2 * d.len() + 8,
{
    rotation::lemma_bwt_len(d);
    mtf::law_mtf_round_trip(rotation::bwt_coded(d));
    rle::lemma_rle0_len(mtf::mtf_coded(rotation::bwt_coded(d)));
}

proof fn lemma_json_parts(n: int, v: JsonView)
    requires
        0 <= n <= u32::MAX,
        stages::streams_fit(json_parts(v)),
    ensures
        pipeline_decoded(BwtPipeline::JsonSplit, parts_packed(n, json_parts(v)), None)
            == json_split::json_merged(v, n),
{
    let parts = json_parts(v);
    law_parts_round_trip(n, parts);
    assert((JsonView {
        structural: parts[0],
        keys: parts[1],
        string_values: parts[2],
        numbers: parts[3],
    }) == v);
}

proof fn lemma_json_path(d: Seq<u8>)
    requires
        d.len() <= u32::MAX,
        stages::streams_fit(json_parts(json_of(d))),
    ensures
        pipeline_decoded(
            BwtPipeline::JsonSplit,
            parts_packed(d.len() as int, json_parts(json_of(d))),
            None,
        ) == Ok::<Seq<u8>, Fault>(d),
{
    lemma_json_parts(d.len() as int, json_of(d));
    json_split::law_json_round_trip(d);
}

proof fn lemma_xml_parts(n: int, v: XmlView)
    requires
        0 <= n <= u32::MAX,
        stages::streams_fit(xml_parts(v)),
    ensures
        pipeline_decoded(BwtPipeline::XmlSplit, parts_packed(n, xml_parts(v)), None)
            == xml_split::xml_joined(v, n),
{
    let parts = xml_parts(v);
    law_parts_round_trip(n, parts);
    assert((XmlView { tags: parts[0], attrs: parts[1], text: parts[2] }) == v);
}

proof fn lemma_xml_path(d: Seq<u8>)
    requires
        d.len() <= u32::MAX,
        stages::streams_fit(xml_parts(xml_of(d))),
        xml_split::xml_kept(d),
    ensures
        pipeline_decoded(
            BwtPipeline::XmlSplit,
            parts_packed(d.len() as int, xml_parts(xml_of(d))),
            None,
        ) == Ok::<Seq<u8>, Fault>(d),
{
    lemma_xml_parts(d.len() as int, xml_of(d));
}

proof fn lemma_csv_path(d: Seq<u8>)
    requires
        d.len() <= u32::MAX,
        stages::streams_fit(csv_split::csv_streams(d).columns),
        csv_split::csv_kept(d),
    ensures
        pipeline_decoded(
            BwtPipeline::CsvSplit,
            table::table_packed(d.len() as int, csv_split::csv_streams(d)),
            None,
        ) == Ok::<Seq<u8>, Fault>(d),
{
    csv_split::lemma_csv_sizes(d);
    table::law_table_round_trip(d.len() as int, csv_split::csv_streams(d));
}

/// Decoding the payload of a block gives the block back, with every pipeline.
pub proof fn law_pipeline_round_trip(p: BwtPipeline, d: Seq<u8>, dict: Option<Seq<Seq<u8>>>)
    requires
        pipeline_fits(p, d, dict),
        pipeline_exact(p, d, dict),
    ensures
        pipeline_decoded(p, pipeline_coded(p, d, dict), dict) == Ok::<Seq<u8>, Fault>(d),
{
    match p {
        BwtPipeline::RawCm => {},
        BwtPipeline::BwtMtfRle => {
            stages::law_bwt_mtf_rle_round_trip(d);
        },
        BwtPipeline::LzpBwtMtf => {
            stages::law_lzp_path_round_trip(d);
        },
        BwtPipeline::JsonSplit => {
            lemma_json_path(d);
        },
        BwtPipeline::CsvSplit => {
            lemma_csv_path(d);
        },
        BwtPipeline::XmlSplit => {
            lemma_xml_path(d);
        },
        BwtPipeline::XwrtBwtMtfRle => {
            law_words_round_trip(d, dict);
        },
    }
}

/// The longest block whose streams fit a pipeline whatever it holds: a suffix array
/// sorts a doubled stream of up to `i32::MAX` bytes, matching may double a stream,
/// and a split may add up to eleven, seventeen or four bytes to each byte.
pub open spec fn sure_len(p: BwtPipeline) -> int {
    match p {
        BwtPipeline::RawCm | BwtPipeline::BwtMtfRle | BwtPipeline::XwrtBwtMtfRle => 1073741823,
        BwtPipeline::LzpBwtMtf => 536870907,
        BwtPipeline::JsonSplit => 44739241,
        BwtPipeline::CsvSplit => 107374181,
        BwtPipeline::XmlSplit => 29826161,
    }
}

/// A block that is not too long fits a pipeline.
pub proof fn lemma_block_fits(p: BwtPipeline, d: Seq<u8>, dict: Option<Seq<Seq<u8>>>)
    requires
        d.len() <= sure_len(p),
        dict matches Some(g) ==> xwrt::no_endless_word(g) && g.len() <= xwrt::MAX_XWRT_WORDS,
        dict is None && p == BwtPipeline::XwrtBwtMtfRle ==> split_common::all_ascii(d),
    ensures
        pipeline_fits(p, d, dict),
{
    match p {
        BwtPipeline::JsonSplit => {
            json_split::lemma_json_sizes(d);
            let parts = json_parts(json_of(d));
            assert forall|i: int| 0 <= i < parts.len() implies stages::stream_fits(
                #[trigger] parts[i],
            ) by {
                stages::lemma_stream_fits(parts[i]);
            }
            assert(stages::streams_fit(parts));
        },
        BwtPipeline::CsvSplit => {
            csv_split::lemma_csv_sizes(d);
            let parts = csv_split::csv_streams(d).columns;
            assert forall|i: int| 0 <= i < parts.len() implies stages::stream_fits(
                #[trigger] parts[i],
            ) by {
                stages::lemma_stream_fits(parts[i]);
            }
            assert(stages::streams_fit(parts));
        },
        BwtPipeline::XmlSplit => {
            xml_split::lemma_xml_sizes(d);
            let parts = xml_parts(xml_of(d));
            assert forall|i: int| 0 <= i < parts.len() implies stages::stream_fits(
                #[trigger] parts[i],
            ) by {
                stages::lemma_stream_fits(parts[i]);
            }
            assert(stages::streams_fit(parts));
        },
        BwtPipeline::XwrtBwtMtfRle => {
            if dict is None {
                xwrt::lemma_ascii_dictionary(d);
            }
            xwrt::law_xwrt_not_longer(used_dict(d, dict), d);
        },
        BwtPipeline::LzpBwtMtf => {
            stages::lemma_stream_fits(d);
            reveal(stages::stream_fits);
        },
        _ => {},
    }
}

/// Every pipeline gives back the blocks that are not too long for it: plain,
/// transformed, matched and JSON ones whatever they hold, markup without the byte
/// that marks fragments, tables without a row of more than 65535 fields, and word
/// tokens of ASCII text, with their own dictionary or one that fits its tokens.
pub proof fn law_blocks_come_back(p: BwtPipeline, d: Seq<u8>, dict: Option<Seq<Seq<u8>>>)
    requires
        d.len() <= sure_len(p),
        p == BwtPipeline::XmlSplit ==> !d.contains(split_common::MARK_PREFIX),
        p == BwtPipeline::CsvSplit ==> csv_split::rows_fit(d),
        p == BwtPipeline::XwrtBwtMtfRle ==> split_common::all_ascii(d),
        dict matches Some(g) ==> xwrt::no_endless_word(g) && g.len() <= xwrt::MAX_XWRT_WORDS,
    ensures
        pipeline_decoded(p, pipeline_coded(p, d, dict), dict) == Ok::<Seq<u8>, Fault>(d),
{
    lemma_block_fits(p, d, dict);
    if p == BwtPipeline::XmlSplit {
        xml_split::law_xml_unmarked(d);
    } else if p == BwtPipeline::CsvSplit {
        csv_split::law_csv_round_trip(d);
    }
    law_pipeline_round_trip(p, d, dict);
}

/// The payload of word tokens: the length of the block, that of the transformed
/// tokens, the tokens, and the dictionary only where none was given.
pub proof fn law_words_layout(d: Seq<u8>, g: Seq<Seq<u8>>)
    ensures
        ({
            let e = stages::bwt_mtf_rle_coded(xwrt::xwrt_coded(g, d));
            pipeline_coded(BwtPipeline::XwrtBwtMtfRle, d, Some(g)) == bytes::le32(d.len() as int)
                + bytes::le32(e.len() as int) + e
        }),
        ({
            let own = xwrt::dictionary_of(d);
            let e = stages::bwt_mtf_rle_coded(xwrt::xwrt_coded(own, d));
            pipeline_coded(BwtPipeline::XwrtBwtMtfRle, d, None) == bytes::le32(d.len() as int)
                + bytes::le32(e.len() as int) + e + xwrt::dict_bytes(own)
        }),
{
    let e = stages::bwt_mtf_rle_coded(xwrt::xwrt_coded(g, d));
    assert(pipeline_coded(BwtPipeline::XwrtBwtMtfRle, d, Some(g)) =~= bytes::le32(d.len() as int)
        + bytes::le32(e.len() as int) + e);
}

/// The contents of a dictionary, if there is one.
pub open spec fn dict_view(dict: Option<&XwrtDictionary>) -> Option<Seq<Seq<u8>>> {
    match dict {
        Some(g) => Some(g@),
        None => None,
    }
}

fn encode_json(orig_len: usize, streams: &JsonStreams) -> (out: Vec<u8>)
    requires
        orig_len <= u32::MAX,
        stages::streams_fit(json_parts(streams@)),
    ensures
        out@ == parts_packed(orig_len as int, json_parts(streams@)),
{
    let ghost parts = json_parts(streams@);
    proof {
        assert(parts[0] == streams@.structural);
        assert(parts[1] == streams@.keys);
        assert(parts[2] == streams@.string_values);
        assert(parts[3] == streams@.numbers);
        stages::law_pick_round_trip(parts[0]);
        stages::law_pick_round_trip(parts[1]);
        stages::law_pick_round_trip(parts[2]);
        stages::law_pick_round_trip(parts[3]);
    }
    let (p0, s0) = stages::encode_stream_pick(streams.structural.as_slice());
    let (p1, s1) = stages::encode_stream_pick(streams.keys.as_slice());
    let (p2, s2) = stages::encode_stream_pick(streams.string_values.as_slice());
    let (p3, s3) = stages::encode_stream_pick(streams.numbers.as_slice());
    let selector: u8 = p0 + 4 * p1 + 16 * p2 + 64 * p3;
    let encoded: [&[u8]; 4] = [s0.as_slice(), s1.as_slice(), s2.as_slice(), s3.as_slice()];
    assert(split_common::views(encoded@) =~= stages::bodies_of(parts));
    assert(selector == stages::selector_byte(stages::pipes_of(parts), 0));
    marked::pack_marked_streams(orig_len, selector, encoded.as_slice())
}

fn encode_xml(orig_len: usize, streams: &XmlStreams) -> (out: Vec<u8>)
    requires
        orig_len <= u32::MAX,
        stages::streams_fit(xml_parts(streams@)),
    ensures
        out@ == parts_packed(orig_len as int, xml_parts(streams@)),
{
    let ghost parts = xml_parts(streams@);
    proof {
        assert(parts[0] == streams@.tags);
        assert(parts[1] == streams@.attrs);
        assert(parts[2] == streams@.text);
        stages::law_pick_round_trip(parts[0]);
        stages::law_pick_round_trip(parts[1]);
        stages::law_pick_round_trip(parts[2]);
    }
    let (p0, s0) = stages::encode_stream_pick(streams.tags.as_slice());
    let (p1, s1) = stages::encode_stream_pick(streams.attrs.as_slice());
    let (p2, s2) = stages::encode_stream_pick(streams.text.as_slice());
    let selector: u8 = p0 + 4 * p1 + 16 * p2;
    let encoded: [&[u8]; 3] = [s0.as_slice(), s1.as_slice(), s2.as_slice()];
    assert(split_common::views(encoded@) =~= stages::bodies_of(parts));
    assert(selector == stages::selector_byte(stages::pipes_of(parts), 0));
    marked::pack_marked_streams(orig_len, selector, encoded.as_slice())
}

fn pack_words(data: &[u8], tokens: &[u8], own: &[u8]) -> (out: Vec<u8>)
    requires
        data@.len() <= u32::MAX,
        stages::sortable(tokens@),
    ensures
        out@ == bytes::le32(data@.len() as int) + bytes::le32(
            stages::bwt_mtf_rle_coded(tokens@).len() as int,
        ) + stages::bwt_mtf_rle_coded(tokens@) + own@,
{
    let body = stages::bwt_mtf_rle_encode(tokens);
    proof {
        lemma_rle_path_len(tokens@);
    }
    let mut out: Vec<u8> = Vec::new();
    bytes::push_u32(&mut out, data.len() as u32);
    bytes::push_u32(&mut out, body.len() as u32);
    bytes::push_slice(&mut out, body.as_slice());
    bytes::push_slice(&mut out, own);
    assert(Seq::<u8>::empty() + bytes::le32(data@.len() as int) =~= bytes::le32(
        data@.len() as int,
    ));
    out
}

fn encode_words(data: &[u8], dict: Option<&XwrtDictionary>) -> (out: Vec<u8>)
    requires
        pipeline_fits(BwtPipeline::XwrtBwtMtfRle, data@, dict_view(dict)),
    ensures
        out@ == words_packed(data@, dict_view(dict)),
{
    match dict {
        Some(g) => {
            let tokens = g.transform(data);
            let none: Vec<u8> = Vec::new();
            pack_words(data, tokens.as_slice(), none.as_slice())
        },
        None => {
            let own = XwrtDictionary::build_from_data(data);
            let tokens = own.transform(data);
            let own_bytes = own.to_bytes();
            pack_words(data, tokens.as_slice(), own_bytes.as_slice())
        },
    }
}

fn decode_words(payload: &[u8], dict: Option<&XwrtDictionary>) -> (r: Result<Vec<u8>, RcnError>)
    ensures
        error::outcome(r) == words_unpacked(payload@, dict_view(dict)),
{
    let total: usize = payload.len();
    if total < 8 {
        return Err(error::corrupt("xwrt payload truncated"));
    }
    let orig_len: usize = bytes::get_u32(payload, 0) as usize;
    let len: usize = bytes::get_u32(payload, 4) as usize;
    if len > total - 8 {
        return Err(error::corrupt("xwrt encoded body overruns payload"));
    }
    match stages::rle_path_decode(vstd::slice::slice_subrange(payload, 8, 8 + len)) {
        Ok(tokens) => match dict {
            Some(g) => Ok(xwrt::inverse_with_dict(tokens.as_slice(), orig_len, g)),
            None => {
                let own = vstd::slice::slice_subrange(payload, 8 + len, total);
                assert(own@ =~= payload@.skip(8 + len as int));
                match XwrtDictionary::from_bytes(own) {
                    Some(d) => Ok(xwrt::inverse_with_dict(tokens.as_slice(), orig_len, &d)),
                    None => Err(error::corrupt("xwrt dictionary is corrupt")),
                }
            },
        },
        Err(e) => Err(e),
    }
}

/// Original length and streams of a payload of `n` streams.
fn unpack_parts(payload: &[u8], n: usize) -> (r: Result<(usize, Vec<Vec<u8>>), RcnError>)
    requires
        n <= 4,
    ensures
        match r {
            Ok((len, streams)) => streams@.len() == n && parts_unpacked(payload@, n as int) == Ok::<
                (int, Seq<Seq<u8>>),
                Fault,
            >((len as int, csv_split::byte_views(streams@))),
            Err(e) => parts_unpacked(payload@, n as int) == Err::<(int, Seq<Seq<u8>>), Fault>(e@),
        },
{
    match marked::unpack_marked_streams(payload, n) {
        Ok((len, selector, parts)) => {
            let ghost views = split_common::views(parts@);
            let ghost goal = parts_decoded(views, selector, 0, Seq::empty());
            let mut streams: Vec<Vec<u8>> = Vec::new();
            let mut i: usize = 0;
            assert(csv_split::byte_views(streams@) =~= Seq::<Seq<u8>>::empty());
            while i < parts.len()
                invariant
                    i <= parts@.len() <= 4,
                    views == split_common::views(parts@),
                    goal == parts_decoded(views, selector, 0, Seq::empty()),
                    marked::streams_unpacked(payload@, n as int) == Ok::<
                        (int, u8, Seq<Seq<u8>>),
                        Fault,
                    >((len as int, selector, views)),
                    streams@.len() == i,
                    goal == parts_decoded(
                        views,
                        selector,
                        i as int,
                        csv_split::byte_views(streams@),
                    ),
                decreases parts@.len() - i,
            {
                let pipe: u8 = stages::read_two_bits(selector, i);
                match stages::decode_stream_pick(parts[i], pipe) {
                    Ok(s) => {
                        let ghost before = csv_split::byte_views(streams@);
                        streams.push(s);
                        assert(csv_split::byte_views(streams@) =~= before.push(s@));
                    },
                    Err(e) => {
                        return Err(e);
                    },
                }
                i = i + 1;
            }
            Ok((len, streams))
        },
        Err(e) => Err(e),
    }
}

fn decode_json(payload: &[u8]) -> (r: Result<Vec<u8>, RcnError>)
    ensures
        error::outcome(r) == pipeline_decoded(BwtPipeline::JsonSplit, payload@, None),
{
    match unpack_parts(payload, 4) {
        Ok((n, mut parts)) => {
            let ghost views = csv_split::byte_views(parts@);
            assert(views[0] == parts@[0]@ && views[1] == parts@[1]@ && views[2] == parts@[2]@
                && views[3] == parts@[3]@);
            let numbers = parts.pop().unwrap();
            let string_values = parts.pop().unwrap();
            let keys = parts.pop().unwrap();
            let structural = parts.pop().unwrap();
            json_split::merge(&JsonStreams { structural, keys, string_values, numbers }, n)
        },
        Err(e) => Err(e),
    }
}

fn decode_xml(payload: &[u8]) -> (r: Result<Vec<u8>, RcnError>)
    ensures
        error::outcome(r) == pipeline_decoded(BwtPipeline::XmlSplit, payload@, None),
{
    match unpack_parts(payload, 3) {
        Ok((n, mut parts)) => {
            let ghost views = csv_split::byte_views(parts@);
            assert(views[0] == parts@[0]@ && views[1] == parts@[1]@ && views[2] == parts@[2]@);
            let text = parts.pop().unwrap();
            let attrs = parts.pop().unwrap();
            let tags = parts.pop().unwrap();
            xml_split::join(&XmlStreams { tags, attrs, text }, n)
        },
        Err(e) => Err(e),
    }
}

fn decode_csv(payload: &[u8]) -> (r: Result<Vec<u8>, RcnError>)
    ensures
        error::outcome(r) == pipeline_decoded(BwtPipeline::CsvSplit, payload@, None),
{
    match table::unpack_table(payload) {
        Ok(streams) => csv_split::join(&streams),
        Err(e) => Err(e),
    }
}

impl BwtPipeline {
    /// Encodes `data` to the payload that the entropy coder compresses. For
    /// `XwrtBwtMtfRle`, a given dictionary is used in place of one of the
    /// block's own.
    pub fn encode(self, data: &[u8], global_dict: Option<&XwrtDictionary>) -> (out: Vec<u8>)
        requires
            pipeline_fits(self, data@, dict_view(global_dict)),
        ensures
            out@ == pipeline_coded(self, data@, dict_view(global_dict)),
    {
        match self {
            BwtPipeline::RawCm => vstd::slice::slice_to_vec(data),
            BwtPipeline::BwtMtfRle => stages::bwt_mtf_rle_encode(data),
            BwtPipeline::LzpBwtMtf => {
                let tokens = lzp::lzp_encode(data);
                stages::bwt_mtf_encode(tokens.as_slice())
            },
            BwtPipeline::JsonSplit => {
                let streams = json_split::split(data);
                encode_json(data.len(), &streams)
            },
            BwtPipeline::CsvSplit => {
                proof {
                    csv_split::lemma_csv_sizes(data@);
                }
                let streams = csv_split::split(data);
                table::pack_table(data.len(), &streams)
            },
            BwtPipeline::XmlSplit => {
                let streams = xml_split::split(data);
                encode_xml(data.len(), &streams)
            },
            BwtPipeline::XwrtBwtMtfRle => encode_words(data, global_dict),
        }
    }

    /// Decodes a payload that `encode` gave. A payload that is truncated or
    /// otherwise invalid is an error.
    pub fn decode(
        self,
        payload: &[u8],
        orig_len: usize,
        global_dict: Option<&XwrtDictionary>,
    ) -> (r: Result<Vec<u8>, RcnError>)
        ensures
            error::outcome(r) == pipeline_decoded(self, payload@, dict_view(global_dict)),
    {
        match self {
            BwtPipeline::RawCm => Ok(vstd::slice::slice_to_vec(payload)),
            BwtPipeline::BwtMtfRle => stages::rle_path_decode(payload),
            BwtPipeline::LzpBwtMtf => stages::lzp_path_decode(payload, orig_len),
            BwtPipeline::JsonSplit => decode_json(payload),
            BwtPipeline::CsvSplit => decode_csv(payload),
            BwtPipeline::XmlSplit => decode_xml(payload),
            BwtPipeline::XwrtBwtMtfRle => decode_words(payload, global_dict),
        }
    }
}

} // verus!
