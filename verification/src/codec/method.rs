//! Method bytes, modes and block sizes.

use crate::bwt::pipeline::BwtPipeline;
use crate::classify::BlockKind;
use crate::error::{Fault, RcnError};
use crate::text;
use vstd::prelude::*;
use vstd::string::*;

verus! {

/// Default block size: 64 KiB.
pub const DEFAULT_BLOCK_SIZE_LOG: u8 = 16;

/// Stored as it is.
pub const METHOD_COPY: u8 = 0;

/// Full bit-level stack.
pub const METHOD_CM: u8 = 1;

/// Bit-level text.
pub const METHOD_TEXT: u8 = 2;

/// Bit-level binary.
pub const METHOD_BINARY: u8 = 3;

/// Bit-level machine code, targets made absolute.
pub const METHOD_EXEC: u8 = 4;

/// Bit-level text behind transform, move-to-front and zero-run coding.
pub const METHOD_BWT_MTF_RLE: u8 = 5;

/// Bit-level text behind LZP filter, transform and move-to-front.
pub const METHOD_LZP_BWT_MTF: u8 = 6;

/// Bit-level text behind the JSON split.
pub const METHOD_JSON_SPLIT: u8 = 7;

/// Byte-level, with match history.
pub const METHOD_BYTE_CM: u8 = 8;

/// Byte-level text behind transform, move-to-front and zero-run coding.
pub const METHOD_BYTE_BWT_MTF_RLE: u8 = 9;

/// Byte-level text behind LZP filter, transform and move-to-front.
pub const METHOD_BYTE_LZP_BWT_MTF: u8 = 10;

/// Byte-level text behind the JSON split.
pub const METHOD_BYTE_JSON_SPLIT: u8 = 11;

/// Byte-level text behind the word dictionary.
pub const METHOD_BYTE_XWRT_BWT_MTF_RLE: u8 = 12;

/// Bit-level text behind the word dictionary.
pub const METHOD_XWRT_BWT_MTF_RLE: u8 = 13;

/// Byte-level machine code, targets made absolute.
pub const METHOD_BYTE_EXEC_E8E9: u8 = 14;

/// Bit-level text behind the CSV split.
pub const METHOD_CSV_SPLIT: u8 = 15;

/// Bit-level text behind the XML split.
pub const METHOD_XML_SPLIT: u8 = 16;

/// Byte-level text behind the CSV split.
pub const METHOD_BYTE_CSV_SPLIT: u8 = 17;

/// Byte-level text behind the XML split.
pub const METHOD_BYTE_XML_SPLIT: u8 = 18;

/// Hash-chain LZ.
pub const METHOD_WIRE: u8 = 19;

/// Byte-level text without match history.
pub const METHOD_BYTE_TEXT: u8 = 20;

/// Encoding strategy.
#[derive(Debug, Clone, Copy, PartialEq, Eq, Structural)]
pub enum CodecMode {
    /// Bit-level on every block.
    Slow,
    /// Byte-level with transform trials.
    Fast,
    /// Byte-level for text and random blocks, bit-level for binary and code.
    Hybrid,
    /// Hash-chain LZ.
    Wire,
    /// Byte-level without transform trials.
    General,
}

/// The label of a method.
pub open spec fn label_of(method: u8) -> Seq<char> {
    if method == METHOD_COPY {
        "COPY"@
    } else if method == METHOD_CM {
        "CM"@
    } else if method == METHOD_TEXT {
        "CM(text)"@
    } else if method == METHOD_BINARY {
        "CM(binary)"@
    } else if method == METHOD_EXEC {
        "CM(exec)"@
    } else if method == METHOD_BWT_MTF_RLE {
        "BWT→MTF→RLE0→CM"@
    } else if method == METHOD_LZP_BWT_MTF {
        "LZP→BWT→MTF→CM"@
    } else if method == METHOD_JSON_SPLIT {
        "JSON-split→BWT→CM"@
    } else if method == METHOD_XWRT_BWT_MTF_RLE {
        "XWRT→BWT→MTF→RLE0→CM"@
    } else if method == METHOD_CSV_SPLIT {
        "CSV-split→BWT→CM"@
    } else if method == METHOD_XML_SPLIT {
        "XML-split→BWT→CM"@
    } else if method == METHOD_BYTE_CM {
        "byte-CM"@
    } else if method == METHOD_BYTE_BWT_MTF_RLE {
        "byte-BWT→MTF→RLE0"@
    } else if method == METHOD_BYTE_LZP_BWT_MTF {
        "byte-LZP→BWT→MTF"@
    } else if method == METHOD_BYTE_JSON_SPLIT {
        "byte-JSON-split→BWT"@
    } else if method == METHOD_BYTE_XWRT_BWT_MTF_RLE {
        "byte-XWRT→BWT→MTF→RLE0"@
    } else if method == METHOD_BYTE_CSV_SPLIT {
        "byte-CSV-split→BWT"@
    } else if method == METHOD_BYTE_XML_SPLIT {
        "byte-XML-split→BWT"@
    } else if method == METHOD_BYTE_EXEC_E8E9 {
        "byte-E8E9→CM"@
    } else if method == METHOD_WIRE {
        "wire-LZ"@
    } else if method == METHOD_BYTE_TEXT {
        "byte-CM(text)"@
    } else {
        "?"@
    }
}

/// Human-readable label of a method.
pub fn method_label(method: u8) -> (s: &'static str)
    ensures
        s@ == label_of(method),
{
    match method {
        METHOD_COPY => "COPY",
        METHOD_CM => "CM",
        METHOD_TEXT => "CM(text)",
        METHOD_BINARY => "CM(binary)",
        METHOD_EXEC => "CM(exec)",
        METHOD_BWT_MTF_RLE => "BWT→MTF→RLE0→CM",
        METHOD_LZP_BWT_MTF => "LZP→BWT→MTF→CM",
        METHOD_JSON_SPLIT => "JSON-split→BWT→CM",
        METHOD_XWRT_BWT_MTF_RLE => "XWRT→BWT→MTF→RLE0→CM",
        METHOD_CSV_SPLIT => "CSV-split→BWT→CM",
        METHOD_XML_SPLIT => "XML-split→BWT→CM",
        METHOD_BYTE_CM => "byte-CM",
        METHOD_BYTE_BWT_MTF_RLE => "byte-BWT→MTF→RLE0",
        METHOD_BYTE_LZP_BWT_MTF => "byte-LZP→BWT→MTF",
        METHOD_BYTE_JSON_SPLIT => "byte-JSON-split→BWT",
        METHOD_BYTE_XWRT_BWT_MTF_RLE => "byte-XWRT→BWT→MTF→RLE0",
        METHOD_BYTE_CSV_SPLIT => "byte-CSV-split→BWT",
        METHOD_BYTE_XML_SPLIT => "byte-XML-split→BWT",
        METHOD_BYTE_EXEC_E8E9 => "byte-E8E9→CM",
        METHOD_WIRE => "wire-LZ",
        METHOD_BYTE_TEXT => "byte-CM(text)",
        _ => "?",
    }
}

/// The method of a pipeline; only bit-level coding has methods of its own.
pub open spec fn pipeline_method(p: BwtPipeline, mode: CodecMode) -> u8 {
    if mode == CodecMode::Slow {
        match p {
            BwtPipeline::RawCm => METHOD_TEXT,
            BwtPipeline::BwtMtfRle => METHOD_BWT_MTF_RLE,
            BwtPipeline::LzpBwtMtf => METHOD_LZP_BWT_MTF,
            BwtPipeline::JsonSplit => METHOD_JSON_SPLIT,
            BwtPipeline::XwrtBwtMtfRle => METHOD_XWRT_BWT_MTF_RLE,
            BwtPipeline::CsvSplit => METHOD_CSV_SPLIT,
            BwtPipeline::XmlSplit => METHOD_XML_SPLIT,
        }
    } else {
        match p {
            BwtPipeline::RawCm => METHOD_BYTE_CM,
            BwtPipeline::BwtMtfRle => METHOD_BYTE_BWT_MTF_RLE,
            BwtPipeline::LzpBwtMtf => METHOD_BYTE_LZP_BWT_MTF,
            BwtPipeline::JsonSplit => METHOD_BYTE_JSON_SPLIT,
            BwtPipeline::XwrtBwtMtfRle => METHOD_BYTE_XWRT_BWT_MTF_RLE,
            BwtPipeline::CsvSplit => METHOD_BYTE_CSV_SPLIT,
            BwtPipeline::XmlSplit => METHOD_BYTE_XML_SPLIT,
        }
    }
}

/// The method of a pipeline.
pub fn method_for_pipeline(pipeline: BwtPipeline, mode: CodecMode) -> (m: u8)
    ensures
        m == pipeline_method(pipeline, mode),
{
    if mode == CodecMode::Slow {
        match pipeline {
            BwtPipeline::RawCm => METHOD_TEXT,
            BwtPipeline::BwtMtfRle => METHOD_BWT_MTF_RLE,
            BwtPipeline::LzpBwtMtf => METHOD_LZP_BWT_MTF,
            BwtPipeline::JsonSplit => METHOD_JSON_SPLIT,
            BwtPipeline::XwrtBwtMtfRle => METHOD_XWRT_BWT_MTF_RLE,
            BwtPipeline::CsvSplit => METHOD_CSV_SPLIT,
            BwtPipeline::XmlSplit => METHOD_XML_SPLIT,
        }
    } else {
        match pipeline {
            BwtPipeline::RawCm => METHOD_BYTE_CM,
            BwtPipeline::BwtMtfRle => METHOD_BYTE_BWT_MTF_RLE,
            BwtPipeline::LzpBwtMtf => METHOD_BYTE_LZP_BWT_MTF,
            BwtPipeline::JsonSplit => METHOD_BYTE_JSON_SPLIT,
            BwtPipeline::XwrtBwtMtfRle => METHOD_BYTE_XWRT_BWT_MTF_RLE,
            BwtPipeline::CsvSplit => METHOD_BYTE_CSV_SPLIT,
            BwtPipeline::XmlSplit => METHOD_BYTE_XML_SPLIT,
        }
    }
}

/// The bit-level method of a kind.
pub open spec fn kind_method(kind: BlockKind) -> u8 {
    match kind {
        BlockKind::Random => METHOD_COPY,
        BlockKind::Text => METHOD_TEXT,
        BlockKind::Binary => METHOD_BINARY,
        BlockKind::Exec => METHOD_EXEC,
    }
}

/// The bit-level method of a kind.
pub fn method_for_kind(kind: BlockKind) -> (m: u8)
    ensures
        m == kind_method(kind),
{
    match kind {
        BlockKind::Random => METHOD_COPY,
        BlockKind::Text => METHOD_TEXT,
        BlockKind::Binary => METHOD_BINARY,
        BlockKind::Exec => METHOD_EXEC,
    }
}

/// The kind that a method stands for.
pub open spec fn method_kind(method: u8) -> Result<BlockKind, Fault> {
    if method == METHOD_COPY {
        Ok(BlockKind::Random)
    } else if method == METHOD_BINARY || method == METHOD_WIRE {
        Ok(BlockKind::Binary)
    } else if method == METHOD_EXEC || method == METHOD_BYTE_EXEC_E8E9 {
        Ok(BlockKind::Exec)
    } else if method <= METHOD_BYTE_TEXT {
        Ok(BlockKind::Text)
    } else {
        Err(Fault::InvalidContainer("unknown method "@ + text::decimal(method as int)))
    }
}

/// The kind that a method stands for; an unknown method is an error.
pub fn kind_for_method(method: u8) -> (r: Result<BlockKind, RcnError>)
    ensures
        match r {
            Ok(kind) => method_kind(method) == Ok::<BlockKind, Fault>(kind),
            Err(e) => method_kind(method) == Err::<BlockKind, Fault>(e@),
        },
{
    if method == METHOD_COPY {
        Ok(BlockKind::Random)
    } else if method == METHOD_BINARY || method == METHOD_WIRE {
        Ok(BlockKind::Binary)
    } else if method == METHOD_EXEC || method == METHOD_BYTE_EXEC_E8E9 {
        Ok(BlockKind::Exec)
    } else if method <= METHOD_BYTE_TEXT {
        Ok(BlockKind::Text)
    } else {
        let mut m = String::from_str("unknown method ");
        text::push_decimal(&mut m, method as u64);
        Err(RcnError::InvalidContainer(m))
    }
}

/// The method of a kind stands for that kind.
pub proof fn law_kind_method(kind: BlockKind)
    ensures
        method_kind(kind_method(kind)) == Ok::<BlockKind, Fault>(kind),
{
}

/// Largest block of text and of the hash-chain engine: 4 MiB.
pub const MAX_BLOCK: usize = 4194304;

/// Block of binary data and code: 1 MiB.
pub const BINARY_BLOCK_SIZE: usize = 1048576;

/// Smallest block: 64 KiB.
pub const MIN_BLOCK: usize = 65536;

/// The size of the block that starts with `rest` bytes left; the last block may
/// have fewer bytes.
pub open spec fn block_size(kind: BlockKind, rest: int, mode: CodecMode) -> int {
    if mode == CodecMode::Wire {
        if rest >= MAX_BLOCK {
            MAX_BLOCK as int
        } else if rest >= 1 {
            rest
        } else {
            1
        }
    } else {
        match kind {
            BlockKind::Text => if rest >= MAX_BLOCK {
                MAX_BLOCK as int
            } else if rest >= MIN_BLOCK {
                rest
            } else {
                MIN_BLOCK as int
            },
            BlockKind::Binary | BlockKind::Exec => BINARY_BLOCK_SIZE as int,
            BlockKind::Random => MIN_BLOCK as int,
        }
    }
}

/// The size of the block at `offset` of `total` bytes.
pub fn block_size_for_kind(kind: BlockKind, offset: usize, total: usize, mode: CodecMode) -> (n:
    usize)
    requires
        offset <= total,
    ensures
        n == block_size(kind, total - offset, mode),
{
    let rest: usize = total - offset;
    if mode == CodecMode::Wire {
        return if rest >= MAX_BLOCK {
            MAX_BLOCK
        } else if rest >= 1 {
            rest
        } else {
            1
        };
    }
    match kind {
        BlockKind::Text => if rest >= MAX_BLOCK {
            MAX_BLOCK
        } else if rest >= MIN_BLOCK {
            rest
        } else {
            MIN_BLOCK
        },
        BlockKind::Binary | BlockKind::Exec => BINARY_BLOCK_SIZE,
        BlockKind::Random => MIN_BLOCK,
    }
}

/// Whether blocks of a kind are coded bit by bit.
pub open spec fn is_slow(mode: CodecMode, kind: BlockKind) -> bool {
    mode == CodecMode::Slow || (mode == CodecMode::Hybrid && (kind == BlockKind::Binary || kind
        == BlockKind::Exec))
}

/// Whether blocks of a kind are coded bit by bit.
pub fn use_slow_for(mode: CodecMode, kind: BlockKind) -> (r: bool)
    ensures
        r == is_slow(mode, kind),
{
    mode == CodecMode::Slow || (mode == CodecMode::Hybrid && (kind == BlockKind::Binary || kind
        == BlockKind::Exec))
}

} // verus!
