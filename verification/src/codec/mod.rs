//! The codec: classifier, transforms, match search, entropy coders and container
//! together.

pub mod accept_law;
pub mod bit_block;
pub mod block;
pub mod block_code;
pub mod block_law;
pub mod byte_block;
pub mod choice_law;
pub mod compress;
pub mod decompress;
pub mod layout_law;
pub mod method;
pub mod predictor;
pub mod search;
pub mod side;
pub mod step_law;
pub mod stream;
pub mod stream_law;
pub mod varint;

pub use crate::container::crc32;
pub use crate::stacks::{build_full_stack, build_stack_for_kind};
pub use predictor::Step;
pub use compress::{
    compress, compress_fast, compress_general, compress_hybrid, compress_level, compress_mode,
    compress_mode_diag, compress_wire, compress_with, BlockDiag,
};
pub use decompress::{decompress, decompress_with};
pub use method::{
    method_for_kind, method_label, CodecMode, DEFAULT_BLOCK_SIZE_LOG, METHOD_BINARY,
    METHOD_BWT_MTF_RLE, METHOD_BYTE_BWT_MTF_RLE, METHOD_BYTE_CM, METHOD_BYTE_CSV_SPLIT,
    METHOD_BYTE_EXEC_E8E9, METHOD_BYTE_JSON_SPLIT, METHOD_BYTE_LZP_BWT_MTF, METHOD_BYTE_TEXT,
    METHOD_BYTE_XML_SPLIT, METHOD_BYTE_XWRT_BWT_MTF_RLE, METHOD_CM, METHOD_COPY, METHOD_CSV_SPLIT,
    METHOD_EXEC, METHOD_JSON_SPLIT, METHOD_LZP_BWT_MTF, METHOD_TEXT, METHOD_WIRE,
    METHOD_XML_SPLIT, METHOD_XWRT_BWT_MTF_RLE,
};
pub use search::{find_match_distance, match_min_len, scan_matches, MatchRun};
