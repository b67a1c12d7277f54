//! Burrows-Wheeler transform, move-to-front, zero-run coding and the LZP
//! pre-filter, and the pipelines that are built from them.
//!
//! The transform groups similar contexts, which turns long-range repetitions
//! into local runs; move-to-front turns those into small ranks, mostly zeros;
//! zero-run coding shortens the runs. Every transform has an exact inverse.

pub mod frames;
pub mod lzp;
pub mod mtf;
pub mod marked;
pub mod payload_law;
pub mod pipeline;
pub mod rle;
pub mod rotation;
pub mod stages;
pub mod table;
pub mod trial;

pub use lzp::{lzp_decode, lzp_encode};
pub use mtf::{mtf_inverse, mtf_transform};
pub use pipeline::BwtPipeline;
pub use rle::{rle0, rle0_inverse};
pub use rotation::{bwt_forward, bwt_inverse};
pub use stages::{bwt_mtf_decode, bwt_mtf_encode, bwt_mtf_rle_decode, bwt_mtf_rle_encode};
pub use trial::{compress_text_with_trial, BwtPathResult};
