//! A leveled, block-based, lossless compressor.
//!
//! Every block of the input is classified, transformed and entropy coded on
//! its own; the container records which method was used so that decoding can
//! run the exact inverse.

pub mod backref;
pub mod bwt;
pub mod bytecodec;
pub mod bytes;
pub mod classify;
pub mod codec;
pub mod container;
pub mod csv_split;
pub mod entropy;
pub mod error;
pub mod json_split;
pub mod level;
pub mod look_law;
pub mod model;
pub mod order;
pub mod sorting;
pub mod split_common;
pub mod stacks;
pub mod text;
pub mod wire;
pub mod xml_split;
