//! Bit-level predictors (context models), transforms for binary data, and the
//! word dictionary.
//!
//! Each model gives the probability of bit 1 in `[1, 4095]` and is updated once
//! the true bit is known.

pub mod assembler;
pub mod bit_model;
pub mod context_law;
pub mod ctable;
pub mod delta;
pub mod dense;
pub mod e8e9;
pub mod exec;
pub mod history_law;
pub mod icm;
pub mod indirect_dmc;
pub mod lazy_lzp;
pub mod lzp;
pub mod mixer;
pub mod mixer_bank;
pub mod order;
pub mod pairs;
pub mod ppm;
pub mod ppmd_ssm;
pub mod sparse;
pub mod sse_apm;
pub mod stack_enum;
pub mod word;
pub mod xwrt;

pub use assembler::ByteAssembler;
pub use bit_model::BitModel;
