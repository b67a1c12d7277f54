//! Entropy coders.

pub mod byterans;
pub mod range;
pub mod side_fse;
