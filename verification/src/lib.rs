//! Encoder for the "extreme bitmap" format: a header with per-symbol counts
//! and a refinement order, followed by a bit stream that tells, position by
//! position, where a byte sequence departs from its rank-sorted arrangement.

pub mod extreme_bitmap;
pub mod utils;
pub mod ranks;
pub mod header;
pub mod priority;
pub mod refine;
pub mod serialize;
pub mod theorems;
