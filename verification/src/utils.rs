//! Bit-level building blocks shared by the encoder's passes.

pub mod bit_writer;
pub mod extend_vec;
pub mod index_cursor;
