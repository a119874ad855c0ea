//! Succinct primitives shared by both indexes.

pub mod varint;
pub mod bitvec;
pub mod bytes;
pub mod rrr;
