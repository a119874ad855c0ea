//! The index structures and the transforms they are built from.

pub mod bwt;
pub mod lcp;
pub mod suffix_array;
pub mod fmindex;
pub mod fmstore;
pub mod inverted;
