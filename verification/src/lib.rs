//! A compact full-text search toolkit: a positional inverted index with
//! delta-coded postings and phrase matching, and an FM-index over the
//! Burrows-Wheeler transform with sampled suffix-array locate.

pub mod util;
pub mod index;
pub mod text;
pub mod query;
pub mod adapter;
pub mod rank;
