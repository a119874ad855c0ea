//! Queries over the inverted index.

pub mod phrase;
