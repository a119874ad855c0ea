//! What a ranking layer needs from an inverted index.

pub mod inv_adapter;
