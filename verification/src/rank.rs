//! Ranking of scored documents.

pub mod topk;
