//! Turning text into tokens.

pub mod tokenize;
