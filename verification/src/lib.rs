//! A small vector index over text documents: documents are split into
//! word chunks, each chunk gets an embedding vector from an external
//! provider, and queries are answered by ranking chunks by cosine
//! similarity.
//!
//! Embedding components are fixed-point integers (a component value of
//! 1000 stands for 1.0), so every similarity computation here is exact
//! integer arithmetic: a similarity is kept as the pair of its dot
//! product and the product of the squared norms, and comparisons and
//! thresholds are decided by cross-multiplication.

pub mod codec;
pub mod document;
pub mod embedding;
pub mod errors;
pub mod index;
pub mod language;
pub mod ranking;
pub mod similarity;
pub mod text;

pub use similarity::SCALE;
