//! In-memory semantic search core: fixed-point embedding vectors, cosine
//! similarity, and a brute-force vector index.
//!
//! Vector components are fixed-point numbers: the integer `c` stands for the
//! real value `c / SCALE`. All similarity scores are fixed-point in the same
//! way, so a score of `SCALE` means a cosine of exactly 1.

pub mod embedding;
pub mod index;
pub mod similarity;
