//! Near-duplicate detection for text records: MinHash sketches, a banded
//! bucket index over them, and an online clustering pass that folds candidate
//! lists into duplicate groups.

pub mod components;
pub mod dedup;
pub mod fold;
pub mod laws;
pub mod lsh;
pub mod minhash;
pub mod threshold;
