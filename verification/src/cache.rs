//! The storage engine: the LRU cache itself, its traits, and its laws.

pub mod laws;
pub mod lru;
pub mod traits;
