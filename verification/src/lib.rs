//! A fixed-capacity least-recently-used (LRU) key-value cache, together with
//! a line-oriented text format that persists a snapshot of its contents.
//!
//! The cache keeps at most `capacity` entries in a recency order (oldest
//! access first).  A successful lookup counts as a use and refreshes the
//! entry's recency; inserting a new key into a full cache evicts the least
//! recently used entry.  The text format stores the capacity on its first
//! line and one `key;value` pair per following line; malformed lines are
//! dropped on loading rather than reported as errors.
//!
//! Reading and writing actual files is left to the embedding program: the
//! library renders and parses the file contents as strings.

pub mod cache;
pub mod storage;

pub use cache::lru::Cache;
