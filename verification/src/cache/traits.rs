//! The capability surfaces of a cache: key comparison, in-memory storage,
//! and persistence.  Keeping them separate lets callers that only need the
//! in-memory cache avoid the string-rendering constraints of persistence.

use vstd::prelude::*;
use vstd::slice::slice_index_get;
use vstd::string::StringSliceAdditionalSpecFns;
use vstd::utf8::{encode_utf8, encode_utf8_decode_utf8};

verus! {

/// A cache key: a type whose equality test decides equality of deep views.
/// The cache's contracts identify entries by the deep view of their key, so
/// this is what makes them bind; it holds of the usual key types —
/// integers, characters, strings — and of any type whose `key_eq` compares
/// the whole value.
pub trait CacheKey: DeepView + Sized {
    /// Whether the two keys are the same key.
    fn key_eq(&self, other: &Self) -> (r: bool)
        ensures
            r == (self.deep_view() == other.deep_view()),
    ;
}

impl CacheKey for bool {
    fn key_eq(&self, other: &Self) -> (r: bool)
        ensures
            r == (self.deep_view() == other.deep_view()),
    {
        *self == *other
    }
}

impl CacheKey for char {
    fn key_eq(&self, other: &Self) -> (r: bool)
        ensures
            r == (self.deep_view() == other.deep_view()),
    {
        *self == *other
    }
}

impl CacheKey for u8 {
    fn key_eq(&self, other: &Self) -> (r: bool)
        ensures
            r == (self.deep_view() == other.deep_view()),
    {
        *self == *other
    }
}

impl CacheKey for u16 {
    fn key_eq(&self, other: &Self) -> (r: bool)
        ensures
            r == (self.deep_view() == other.deep_view()),
    {
        *self == *other
    }
}

impl CacheKey for u32 {
    fn key_eq(&self, other: &Self) -> (r: bool)
        ensures
            r == (self.deep_view() == other.deep_view()),
    {
        *self == *other
    }
}

impl CacheKey for u64 {
    fn key_eq(&self, other: &Self) -> (r: bool)
        ensures
            r == (self.deep_view() == other.deep_view()),
    {
        *self == *other
    }
}

impl CacheKey for u128 {
    fn key_eq(&self, other: &Self) -> (r: bool)
        ensures
            r == (self.deep_view() == other.deep_view()),
    {
        *self == *other
    }
}

impl CacheKey for usize {
    fn key_eq(&self, other: &Self) -> (r: bool)
        ensures
            r == (self.deep_view() == other.deep_view()),
    {
        *self == *other
    }
}

impl CacheKey for i8 {
    fn key_eq(&self, other: &Self) -> (r: bool)
        ensures
            r == (self.deep_view() == other.deep_view()),
    {
        *self == *other
    }
}

impl CacheKey for i16 {
    fn key_eq(&self, other: &Self) -> (r: bool)
        ensures
            r == (self.deep_view() == other.deep_view()),
    {
        *self == *other
    }
}

impl CacheKey for i32 {
    fn key_eq(&self, other: &Self) -> (r: bool)
        ensures
            r == (self.deep_view() == other.deep_view()),
    {
        *self == *other
    }
}

impl CacheKey for i64 {
    fn key_eq(&self, other: &Self) -> (r: bool)
        ensures
            r == (self.deep_view() == other.deep_view()),
    {
        *self == *other
    }
}

impl CacheKey for i128 {
    fn key_eq(&self, other: &Self) -> (r: bool)
        ensures
            r == (self.deep_view() == other.deep_view()),
    {
        *self == *other
    }
}

impl CacheKey for isize {
    fn key_eq(&self, other: &Self) -> (r: bool)
        ensures
            r == (self.deep_view() == other.deep_view()),
    {
        *self == *other
    }
}

impl CacheKey for String {
    fn key_eq(&self, other: &Self) -> (r: bool)
        ensures
            r == (self.deep_view() == other.deep_view()),
    {
        self.eq(other)
    }
}

impl CacheKey for &str {
    fn key_eq(&self, other: &Self) -> (r: bool)
        ensures
            r == (self.deep_view() == other.deep_view()),
    {
        let r = bytes_equal(self.as_bytes(), other.as_bytes());
        proof {
            if r {
                assert(encode_utf8((*self)@) == encode_utf8((*other)@));
                encode_utf8_decode_utf8((*self)@);
                encode_utf8_decode_utf8((*other)@);
                assert((*self)@ == (*other)@);
            }
        }
        r
    }
}

/// Whether two byte slices hold the same bytes.
fn bytes_equal(a: &[u8], b: &[u8]) -> (r: bool)
    ensures
        r == (a@ == b@),
{
    if a.len() != b.len() {
        return false;
    }
    let n = a.len();
    let mut i: usize = 0;
    while i < n
        invariant
            i <= n,
            n == a@.len(),
            n == b@.len(),
            forall|j: int| 0 <= j < i ==> a@[j] == b@[j],
        decreases n - i,
    {
        if *slice_index_get(a, i) != *slice_index_get(b, i) {
            return false;
        }
        i = i + 1;
    }
    proof {
        assert(a@ =~= b@);
    }
    true
}

/// The basic operations of a key-value cache.
pub trait CacheStorage<K, V> {
    /// Looks a key up; a hit counts as a use of the entry.
    fn get(&mut self, key: &K) -> Option<&V>;

    /// Inserts or updates an entry, evicting the least recently used one
    /// when a new key does not fit.
    fn put(&mut self, key: K, value: V);
}

/// Relies on std::io::Error, the error type of file reads and writes; the
/// library never constructs or inspects one, it only carries the type in
/// the persistence trait's signatures.
#[verifier::external_type_specification]
#[verifier::external_body]
pub struct ExIoError(std::io::Error);

/// The persistence operations of a cache.  No type of this library
/// implements them: performing file input and output is the embedding
/// program's part, built on the verified rendering and parsing of
/// [`crate::storage::file::FileStorage`].
pub trait PersistentStorage<K, V>: Sized {
    /// Writes a snapshot of the cache to the file at `path`.
    fn save_to_file(&self, path: &str) -> Result<(), std::io::Error>;

    /// Rebuilds a cache of the given capacity from the file at `path`.
    fn load_from_file(path: &str, capacity: usize) -> Result<Self, std::io::Error>;
}

} // verus!
