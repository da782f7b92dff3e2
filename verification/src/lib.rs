//! A bounded in-memory key-value cache that evicts with the SIEVE policy.
//!
//! Entries live in a doubly linked list ordered from the most recently
//! inserted entry (the head) to the oldest one (the tail). Reading an entry
//! only sets its visited bit; the list is never reordered on access. When the
//! cache is full, a roaming hand walks from the tail towards the head, clears
//! the visited bits it passes and removes the first entry it finds unvisited.
//!
//! Every operation is specified against [`model::CacheView`], the
//! mathematical state of a cache, and proved to implement the matching
//! transition of that model.

pub mod eviction;
pub mod iter;
pub mod laws;
pub mod linked_list;
pub mod model;
pub mod node;
pub mod repr;
pub mod sieve;
pub mod types;

pub use iter::CacheIterator;
pub use model::CacheView;
pub use model::Entry;
pub use model::Operation;
pub use repr::key_model;
pub use sieve::SieveCache;
pub use types::CacheError;
pub use types::CacheStats;
