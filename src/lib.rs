//! An insertion-ordered hash map built on a slot arena, and a least-recently-used
//! cache built on top of it.
use vstd::prelude::*;

mod slot;
pub mod model;
pub mod linked_hash_map;
pub mod lru_cache;

verus! {

pub use linked_hash_map::LinkedHashMap;
pub use lru_cache::LruCache;

} // verus!
