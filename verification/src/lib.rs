//! In-memory containers: an open-addressing hash table with tombstones and a
//! fixed-capacity least-recently-used cache, together with the fast two-word
//! key digest the table places its keys by.

pub mod hash;
pub mod probe;
pub mod table;
pub mod recency;
pub mod lru;
pub mod laws;

pub use crate::hash::look_up_identifier;
pub use crate::hash::AssemblyHash;
pub use crate::lru::LRUCache;
pub use crate::lru::CACHE_SIZE;
pub use crate::table::CustomHashMap;
