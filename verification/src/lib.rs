//! An associative container mapping unique keys to values, built from first
//! principles as an open-hashing table with separate chaining.
//!
//! The table keeps a growable array of buckets, each holding a chain of
//! key/value entries.  A key's bucket is its 64-bit digest taken modulo the
//! bucket count; the bucket count is a power of two that doubles whenever the
//! load factor crosses three quarters.  Every operation is specified against
//! a mathematical view of the table as a finite map from key content to
//! values, and verified to maintain that view.
//!
//! Hashing is a capability of the key type, described by the [`HashKey`]
//! trait: a deterministic 64-bit digest together with an equality test, both
//! specified against the key's abstract content.

mod key;
mod table;

pub use key::HashKey;
pub use key::str_content_hash;
pub use key::u64_digest;
pub use key::u64_le_bytes;
pub use table::HashMap;
pub use table::Iter;
pub use table::chain_has_key;
pub use table::chain_index_of;
pub use table::chain_keys_distinct;
pub use table::is_pow2;
pub use table::lemma_count_tracks_operations;
pub use table::lemma_empty_absent;
pub use table::lemma_insert_round_trip;
pub use table::lemma_insert_update;
pub use table::lemma_remove_inserted;
pub use table::tail_entries;
