//! Bounded tables from keys to 32-bit integers.
//!
//! Three tables share one set of operations: insert, look up, remove and,
//! for two of them, ask for the oldest and the most recently written entry.
//!
//! - [`array_hash_table::ArrayHashTable`] keeps a fixed number of slots and
//!   fixed-length key buffers in arrays and resolves collisions by linear
//!   probing.
//! - [`vector_hash_table::VectorHashTable`] does the same over a vector whose
//!   size is chosen at construction, with text keys of any length.
//! - [`hash_map_hash_table::HashMapHashTable`] pairs a hash map with queues
//!   of keys, one in order of entry and one in order of last write.
//!
//! None of them grows: a table that has no room turns an insertion down.
//!
//! The probing tables are specified over sequences of slots in [`probe`] and
//! [`endpoints`]; [`laws`] and [`history`] state what follows for every such
//! table. The queue-backed table is specified in [`ordered`], and
//! [`ordered_history`] states what its endpoints mean.

pub mod array_hash_table;
pub mod digest;
pub mod endpoints;
pub mod error;
pub mod hash_map_hash_table;
pub mod history;
pub mod keys;
pub mod laws;
pub mod ordered;
pub mod ordered_history;
pub mod probe;
pub mod vector_hash_table;
