//! A minimal perfect hash table over a fixed set of string keys.
//!
//! `Table::new` places each key of a duplicate-free list in its own slot of a
//! table whose size is the next power of two above the key count, and
//! `Table::query` gives back the key's position in that list in constant time.
pub mod construct;
pub mod hash;
pub mod lemmas;
pub mod mix;
pub mod seed;
pub mod table;
