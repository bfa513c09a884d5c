//! A Lua-style associative table: one key-to-value mapping split between a
//! dense array part for the keys `1..=n` and a hashed map part for the rest,
//! with a border search for the length operator and stateless iteration.

pub mod value;
pub mod key;
pub mod buckets;
pub mod entries;
pub mod table;
pub mod laws;
