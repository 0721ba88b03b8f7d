//! A separate-chaining hash map with a pluggable hashing capability.
//!
//! The table keeps `String` keys in per-bucket chains, grows by doubling
//! once the load factor (7/10) is exceeded, and is generic over the
//! strategy that reduces a key to an integer digest.

pub mod hash_strategy;
pub mod table;
