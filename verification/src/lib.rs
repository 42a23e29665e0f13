//! LexoRank: totally-ordered, string-comparable ranking keys.
//!
//! A rank is a non-empty string over the alphabet `0-9a-z` that does not end
//! in `'0'`; ranks compare lexicographically, so a client can insert an item
//! between any two others by picking a rank between theirs, without
//! renumbering the rest. A bucket is a cyclic selector over `{0, 1, 2}` used
//! to namespace ranks during a rebalance. A `LexoRank` pairs the two and
//! serializes as `"<bucket>|<rank>"`.

pub mod bucket;
pub mod error;
pub mod lexorank;
pub mod order;
pub mod value;

pub use bucket::LexBucket;
pub use bucket::LexBucket as Bucket;
pub use error::ParseError;
pub use lexorank::LexoRank;
pub use value::LexValue;
pub use value::LexValue as Rank;
pub use value::{decrement_char, increment_char};
