//! A read-only, layered skip-list index over a densely serialized sequence of
//! `(key, value)` pairs with strictly increasing `u64` keys.

pub mod codec;
pub mod layer;
pub mod skiplist;

pub use codec::Decodable;
pub use layer::Layer;
pub use skiplist::SkipList;
