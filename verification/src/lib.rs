//! Block layer of a log-structured-merge key-value store: the immutable
//! encoded `Block`, the `BlockBuilder` that packs sorted entries under a
//! byte budget, and the `BlockIterator` for ordered traversal and seeking.

pub mod layout;
pub mod block;
pub mod builder;
pub mod keycmp;
pub mod iterator;
