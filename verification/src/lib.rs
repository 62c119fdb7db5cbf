//! A lazily cached, index-addressable persistent collection over a flat
//! key-value store: array-like operations whose entries live in storage,
//! with batched reads and writes reconciled at explicit flush points.

pub mod assoc;
pub mod cache;
pub mod codec;
pub mod contract;
pub mod entry;
pub mod keys;
pub mod store;
pub mod vector;

pub use keys::lookup_key;
pub use store::Store;
pub use vector::{expect_consistent_state, Error, Vector};
