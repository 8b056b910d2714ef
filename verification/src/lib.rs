//! A fixed-capacity key-value cache that evicts the least-recently-used entry.
//!
//! [`LruCache`] offers `new`, `get` and `put`. Both `get` and `put` make the
//! key they touch the most-recently-used one; a `put` of a new key into a
//! full cache first evicts the key that was touched longest ago.
//!
//! The contracts speak of a cache as the sequence of its entries in recency
//! order. [`model`] defines what the operations do to that sequence,
//! [`laws`] proves what follows for single operations, and [`history`] what
//! follows for any sequence of them: the entries always stand in the order
//! in which their keys were last touched.

pub mod cache;
pub mod history;
pub mod laws;
pub mod model;

pub use cache::LruCache;
