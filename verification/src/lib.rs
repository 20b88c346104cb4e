//! A time-memory trade-off structure for inverting a fixed one-way hash
//! function over a bounded plaintext space: rainbow chains, a sorted chain
//! index, and a two-phase probabilistic lookup with replay-based verification.

pub mod chain;
pub mod codec;
pub mod hash;
pub mod load;
pub mod lookup;
pub mod order;
pub mod reduce;
pub mod space;
pub mod store;
pub mod table;
