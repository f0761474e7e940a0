//! A hybrid of a bounded-popularity cache and an object pool.
//!
//! Keyed values carry a saturating "heat" that reads raise; values that are
//! displaced or handed in without a key wait in a freelist. `take` hands out
//! a value for reuse, draining the freelist first and otherwise evicting a
//! key with a CLOCK (second-chance) sweep.

mod entry;
pub mod laws;
pub mod pool;

pub use pool::PoolCache;
