//! A resumable migrator over a two-level key/value store.
//!
//! The store has a *top* namespace and any number of *child* namespaces,
//! each rooted at a top key carrying a well-known prefix.  The migrator
//! walks every key, reads its value and writes the same value back (a
//! "touch"), keeping a persistent cursor so that the walk can be split
//! into small bounded steps.

pub mod balances;
pub mod codec;
pub mod keys;
pub mod laws;
pub mod machine;
pub mod order;
pub mod pallet;
pub mod staking;
pub mod store;
pub mod task;
pub mod uint;
pub mod weights;

