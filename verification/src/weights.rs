//! The weight model.
//!
//! The host budgets every operation by an abstract compute cost.  The
//! per-operation figures come from a benchmark of the host and are
//! supplied through this trait; the unit implementation carries the flat
//! figures used by the tests.

use vstd::prelude::*;

verus! {

/// The per-operation weight figures of this subsystem.
pub trait WeightInfo {
    /// The declared cost of processing one top key of `x` bytes.
    spec fn process_top_key_spec(x: u32) -> u64;

    /// The declared overhead of a witnessed continuation.
    spec fn continue_migrate_spec() -> u64;

    /// The cost charged for a continuation whose witness was stale.
    spec fn continue_migrate_wrong_witness_spec() -> u64;

    /// The cost of a failed custom migration.
    spec fn migrate_custom_top_fail_spec() -> u64;

    /// The cost of a successful custom migration.
    spec fn migrate_custom_top_success_spec() -> u64;

    fn process_top_key(x: u32) -> (r: u64)
        ensures
            r == Self::process_top_key_spec(x),
    ;

    fn continue_migrate() -> (r: u64)
        ensures
            r == Self::continue_migrate_spec(),
    ;

    fn continue_migrate_wrong_witness() -> (r: u64)
        ensures
            r == Self::continue_migrate_wrong_witness_spec(),
    ;

    fn migrate_custom_top_fail() -> (r: u64)
        ensures
            r == Self::migrate_custom_top_fail_spec(),
    ;

    fn migrate_custom_top_success() -> (r: u64)
        ensures
            r == Self::migrate_custom_top_success_spec(),
    ;
}

impl WeightInfo for () {
    open spec fn process_top_key_spec(x: u32) -> u64 {
        1000000
    }

    open spec fn continue_migrate_spec() -> u64 {
        1000000
    }

    open spec fn continue_migrate_wrong_witness_spec() -> u64 {
        1000000
    }

    open spec fn migrate_custom_top_fail_spec() -> u64 {
        1000000
    }

    open spec fn migrate_custom_top_success_spec() -> u64 {
        1000000
    }

    fn process_top_key(x: u32) -> (r: u64) {
        1000000
    }

    fn continue_migrate() -> (r: u64) {
        1000000
    }

    fn continue_migrate_wrong_witness() -> (r: u64) {
        1000000
    }

    fn migrate_custom_top_fail() -> (r: u64) {
        1000000
    }

    fn migrate_custom_top_success() -> (r: u64) {
        1000000
    }
}

} // verus!
