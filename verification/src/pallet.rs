//! The externally invokable operations.
//!
//! Three entry points drive the migration: a privileged switch for the
//! automatic per-tick scheduler, a witnessed continuation open to any
//! signed caller, and two custom-key repairs that work outside the
//! persisted cursor.  The signed operations post a deposit and are
//! slashed for it when the size they declared was wrong.

use vstd::prelude::*;

use crate::balances::{free_of, slashed, Balances};
use crate::keys::{child_id, child_io_key, is_child_root};
use crate::machine::{run_outcome, run_ticks};
use crate::store::{child_table, has_key, value_of, Store, Touch};
use crate::task::{MigrationCompute, MigrationLimits, MigrationTask, TaskModel};
use crate::weights::WeightInfo;

verus! {

/// Where a call came from.
#[derive(Clone, Copy, Debug, PartialEq, Eq)]
pub enum Origin {
    /// The privileged control origin.
    Root,
    /// A signed caller.
    Signed(u64),
}

/// The signer behind an origin, if any.
pub open spec fn origin_signer(o: Origin) -> Option<u64> {
    match o {
        Origin::Signed(who) => Some(who),
        Origin::Root => None,
    }
}

/// Why an operation failed.
#[derive(Clone, Copy, Debug, PartialEq, Eq, Structural)]
pub enum MigrationError {
    /// The call needed another origin.
    BadOrigin,
    /// Signed limits exceed the configured maximum.
    LimitsTooLarge,
    /// The caller cannot cover the deposit.
    InsufficientFunds,
    /// The witnessed cursor is not the persisted cursor.
    WrongWitness,
    /// The declared size did not cover the work performed.
    WrongWitnessData,
    /// A custom child operation named an ill-formed child root.
    BadChildKey,
}

/// Whether the caller pays the fee for the call.
#[derive(Clone, Copy, Debug, PartialEq, Eq, Structural)]
pub enum Pays {
    Yes,
    No,
}

/// What a finished call reports back for budget accounting.
#[derive(Clone, Copy, Debug, PartialEq, Eq)]
pub struct PostInfo {
    /// The weight actually spent, when it undercuts the declared one.
    pub actual_weight: Option<u64>,
    /// The fee policy of the call.
    pub pays_fee: Pays,
}

/// An error together with its accounting information.
#[derive(Clone, Copy, Debug, PartialEq, Eq)]
pub struct ErrorWithPost {
    pub error: MigrationError,
    pub post: PostInfo,
}

/// What an operation reports to observers.
#[derive(Clone, Copy, Debug, PartialEq, Eq, Structural)]
pub enum Event {
    /// So many top and child keys were migrated, under this compute.
    Migrated { top: u32, child: u32, compute: MigrationCompute },
    /// An account was slashed by the given amount.
    Slashed { who: u64, amount: u64 },
}

/// `a * b`, capped at the largest representable value.
pub open spec fn sat_mul64(a: u64, b: u64) -> u64 {
    if a * b > u64::MAX {
        u64::MAX
    } else {
        (a * b) as u64
    }
}

/// Compute `a * b`, capped at the largest representable value.
pub fn sat_mul64_exec(a: u64, b: u64) -> (r: u64)
    ensures
        r == sat_mul64(a, b),
{
    match a.checked_mul(b) {
        Some(v) => v,
        None => u64::MAX,
    }
}

/// Limits small enough for a signed continuation.
pub open spec fn limits_within(limits: MigrationLimits, max: MigrationLimits) -> bool {
    limits.size <= max.size && limits.item <= max.item
}

/// Whether `who` can cover `value` out of the free balance.
pub open spec fn can_slash_of(b: Seq<crate::balances::Account>, who: u64, value: u64) -> bool {
    value == 0 || free_of(b, who) >= value
}

/// The views of a list of keys.
pub open spec fn keys_model(s: Seq<Vec<u8>>) -> Seq<Seq<u8>> {
    s.map_values(|k: Vec<u8>| k@)
}

/// The bytes a touch of each listed key reads out of `tab`, accumulated
/// with capped addition; an absent key contributes nothing.
pub open spec fn keys_touch_size(tab: Seq<(Seq<u8>, Seq<u8>)>, ks: Seq<Seq<u8>>) -> u32
    decreases ks.len(),
{
    if ks.len() == 0 {
        0
    } else {
        let prev = keys_touch_size(tab, ks.drop_last());
        if has_key(tab, ks.last()) {
            prev.saturating_add(value_of(tab, ks.last()).len() as u32)
        } else {
            prev
        }
    }
}

/// The writes a touch of each listed key performs, oldest first.
pub open spec fn keys_touch_log(
    tab: Seq<(Seq<u8>, Seq<u8>)>,
    ks: Seq<Seq<u8>>,
    child: Option<Seq<u8>>,
) -> Seq<Touch>
    decreases ks.len(),
{
    if ks.len() == 0 {
        Seq::empty()
    } else {
        let prev = keys_touch_log(tab, ks.drop_last(), child);
        if has_key(tab, ks.last()) {
            prev.push(Touch { child, key: ks.last() })
        } else {
            prev
        }
    }
}

/// The migrator: the persisted cursor, the scheduler switch, the
/// host-supplied constants, and the events emitted so far.
pub struct Pallet<W: WeightInfo> {
    /// The persisted cursor; its per-run counters are always zero here.
    pub migration_process: MigrationTask,
    /// The limits of the automatic scheduler; `None` leaves it idle.
    pub auto_limits: Option<MigrationLimits>,
    /// The deposit collected per item of a signed migration.
    pub signed_deposit_per_item: u64,
    /// The flat part of the deposit of a custom migration.
    pub signed_deposit_base: u64,
    /// The largest limits a signed continuation may use.
    pub signed_migration_max_limits: MigrationLimits,
    /// The cost of one storage read.
    pub db_read_weight: u64,
    /// The cost of one storage write.
    pub db_write_weight: u64,
    /// The events emitted so far, oldest first.
    pub events: Vec<Event>,
    pub _weights: core::marker::PhantomData<W>,
}

/// The host-supplied constants never change.
pub open spec fn same_config<W: WeightInfo>(a: Pallet<W>, b: Pallet<W>) -> bool {
    &&& a.signed_deposit_per_item == b.signed_deposit_per_item
    &&& a.signed_deposit_base == b.signed_deposit_base
    &&& a.signed_migration_max_limits == b.signed_migration_max_limits
    &&& a.db_read_weight == b.db_read_weight
    &&& a.db_write_weight == b.db_write_weight
}

/// Cursor, scheduler switch and event list all agree.
pub open spec fn same_state<W: WeightInfo>(a: Pallet<W>, b: Pallet<W>) -> bool {
    &&& a.migration_process@ == b.migration_process@
    &&& a.auto_limits == b.auto_limits
    &&& a.events@ == b.events@
}

impl<W: WeightInfo> Pallet<W> {
    /// A stored cursor is well formed and carries no per-run counts.
    pub open spec fn wf(&self) -> bool {
        &&& self.migration_process@.wf()
        &&& self.migration_process@.dyn_top_items == 0
        &&& self.migration_process@.dyn_child_items == 0
        &&& self.migration_process@.dyn_size == 0
    }

    /// The abstract cost of touching `items` keys of `size` bytes in
    /// all: one read and one write per item, plus the per-byte term of
    /// the benchmark curve.
    pub open spec fn dynamic_weight_spec(&self, items: u32, size: u32) -> u64 {
        sat_mul64(
            items as u64,
            self.db_read_weight.saturating_add(self.db_write_weight),
        ).saturating_add(W::process_top_key_spec(size))
    }

    /// The deposit of a witnessed continuation.
    pub open spec fn continue_deposit(&self, limits: MigrationLimits) -> u64 {
        sat_mul64(self.signed_deposit_per_item, limits.item as u64)
    }

    /// The deposit of a custom migration over `n` keys.
    pub open spec fn custom_deposit(&self, n: int) -> u64 {
        self.signed_deposit_base.saturating_add(
            sat_mul64(self.signed_deposit_per_item, n as u64),
        )
    }

    /// A migrator with a fresh cursor, an idle scheduler and the given
    /// host constants.
    pub fn new(
        signed_deposit_per_item: u64,
        signed_deposit_base: u64,
        signed_migration_max_limits: MigrationLimits,
        db_read_weight: u64,
        db_write_weight: u64,
    ) -> (r: Pallet<W>)
        ensures
            r.wf(),
            r.migration_process@ == TaskModel::init(),
            r.auto_limits is None,
            r.events@.len() == 0,
            r.signed_deposit_per_item == signed_deposit_per_item,
            r.signed_deposit_base == signed_deposit_base,
            r.signed_migration_max_limits == signed_migration_max_limits,
            r.db_read_weight == db_read_weight,
            r.db_write_weight == db_write_weight,
    {
        Pallet {
            migration_process: MigrationTask::default(),
            auto_limits: None,
            signed_deposit_per_item,
            signed_deposit_base,
            signed_migration_max_limits,
            db_read_weight,
            db_write_weight,
            events: Vec::new(),
            _weights: core::marker::PhantomData,
        }
    }

    /// The real weight of a migration of `items` keys with total `size`.
    pub fn dynamic_weight(&self, items: u32, size: u32) -> (r: u64)
        ensures
            r == self.dynamic_weight_spec(items, size),
    {
        let per_item = self.db_read_weight.saturating_add(self.db_write_weight);
        sat_mul64_exec(items as u64, per_item).saturating_add(W::process_top_key(size))
    }

    /// Stop the automatic scheduler; the cursor stays as it is.
    pub fn halt(&mut self)
        ensures
            final(self).auto_limits is None,
            final(self).migration_process@ == old(self).migration_process@,
            final(self).events@ == old(self).events@,
            same_config(*final(self), *old(self)),
            old(self).wf() ==> final(self).wf(),
    {
        self.auto_limits = None;
    }

    /// Set or clear the limits of the automatic scheduler.  Only the
    /// privileged origin may call this.
    pub fn control_auto_migration(
        &mut self,
        origin: Origin,
        maybe_limits: Option<MigrationLimits>,
    ) -> (r: Result<PostInfo, ErrorWithPost>)
        ensures
            same_config(*final(self), *old(self)),
            final(self).migration_process@ == old(self).migration_process@,
            final(self).events@ == old(self).events@,
            old(self).wf() ==> final(self).wf(),
            origin != Origin::Root ==> (r matches Err(e) && e.error == MigrationError::BadOrigin)
                && final(self).auto_limits == old(self).auto_limits,
            origin == Origin::Root ==> (r matches Ok(p) && p.actual_weight is None
                && p.pays_fee == Pays::Yes) && final(self).auto_limits == maybe_limits,
    {
        match origin {
            Origin::Root => {
                self.auto_limits = maybe_limits;
                Ok(PostInfo { actual_weight: None, pays_fee: Pays::Yes })
            },
            _ => Err(
                ErrorWithPost {
                    error: MigrationError::BadOrigin,
                    post: PostInfo { actual_weight: None, pays_fee: Pays::Yes },
                },
            ),
        }
    }

    /// Continue the migration from the persisted cursor under `limits`.
    ///
    /// Any signed caller may drive the walk forward.  The caller
    /// witnesses the cursor it believes to be current — a stale witness
    /// fails the call without touching anything — and guarantees that
    /// the run reads at most `real_size_upper` bytes.  The deposit for
    /// the declared items is confiscated exactly when that guarantee
    /// breaks; an honest run is rewarded with a waived fee.  The cursor
    /// advance is persisted only on success, though the touches
    /// themselves stand either way: a touch never changes any value.
    pub fn continue_migrate(
        &mut self,
        origin: Origin,
        limits: MigrationLimits,
        real_size_upper: u32,
        witness_task: MigrationTask,
        store: &mut Store,
        balances: &mut Balances,
    ) -> (r: Result<PostInfo, ErrorWithPost>)
        requires
            old(self).wf(),
            old(store).wf(),
            old(balances).wf(),
        ensures
            same_config(*final(self), *old(self)),
            final(self).wf(),
            final(self).auto_limits == old(self).auto_limits,
            final(store).wf(),
            final(store)@ == old(store)@,
            final(balances).wf(),
            (origin_signer(origin) is None) ==> ((r matches Err(e)
                && e.error == MigrationError::BadOrigin) && same_state(*final(self), *old(self))
                && final(store).log() == old(store).log() && final(balances)@ == old(balances)@),
            (origin_signer(origin) is Some && !limits_within(
                limits,
                old(self).signed_migration_max_limits,
            )) ==> ((r matches Err(e) && e.error == MigrationError::LimitsTooLarge) && same_state(
                *final(self),
                *old(self),
            ) && final(store).log() == old(store).log() && final(balances)@ == old(balances)@),
            (origin_signer(origin) is Some && limits_within(
                limits,
                old(self).signed_migration_max_limits,
            ) && !can_slash_of(
                old(balances)@,
                origin_signer(origin)->0,
                old(self).continue_deposit(limits),
            )) ==> ((r matches Err(e) && e.error == MigrationError::InsufficientFunds)
                && same_state(*final(self), *old(self)) && final(store).log() == old(store).log() && final(balances)@ == old(balances)@),
            (origin_signer(origin) is Some && limits_within(
                limits,
                old(self).signed_migration_max_limits,
            ) && can_slash_of(
                old(balances)@,
                origin_signer(origin)->0,
                old(self).continue_deposit(limits),
            ) && !old(self).migration_process@.same_progress(witness_task@)) ==> ((r matches Err(e)
                && e.error == MigrationError::WrongWitness && e.post.actual_weight == Some(
                W::continue_migrate_wrong_witness_spec(),
            ) && e.post.pays_fee == Pays::Yes) && same_state(*final(self), *old(self)) && final(store).log() == old(store).log() && final(balances)@ == old(balances)@),
            (origin_signer(origin) is Some && limits_within(
                limits,
                old(self).signed_migration_max_limits,
            ) && can_slash_of(
                old(balances)@,
                origin_signer(origin)->0,
                old(self).continue_deposit(limits),
            ) && old(self).migration_process@.same_progress(witness_task@) && (limits.item == 0
                || limits.size == 0)) ==> ((r matches Ok(p) && p.actual_weight == Some(
                old(self).dynamic_weight_spec(limits.item, 0).saturating_add(
                    W::continue_migrate_spec(),
                ),
            ) && p.pays_fee == Pays::No) && final(self).migration_process@ == old(self).migration_process@ && final(self).events@ == old(self).events@.push(
                Event::Migrated { top: 0, child: 0, compute: MigrationCompute::Signed },
            ) && final(store).log() == old(store).log() && final(balances)@ == old(balances)@),
            (origin_signer(origin) is Some && limits_within(
                limits,
                old(self).signed_migration_max_limits,
            ) && can_slash_of(
                old(balances)@,
                origin_signer(origin)->0,
                old(self).continue_deposit(limits),
            ) && old(self).migration_process@.same_progress(witness_task@) && limits.item != 0
                && limits.size != 0) ==> (exists|n: nat|
                #[trigger] run_outcome(
                    old(self).migration_process@,
                    old(store)@,
                    old(store).log(),
                    limits,
                    run_ticks(old(self).migration_process@, old(store)@, n).folded(),
                    final(store).log(),
                    n,
                ) && ({
                    let w = run_ticks(old(self).migration_process@, old(store)@, n).folded();
                    if real_size_upper < w.dyn_size {
                        // The declared size did not cover the run: the
                        // deposit is confiscated and the cursor advance
                        // is discarded.
                        ((r matches Err(e) && e.error == MigrationError::WrongWitnessData)
                            && final(balances)@ == slashed(
                            old(balances)@,
                            origin_signer(origin)->0,
                            old(self).continue_deposit(limits),
                        ) && final(self).migration_process@ == old(self).migration_process@
                            && final(self).events@ == old(self).events@)
                    } else {
                        ((r matches Ok(p) && p.actual_weight == Some(
                            old(self).dynamic_weight_spec(limits.item, w.dyn_size).saturating_add(
                                W::continue_migrate_spec(),
                            ),
                        ) && p.pays_fee == Pays::No) && final(self).migration_process@ == (
                        TaskModel {
                            dyn_top_items: 0,
                            dyn_child_items: 0,
                            dyn_size: 0,
                            ..w
                        }) && final(self).events@ == old(self).events@.push(
                            Event::Migrated {
                                top: w.dyn_top_items,
                                child: w.dyn_child_items,
                                compute: MigrationCompute::Signed,
                            },
                        ) && final(balances)@ == old(balances)@)
                    }
                })),
    {
        let who = match origin {
            Origin::Signed(w) => w,
            _ => {
                return Err(
                    ErrorWithPost {
                        error: MigrationError::BadOrigin,
                        post: PostInfo { actual_weight: None, pays_fee: Pays::Yes },
                    },
                );
            },
        };
        let max = self.signed_migration_max_limits;
        if !(limits.size <= max.size && limits.item <= max.item) {
            return Err(
                ErrorWithPost {
                    error: MigrationError::LimitsTooLarge,
                    post: PostInfo { actual_weight: None, pays_fee: Pays::Yes },
                },
            );
        }
        let deposit = sat_mul64_exec(self.signed_deposit_per_item, limits.item as u64);
        if !balances.can_slash(who, deposit) {
            return Err(
                ErrorWithPost {
                    error: MigrationError::InsufficientFunds,
                    post: PostInfo { actual_weight: None, pays_fee: Pays::Yes },
                },
            );
        }
        if !self.migration_process.same_progress(&witness_task) {
            return Err(
                ErrorWithPost {
                    error: MigrationError::WrongWitness,
                    post: PostInfo {
                        actual_weight: Some(W::continue_migrate_wrong_witness()),
                        pays_fee: Pays::Yes,
                    },
                },
            );
        }
        let ghost t0 = self.migration_process@;
        let ghost s0 = store@;
        let ghost log0 = store.log();
        let mut task = self.migration_process.duplicate();
        task.migrate_until_exhaustion(limits, store);
        proof {
            if limits.item != 0 && limits.size != 0 {
                let n = choose|n: nat|
                    run_outcome(t0, s0, log0, limits, task@, store.log(), n);
                assert(run_outcome(t0, s0, log0, limits, task@, store.log(), n));
            }
        }
        if real_size_upper < task.dyn_size {
            let _remainder = balances.slash(who, deposit);
            return Err(
                ErrorWithPost {
                    error: MigrationError::WrongWitnessData,
                    post: PostInfo { actual_weight: None, pays_fee: Pays::Yes },
                },
            );
        }
        let weight = self.dynamic_weight(limits.item, task.dyn_size).saturating_add(
            W::continue_migrate(),
        );
        self.events.push(
            Event::Migrated {
                top: task.dyn_top_items,
                child: task.dyn_child_items,
                compute: MigrationCompute::Signed,
            },
        );
        self.migration_process = task.persisted();
        proof {
            if limits.item == 0 || limits.size == 0 {
                assert(self.migration_process@ =~= t0);
            }
        }
        Ok(PostInfo { actual_weight: Some(weight), pays_fee: Pays::No })
    }

    /// Touch the listed top keys one by one, outside the persisted
    /// cursor.  Used to repair keys an earlier pass left behind.
    ///
    /// Any signed caller; the deposit covers the listed items and is
    /// confiscated when the touched bytes exceed the declared
    /// `witness_size`.
    pub fn migrate_custom_top(
        &mut self,
        origin: Origin,
        keys: Vec<Vec<u8>>,
        witness_size: u32,
        store: &mut Store,
        balances: &mut Balances,
    ) -> (r: Result<PostInfo, ErrorWithPost>)
        requires
            old(self).wf(),
            old(store).wf(),
            old(balances).wf(),
        ensures
            same_config(*final(self), *old(self)),
            final(self).wf(),
            final(self).auto_limits == old(self).auto_limits,
            final(self).migration_process@ == old(self).migration_process@,
            final(store).wf(),
            final(store)@ == old(store)@,
            final(balances).wf(),
            (origin_signer(origin) is None) ==> ((r matches Err(e)
                && e.error == MigrationError::BadOrigin) && final(self).events@ == old(self).events@ && final(store).log() == old(store).log() && final(balances)@ == old(balances)@),
            (origin_signer(origin) is Some && !can_slash_of(
                old(balances)@,
                origin_signer(origin)->0,
                old(self).custom_deposit(keys@.len() as int),
            )) ==> ((r matches Err(e) && e.error == MigrationError::InsufficientFunds) && final(self).events@ == old(self).events@ && final(store).log() == old(store).log() && final(balances)@ == old(balances)@),
            (origin_signer(origin) is Some && can_slash_of(
                old(balances)@,
                origin_signer(origin)->0,
                old(self).custom_deposit(keys@.len() as int),
            )) ==> (final(store).log() == old(store).log() + keys_touch_log(
                old(store)@.top,
                keys_model(keys@),
                None,
            ) && ({
                let dsz = keys_touch_size(old(store)@.top, keys_model(keys@));
                if dsz > witness_size {
                    // The declaration was wrong: the deposit is
                    // confiscated, with no event of its own.
                    ((r matches Err(e) && e.error == MigrationError::WrongWitnessData) && final(balances)@ == slashed(
                        old(balances)@,
                        origin_signer(origin)->0,
                        old(self).custom_deposit(keys@.len() as int),
                    ) && final(self).events@ == old(self).events@)
                } else {
                    ((r matches Ok(p) && p.actual_weight is None && p.pays_fee == Pays::Yes)
                        && final(self).events@ == old(self).events@.push(
                        Event::Migrated {
                            top: keys@.len() as u32,
                            child: 0,
                            compute: MigrationCompute::Signed,
                        },
                    ) && final(balances)@ == old(balances)@)
                }
            })),
    {
        let who = match origin {
            Origin::Signed(w) => w,
            _ => {
                return Err(
                    ErrorWithPost {
                        error: MigrationError::BadOrigin,
                        post: PostInfo { actual_weight: None, pays_fee: Pays::Yes },
                    },
                );
            },
        };
        let deposit = self.signed_deposit_base.saturating_add(
            sat_mul64_exec(self.signed_deposit_per_item, keys.len() as u64),
        );
        if !balances.can_slash(who, deposit) {
            return Err(
                ErrorWithPost {
                    error: MigrationError::InsufficientFunds,
                    post: PostInfo { actual_weight: None, pays_fee: Pays::Yes },
                },
            );
        }
        let dyn_size = touch_top_keys(store, &keys);
        if dyn_size > witness_size {
            let _remainder = balances.slash(who, deposit);
            return Err(
                ErrorWithPost {
                    error: MigrationError::WrongWitnessData,
                    post: PostInfo { actual_weight: None, pays_fee: Pays::Yes },
                },
            );
        }
        let top_count: u32 = #[verifier::truncate] (keys.len() as u32);
        self.events.push(
            Event::Migrated { top: top_count, child: 0, compute: MigrationCompute::Signed },
        );
        Ok(PostInfo { actual_weight: None, pays_fee: Pays::Yes })
    }

    /// Touch the listed keys of one child namespace, outside the
    /// persisted cursor.
    ///
    /// Any signed caller; the deposit covers the listed items.  It is
    /// confiscated when the named top key is no child root, or when the
    /// touched bytes differ from the declared `total_size` — here the
    /// declaration must be exact, not merely an upper bound.
    pub fn migrate_custom_child(
        &mut self,
        origin: Origin,
        top_key: Vec<u8>,
        child_keys: Vec<Vec<u8>>,
        total_size: u32,
        store: &mut Store,
        balances: &mut Balances,
    ) -> (r: Result<PostInfo, ErrorWithPost>)
        requires
            old(self).wf(),
            old(store).wf(),
            old(balances).wf(),
        ensures
            same_config(*final(self), *old(self)),
            final(self).wf(),
            final(self).auto_limits == old(self).auto_limits,
            final(self).migration_process@ == old(self).migration_process@,
            final(store).wf(),
            final(store)@ == old(store)@,
            final(balances).wf(),
            (origin_signer(origin) is None) ==> ((r matches Err(e)
                && e.error == MigrationError::BadOrigin) && final(self).events@ == old(self).events@ && final(store).log() == old(store).log() && final(balances)@ == old(balances)@),
            (origin_signer(origin) is Some && !can_slash_of(
                old(balances)@,
                origin_signer(origin)->0,
                old(self).custom_deposit(child_keys@.len() as int),
            )) ==> ((r matches Err(e) && e.error == MigrationError::InsufficientFunds) && final(self).events@ == old(self).events@ && final(store).log() == old(store).log() && final(balances)@ == old(balances)@),
            (origin_signer(origin) is Some && can_slash_of(
                old(balances)@,
                origin_signer(origin)->0,
                old(self).custom_deposit(child_keys@.len() as int),
            ) && !is_child_root(top_key@)) ==> ((r matches Err(e)
                && e.error == MigrationError::BadChildKey && e.post.actual_weight == Some(
                W::migrate_custom_top_fail_spec(),
            ) && e.post.pays_fee == Pays::Yes) && final(balances)@ == slashed(
                old(balances)@,
                origin_signer(origin)->0,
                old(self).custom_deposit(child_keys@.len() as int),
            ) && final(self).events@ == old(self).events@.push(
                Event::Slashed {
                    who: origin_signer(origin)->0,
                    amount: old(self).custom_deposit(child_keys@.len() as int),
                },
            ) && final(store).log() == old(store).log()),
            (origin_signer(origin) is Some && can_slash_of(
                old(balances)@,
                origin_signer(origin)->0,
                old(self).custom_deposit(child_keys@.len() as int),
            ) && is_child_root(top_key@)) ==> (final(store).log() == old(store).log()
                + keys_touch_log(
                child_table(old(store)@.children, child_id(top_key@)),
                keys_model(child_keys@),
                Some(child_id(top_key@)),
            ) && ({
                let dsz = keys_touch_size(
                    child_table(old(store)@.children, child_id(top_key@)),
                    keys_model(child_keys@),
                );
                if dsz != total_size {
                    // An inexact declaration: the deposit is confiscated
                    // and the confiscation announced.
                    ((r matches Err(e) && e.error == MigrationError::WrongWitnessData
                        && e.post.actual_weight == Some(W::migrate_custom_top_fail_spec())
                        && e.post.pays_fee == Pays::Yes) && final(balances)@ == slashed(
                        old(balances)@,
                        origin_signer(origin)->0,
                        old(self).custom_deposit(child_keys@.len() as int),
                    ) && final(self).events@ == old(self).events@.push(
                        Event::Slashed {
                            who: origin_signer(origin)->0,
                            amount: old(self).custom_deposit(child_keys@.len() as int),
                        },
                    ))
                } else {
                    ((r matches Ok(p) && p.actual_weight == Some(
                        W::migrate_custom_top_success_spec(),
                    ) && p.pays_fee == Pays::Yes) && final(self).events@ == old(self).events@.push(
                        Event::Migrated {
                            top: 0,
                            child: child_keys@.len() as u32,
                            compute: MigrationCompute::Signed,
                        },
                    ) && final(balances)@ == old(balances)@)
                }
            })),
    {
        let who = match origin {
            Origin::Signed(w) => w,
            _ => {
                return Err(
                    ErrorWithPost {
                        error: MigrationError::BadOrigin,
                        post: PostInfo { actual_weight: None, pays_fee: Pays::Yes },
                    },
                );
            },
        };
        let deposit = self.signed_deposit_base.saturating_add(
            sat_mul64_exec(self.signed_deposit_per_item, child_keys.len() as u64),
        );
        if !balances.can_slash(who, deposit) {
            return Err(
                ErrorWithPost {
                    error: MigrationError::InsufficientFunds,
                    post: PostInfo { actual_weight: None, pays_fee: Pays::Yes },
                },
            );
        }
        let id = match child_io_key(&top_key) {
            Some(id) => id,
            None => {
                let _remainder = balances.slash(who, deposit);
                self.events.push(Event::Slashed { who, amount: deposit });
                return Err(
                    ErrorWithPost {
                        error: MigrationError::BadChildKey,
                        post: PostInfo {
                            actual_weight: Some(W::migrate_custom_top_fail()),
                            pays_fee: Pays::Yes,
                        },
                    },
                );
            },
        };
        let dyn_size = touch_child_keys(store, &id, &child_keys);
        if dyn_size != total_size {
            let _remainder = balances.slash(who, deposit);
            self.events.push(Event::Slashed { who, amount: deposit });
            return Err(
                ErrorWithPost {
                    error: MigrationError::WrongWitnessData,
                    post: PostInfo {
                        actual_weight: Some(W::migrate_custom_top_fail()),
                        pays_fee: Pays::Yes,
                    },
                },
            );
        }
        let child_count: u32 = #[verifier::truncate] (child_keys.len() as u32);
        self.events.push(
            Event::Migrated { top: 0, child: child_count, compute: MigrationCompute::Signed },
        );
        Ok(
            PostInfo {
                actual_weight: Some(W::migrate_custom_top_success()),
                pays_fee: Pays::Yes,
            },
        )
    }

    /// One host tick of the automatic scheduler: with limits set, run
    /// the bounded driver and persist the advanced cursor; with none,
    /// only the lookup is charged.
    pub fn on_initialize(&mut self, store: &mut Store) -> (w: u64)
        requires
            old(self).wf(),
            old(store).wf(),
        ensures
            same_config(*final(self), *old(self)),
            final(self).wf(),
            final(self).auto_limits == old(self).auto_limits,
            final(store).wf(),
            final(store)@ == old(store)@,
            (old(self).auto_limits is None) ==> (w == old(self).db_read_weight && same_state(
                *final(self),
                *old(self),
            ) && final(store).log() == old(store).log()),
            (old(self).auto_limits is Some && (old(self).auto_limits->0.item == 0 || old(self).auto_limits->0.size == 0)) ==> (w == old(self).dynamic_weight_spec(0, 0) && final(self).migration_process@ == old(self).migration_process@ && final(self).events@ == old(self).events@.push(
                Event::Migrated { top: 0, child: 0, compute: MigrationCompute::Auto },
            ) && final(store).log() == old(store).log()),
            (old(self).auto_limits is Some && old(self).auto_limits->0.item != 0 && old(self).auto_limits->0.size != 0) ==> (exists|n: nat|
                #[trigger] run_outcome(
                    old(self).migration_process@,
                    old(store)@,
                    old(store).log(),
                    old(self).auto_limits->0,
                    run_ticks(old(self).migration_process@, old(store)@, n).folded(),
                    final(store).log(),
                    n,
                ) && ({
                    let fw = run_ticks(old(self).migration_process@, old(store)@, n).folded();
                    w == old(self).dynamic_weight_spec(fw.dyn_total(), fw.dyn_size) && final(self).migration_process@ == (TaskModel {
                        dyn_top_items: 0,
                        dyn_child_items: 0,
                        dyn_size: 0,
                        ..fw
                    }) && final(self).events@ == old(self).events@.push(
                        Event::Migrated {
                            top: fw.dyn_top_items,
                            child: fw.dyn_child_items,
                            compute: MigrationCompute::Auto,
                        },
                    )
                })),
    {
        match self.auto_limits {
            Some(limits) => {
                let ghost t0 = self.migration_process@;
                let ghost s0 = store@;
                let ghost log0 = store.log();
                let mut task = self.migration_process.duplicate();
                task.migrate_until_exhaustion(limits, store);
                proof {
                    if limits.item != 0 && limits.size != 0 {
                        let n = choose|n: nat|
                            run_outcome(t0, s0, log0, limits, task@, store.log(), n);
                        assert(run_outcome(t0, s0, log0, limits, task@, store.log(), n));
                    }
                }
                let weight = self.dynamic_weight(task.dyn_total_items(), task.dyn_size);
                self.events.push(
                    Event::Migrated {
                        top: task.dyn_top_items,
                        child: task.dyn_child_items,
                        compute: MigrationCompute::Auto,
                    },
                );
                self.migration_process = task.persisted();
                proof {
                    if limits.item == 0 || limits.size == 0 {
                        assert(self.migration_process@ =~= t0);
                    }
                }
                weight
            },
            None => self.db_read_weight,
        }
    }
}

/// Touch each listed top key in order: read it and, when present, write
/// the same value back.
fn touch_top_keys(store: &mut Store, keys: &Vec<Vec<u8>>) -> (dyn_size: u32)
    requires
        old(store).wf(),
    ensures
        final(store).wf(),
        final(store)@ == old(store)@,
        dyn_size == keys_touch_size(old(store)@.top, keys_model(keys@)),
        final(store).log() == old(store).log() + keys_touch_log(
            old(store)@.top,
            keys_model(keys@),
            None,
        ),
{
    let ghost s0 = store@;
    let ghost log0 = store.log();
    let ghost ks = keys_model(keys@);
    let mut dyn_size: u32 = 0;
    let n = keys.len();
    let mut i: usize = 0;
    proof {
        assert(ks.subrange(0, 0) =~= Seq::<Seq<u8>>::empty());
        assert(store.log() =~= log0 + keys_touch_log(s0.top, ks.subrange(0, 0), None));
    }
    while i < n
        invariant
            store.wf(),
            store@ == s0,
            n == keys@.len(),
            ks == keys_model(keys@),
            0 <= i <= n,
            dyn_size == keys_touch_size(s0.top, ks.subrange(0, i as int)),
            store.log() == log0 + keys_touch_log(s0.top, ks.subrange(0, i as int), None),
        decreases n - i,
    {
        let key = &keys[i];
        proof {
            assert(ks.subrange(0, i + 1).drop_last() =~= ks.subrange(0, i as int));
            assert(ks.subrange(0, i + 1).last() == key@);
        }
        match store.top_get(key) {
            Some(data) => {
                let added: u32 = #[verifier::truncate] (data.len() as u32);
                dyn_size = dyn_size.saturating_add(added);
                store.top_set(key, data);
                proof {
                    crate::store::lemma_table_set_same(s0.top, key@);
                    assert(store@ =~= s0);
                    assert(store.log() =~= log0 + keys_touch_log(
                        s0.top,
                        ks.subrange(0, i + 1),
                        None,
                    ));
                }
            },
            None => {},
        }
        i = i + 1;
    }
    proof {
        assert(ks.subrange(0, n as int) =~= ks);
    }
    dyn_size
}

/// Touch each listed key of the child namespace named `id` in order:
/// read it and, when present, write the same value back.
fn touch_child_keys(store: &mut Store, id: &Vec<u8>, keys: &Vec<Vec<u8>>) -> (dyn_size: u32)
    requires
        old(store).wf(),
    ensures
        final(store).wf(),
        final(store)@ == old(store)@,
        dyn_size == keys_touch_size(child_table(old(store)@.children, id@), keys_model(keys@)),
        final(store).log() == old(store).log() + keys_touch_log(
            child_table(old(store)@.children, id@),
            keys_model(keys@),
            Some(id@),
        ),
{
    let ghost s0 = store@;
    let ghost log0 = store.log();
    let ghost ks = keys_model(keys@);
    let ghost tab = child_table(s0.children, id@);
    let mut dyn_size: u32 = 0;
    let n = keys.len();
    let mut i: usize = 0;
    proof {
        assert(ks.subrange(0, 0) =~= Seq::<Seq<u8>>::empty());
        assert(store.log() =~= log0 + keys_touch_log(tab, ks.subrange(0, 0), Some(id@)));
    }
    while i < n
        invariant
            store.wf(),
            store@ == s0,
            n == keys@.len(),
            ks == keys_model(keys@),
            tab == child_table(s0.children, id@),
            0 <= i <= n,
            dyn_size == keys_touch_size(tab, ks.subrange(0, i as int)),
            store.log() == log0 + keys_touch_log(tab, ks.subrange(0, i as int), Some(id@)),
        decreases n - i,
    {
        let key = &keys[i];
        proof {
            assert(ks.subrange(0, i + 1).drop_last() =~= ks.subrange(0, i as int));
            assert(ks.subrange(0, i + 1).last() == key@);
        }
        match store.child_get(id, key) {
            Some(data) => {
                let added: u32 = #[verifier::truncate] (data.len() as u32);
                dyn_size = dyn_size.saturating_add(added);
                store.child_set(id, key, data);
                proof {
                    crate::store::lemma_children_set_same(s0.children, id@, key@);
                    assert(store@ =~= s0);
                    assert(store.log() =~= log0 + keys_touch_log(
                        tab,
                        ks.subrange(0, i + 1),
                        Some(id@),
                    ));
                }
            },
            None => {},
        }
        i = i + 1;
    }
    proof {
        assert(ks.subrange(0, n as int) =~= ks);
    }
    dyn_size
}

} // verus!
