//! The migration cursor and the one-key tick step.
//!
//! A tick processes at most one entry of the store: it reads the value
//! under the cursor, writes the same value back (the *touch*) and moves
//! the cursor to the next key.  Crossing into and out of a child
//! namespace takes two extra ticks: a probe tick on the way in and a
//! rewrite of the child-root top key on the way out.

use vstd::prelude::*;

use crate::keys::{child_id, child_io_key, is_child_root, is_child_root_key};
use crate::machine::{
    child_rank, lemma_tick_decreases, phase_rank, run_log, run_outcome, run_ticks, top_rank,
};
use crate::order::{key_clone, opt_key_clone, opt_key_eq};
use crate::store::{
    child_table, has_key, next_key_of, table_set, value_of, Store, StoreModel, Touch,
};

verus! {

/// The limits of one bounded run: a byte-size limit and an item limit.
#[derive(Clone, Copy, Debug, PartialEq, Eq, Structural)]
pub struct MigrationLimits {
    /// The byte size limit.
    pub size: u32,
    /// The number of keys limit.
    pub item: u32,
}

/// How a run of the migration was initiated.
#[derive(Clone, Copy, Debug, PartialEq, Eq, Structural)]
pub enum MigrationCompute {
    /// A signed caller triggered the migration.
    Signed,
    /// The automatic per-tick scheduler triggered the migration.
    Auto,
}

/// The mathematical value of a cursor.
#[verifier::ext_equal]
pub struct TaskModel {
    pub current_top: Option<Seq<u8>>,
    pub current_child: Option<Seq<u8>>,
    pub prev_tick_child: bool,
    pub dyn_top_items: u32,
    pub dyn_child_items: u32,
    pub dyn_size: u32,
    pub size: u32,
    pub top_items: u32,
    pub child_items: u32,
}

/// The view of an optional byte key.
pub open spec fn opt_view(o: Option<Vec<u8>>) -> Option<Seq<u8>> {
    match o {
        Some(v) => Some(v@),
        None => None,
    }
}

impl TaskModel {
    /// The freshly initialised cursor: the walk starts at the empty top
    /// key, which precedes every real key.
    pub open spec fn init() -> TaskModel {
        TaskModel {
            current_top: Some(Seq::empty()),
            current_child: None,
            prev_tick_child: false,
            dyn_top_items: 0,
            dyn_child_items: 0,
            dyn_size: 0,
            size: 0,
            top_items: 0,
            child_items: 0,
        }
    }

    /// The cursor invariants: an absent top key ends the walk outright, a
    /// child cursor or a set child marker can only point below a
    /// child-root top key.
    pub open spec fn wf(self) -> bool {
        &&& (self.current_top is None ==> self.current_child is None)
        &&& (self.current_child is Some ==> self.current_top is Some && is_child_root(
            self.current_top->0,
        ))
        &&& (self.prev_tick_child && self.current_top is Some ==> is_child_root(
            self.current_top->0,
        ))
    }

    /// No key is left to process.
    pub open spec fn finished(self) -> bool {
        self.current_top is None && self.current_child is None
    }

    /// The persisted fields of two cursors agree; the ephemeral counters
    /// are not compared.
    pub open spec fn same_progress(self, other: TaskModel) -> bool {
        &&& self.current_top == other.current_top
        &&& self.current_child == other.current_child
        &&& self.prev_tick_child == other.prev_tick_child
        &&& self.size == other.size
        &&& self.top_items == other.top_items
        &&& self.child_items == other.child_items
    }

    /// The cursor with the per-run counters folded into the lifetime
    /// totals.
    pub open spec fn folded(self) -> TaskModel {
        TaskModel {
            size: self.size.saturating_add(self.dyn_size),
            top_items: self.top_items.saturating_add(self.dyn_top_items),
            child_items: self.child_items.saturating_add(self.dyn_child_items),
            ..self
        }
    }

    /// The total number of keys processed in this run.
    pub open spec fn dyn_total(self) -> u32 {
        self.dyn_child_items.saturating_add(self.dyn_top_items)
    }
}

/// The namespace id a tick works in: the id named by the top key, or the
/// empty id a tick falls back to after signalling that the top key is no
/// child root.
pub open spec fn step_child_id(top: Seq<u8>) -> Seq<u8> {
    if is_child_root(top) {
        child_id(top)
    } else {
        Seq::empty()
    }
}

/// The cursor after touching the current top key and advancing.
pub open spec fn top_step(t: TaskModel, s: StoreModel) -> TaskModel {
    let top = t.current_top->0;
    TaskModel {
        current_top: next_key_of(s.top, top),
        dyn_top_items: t.dyn_top_items.saturating_add(1),
        dyn_size: if has_key(s.top, top) {
            t.dyn_size.saturating_add(value_of(s.top, top).len() as u32)
        } else {
            t.dyn_size
        },
        ..t
    }
}

/// The touch performed by [`top_step`], if any.
pub open spec fn top_step_touch(t: TaskModel, s: StoreModel) -> Option<Touch> {
    let top = t.current_top->0;
    if has_key(s.top, top) {
        Some(Touch { child: None, key: top })
    } else {
        None
    }
}

/// The cursor after touching the current child key and advancing within
/// the child namespace.
pub open spec fn child_step(t: TaskModel, s: StoreModel) -> TaskModel {
    let id = step_child_id(t.current_top->0);
    let tab = child_table(s.children, id);
    let child = t.current_child->0;
    TaskModel {
        current_child: next_key_of(tab, child),
        dyn_child_items: t.dyn_child_items.saturating_add(1),
        dyn_size: if has_key(tab, child) {
            t.dyn_size.saturating_add(value_of(tab, child).len() as u32)
        } else {
            t.dyn_size
        },
        ..t
    }
}

/// The touch performed by [`child_step`], if any.
pub open spec fn child_step_touch(t: TaskModel, s: StoreModel) -> Option<Touch> {
    let id = step_child_id(t.current_top->0);
    let tab = child_table(s.children, id);
    let child = t.current_child->0;
    if has_key(tab, child) {
        Some(Touch { child: Some(id), key: child })
    } else {
        None
    }
}

/// The cursor after the descent probe: the child cursor moves to the
/// first child key after the empty one, and the child marker is set.  No
/// value is rewritten and no counter moves.
pub open spec fn descend_step(t: TaskModel, s: StoreModel) -> TaskModel {
    let id = step_child_id(t.current_top->0);
    let tab = child_table(s.children, id);
    TaskModel { current_child: next_key_of(tab, Seq::empty()), prev_tick_child: true, ..t }
}

/// The cursor after one tick against store `s`.
pub open spec fn tick_spec(t: TaskModel, s: StoreModel) -> TaskModel {
    match (t.current_top, t.current_child) {
        (Some(top), Some(_)) => child_step(t, s),
        (Some(top), None) => {
            if is_child_root(top) {
                if t.prev_tick_child {
                    top_step(TaskModel { prev_tick_child: false, ..t }, s)
                } else {
                    descend_step(t, s)
                }
            } else {
                if t.prev_tick_child {
                    t
                } else {
                    top_step(t, s)
                }
            }
        },
        (None, _) => t,
    }
}

/// The touch performed by one tick, if any.
pub open spec fn tick_touch(t: TaskModel, s: StoreModel) -> Option<Touch> {
    match (t.current_top, t.current_child) {
        (Some(top), Some(_)) => child_step_touch(t, s),
        (Some(top), None) => {
            if is_child_root(top) {
                if t.prev_tick_child {
                    top_step_touch(TaskModel { prev_tick_child: false, ..t }, s)
                } else {
                    None
                }
            } else {
                if t.prev_tick_child {
                    None
                } else {
                    top_step_touch(t, s)
                }
            }
        },
        (None, _) => None,
    }
}

/// A tick signals a structural error: the cursor is in a state the walk
/// can never reach on its own.
pub open spec fn tick_halts(t: TaskModel, s: StoreModel) -> bool {
    match (t.current_top, t.current_child) {
        (Some(top), Some(_)) => !is_child_root(top),
        (Some(top), None) => !is_child_root(top) && t.prev_tick_child,
        (None, Some(_)) => true,
        (None, None) => false,
    }
}

/// The bounded run must stop: the walk is complete, or one of the two
/// limits is reached.
pub open spec fn exhausted_spec(t: TaskModel, limits: MigrationLimits) -> bool {
    t.current_top is None || t.dyn_total() >= limits.item || t.dyn_size >= limits.size
}

/// An optional touch as a log fragment.
pub open spec fn opt_to_seq(o: Option<Touch>) -> Seq<Touch> {
    match o {
        Some(t) => seq![t],
        None => Seq::empty(),
    }
}

/// The persisted migration cursor, together with the per-run counters.
///
/// `current_top`, `current_child`, `prev_tick_child` and the lifetime
/// totals `size`, `top_items` and `child_items` are persisted between
/// runs; the `dyn_*` counters belong to the present run only and are
/// zeroed whenever the cursor is persisted.
#[derive(Clone, Debug, PartialEq, Eq)]
pub struct MigrationTask {
    /// The next top key to process, or `None` when the walk is complete.
    pub current_top: Option<Vec<u8>>,
    /// The next child key to process below `current_top`, when a child
    /// descent is active.
    pub current_child: Option<Vec<u8>>,
    /// Whether the previous tick worked inside a child namespace.
    pub prev_tick_child: bool,
    /// Top keys processed in this run.
    pub dyn_top_items: u32,
    /// Child keys processed in this run.
    pub dyn_child_items: u32,
    /// Bytes read in this run.
    pub dyn_size: u32,
    /// Bytes read over the whole migration.
    pub size: u32,
    /// Top keys processed over the whole migration.
    pub top_items: u32,
    /// Child keys processed over the whole migration.
    pub child_items: u32,
}

impl View for MigrationTask {
    type V = TaskModel;

    open spec fn view(&self) -> TaskModel {
        TaskModel {
            current_top: opt_view(self.current_top),
            current_child: opt_view(self.current_child),
            prev_tick_child: self.prev_tick_child,
            dyn_top_items: self.dyn_top_items,
            dyn_child_items: self.dyn_child_items,
            dyn_size: self.dyn_size,
            size: self.size,
            top_items: self.top_items,
            child_items: self.child_items,
        }
    }
}

impl Default for MigrationTask {
    /// The cursor a migration starts from.
    fn default() -> (r: MigrationTask)
        ensures
            r@ == TaskModel::init(),
    {
        let r = MigrationTask {
            current_top: Some(Vec::new()),
            current_child: None,
            prev_tick_child: false,
            dyn_top_items: 0,
            dyn_child_items: 0,
            dyn_size: 0,
            size: 0,
            top_items: 0,
            child_items: 0,
        };
        proof {
            assert(r@ =~= TaskModel::init());
        }
        r
    }
}

impl MigrationTask {
    /// A field-for-field copy.
    pub fn duplicate(&self) -> (r: MigrationTask)
        ensures
            r@ == self@,
    {
        let r = MigrationTask {
            current_top: opt_key_clone(&self.current_top),
            current_child: opt_key_clone(&self.current_child),
            prev_tick_child: self.prev_tick_child,
            dyn_top_items: self.dyn_top_items,
            dyn_child_items: self.dyn_child_items,
            dyn_size: self.dyn_size,
            size: self.size,
            top_items: self.top_items,
            child_items: self.child_items,
        };
        proof {
            assert(r@ =~= self@);
        }
        r
    }

    /// A copy with the per-run counters zeroed, the form in which the
    /// cursor is persisted.
    pub fn persisted(&self) -> (r: MigrationTask)
        ensures
            r@ == (TaskModel { dyn_top_items: 0, dyn_child_items: 0, dyn_size: 0, ..self@ }),
    {
        let r = MigrationTask {
            current_top: opt_key_clone(&self.current_top),
            current_child: opt_key_clone(&self.current_child),
            prev_tick_child: self.prev_tick_child,
            dyn_top_items: 0,
            dyn_child_items: 0,
            dyn_size: 0,
            size: self.size,
            top_items: self.top_items,
            child_items: self.child_items,
        };
        proof {
            assert(r@ =~= TaskModel { dyn_top_items: 0, dyn_child_items: 0, dyn_size: 0, ..self@ });
        }
        r
    }

    /// Whether the walk has processed every key.
    pub fn finished(&self) -> (r: bool)
        ensures
            r == self@.finished(),
    {
        self.current_top.is_none() && self.current_child.is_none()
    }

    /// Compare the persisted fields with another cursor; the per-run
    /// counters take no part in the comparison.
    pub fn same_progress(&self, other: &MigrationTask) -> (r: bool)
        ensures
            r == self@.same_progress(other@),
    {
        opt_key_eq(&self.current_top, &other.current_top)
            && opt_key_eq(&self.current_child, &other.current_child)
            && self.prev_tick_child == other.prev_tick_child && self.size == other.size
            && self.top_items == other.top_items && self.child_items == other.child_items
    }

    /// The number of keys processed in this run.
    pub fn dyn_total_items(&self) -> (r: u32)
        ensures
            r == self@.dyn_total(),
    {
        self.dyn_child_items.saturating_add(self.dyn_top_items)
    }

    /// Touch the current top key and advance the top cursor.
    fn migrate_top(&mut self, store: &mut Store)
        requires
            old(self).current_top.is_some(),
            old(store).wf(),
        ensures
            final(store).wf(),
            final(store)@ == old(store)@,
            final(self)@ == top_step(old(self)@, old(store)@),
            final(store).log() == old(store).log() + opt_to_seq(
                top_step_touch(old(self)@, old(store)@),
            ),
    {
        let last_top = match &self.current_top {
            Some(k) => key_clone(k),
            None => Vec::new(),
        };
        match store.top_get(&last_top) {
            Some(data) => {
                let added: u32 = #[verifier::truncate] (data.len() as u32);
                self.dyn_size = self.dyn_size.saturating_add(added);
                store.top_set(&last_top, data);
                proof {
                    let m = old(store)@.top;
                    let i = crate::store::key_index(m, last_top@);
                    assert((last_top@, value_of(m, last_top@)) =~= m[i]);
                    assert(table_set(m, last_top@, value_of(m, last_top@)) =~= m);
                    assert(store@ =~= old(store)@);
                }
            },
            None => {},
        }
        self.dyn_top_items = self.dyn_top_items.saturating_add(1);
        self.current_top = store.top_next(&last_top);
        proof {
            crate::store::lemma_next_key_canon(
                old(store)@.top,
                last_top@,
                opt_view(self.current_top),
            );
            assert(self@ =~= top_step(old(self)@, old(store)@));
        }
    }

    /// Touch the current child key and advance the child cursor.
    fn migrate_child(&mut self, store: &mut Store)
        requires
            old(self).current_top.is_some(),
            old(self).current_child.is_some(),
            old(store).wf(),
        ensures
            final(store).wf(),
            final(store)@ == old(store)@,
            final(self)@ == child_step(old(self)@, old(store)@),
            final(store).log() == old(store).log() + opt_to_seq(
                child_step_touch(old(self)@, old(store)@),
            ),
    {
        let last_top = match &self.current_top {
            Some(k) => key_clone(k),
            None => Vec::new(),
        };
        let last_child = match &self.current_child {
            Some(k) => key_clone(k),
            None => Vec::new(),
        };
        let id = match child_io_key(&last_top) {
            Some(id) => id,
            None => Vec::new(),
        };
        proof {
            assert(id@ == step_child_id(old(self)@.current_top->0));
        }
        match store.child_get(&id, &last_child) {
            Some(data) => {
                let added: u32 = #[verifier::truncate] (data.len() as u32);
                self.dyn_size = self.dyn_size.saturating_add(added);
                store.child_set(&id, &last_child, data);
                proof {
                    let c = old(store)@.children;
                    let tab = child_table(c, id@);
                    let i = crate::store::key_index(tab, last_child@);
                    assert((last_child@, value_of(tab, last_child@)) =~= tab[i]);
                    assert(table_set(tab, last_child@, value_of(tab, last_child@)) =~= tab);
                    let ci = crate::store::child_index(c, id@);
                    assert((id@, table_set(tab, last_child@, value_of(tab, last_child@))) =~= c[ci]);
                    assert(crate::store::children_set(
                        c,
                        id@,
                        last_child@,
                        value_of(tab, last_child@),
                    ) =~= c);
                    assert(store@ =~= old(store)@);
                }
            },
            None => {},
        }
        self.dyn_child_items = self.dyn_child_items.saturating_add(1);
        self.current_child = store.child_next(&id, &last_child);
        proof {
            crate::store::lemma_next_key_canon(
                child_table(old(store)@.children, id@),
                last_child@,
                opt_view(self.current_child),
            );
            assert(self@ =~= child_step(old(self)@, old(store)@));
        }
    }

    /// Process at most one key: the four-way branch on the cursor shape.
    ///
    /// The returned flag reports a structural error; the caller is
    /// expected to stop the automatic scheduler when it is set.
    pub fn migrate_tick(&mut self, store: &mut Store) -> (halted: bool)
        requires
            old(store).wf(),
        ensures
            final(store).wf(),
            final(store)@ == old(store)@,
            final(self)@ == tick_spec(old(self)@, old(store)@),
            final(store).log() == old(store).log() + opt_to_seq(
                tick_touch(old(self)@, old(store)@),
            ),
            halted == tick_halts(old(self)@, old(store)@),
    {
        let has_top = self.current_top.is_some();
        let has_child = self.current_child.is_some();
        if has_top && has_child {
            let rooted = match &self.current_top {
                Some(k) => is_child_root_key(k),
                None => false,
            };
            self.migrate_child(store);
            !rooted
        } else if has_top {
            let top_key = match &self.current_top {
                Some(k) => key_clone(k),
                None => Vec::new(),
            };
            let rooted = is_child_root_key(&top_key);
            if rooted && !self.prev_tick_child {
                // Descend: probe the empty child key, then point the
                // child cursor at the first real child key.
                let id = match child_io_key(&top_key) {
                    Some(id) => id,
                    None => Vec::new(),
                };
                let empty_key: Vec<u8> = Vec::new();
                let _probe = store.child_get(&id, &empty_key);
                self.current_child = store.child_next(&id, &empty_key);
                self.prev_tick_child = true;
                proof {
                    crate::store::lemma_next_key_canon(
                        child_table(old(store)@.children, id@),
                        Seq::<u8>::empty(),
                        opt_view(self.current_child),
                    );
                    assert(self@ =~= descend_step(old(self)@, old(store)@));
                }
                false
            } else if rooted && self.prev_tick_child {
                // Ascend: the child walk is complete; rewrite the
                // child-root top key itself.
                self.prev_tick_child = false;
                proof {
                    assert(self@ =~= TaskModel { prev_tick_child: false, ..old(self)@ });
                }
                self.migrate_top(store);
                false
            } else if !rooted && !self.prev_tick_child {
                self.migrate_top(store);
                false
            } else {
                // A set child marker below a plain top key cannot arise
                // from any tick: signal the error and change nothing.
                true
            }
        } else if has_child {
            // A child cursor without a top key cannot arise from any
            // tick: signal the error and change nothing.
            true
        } else {
            false
        }
    }

    /// Whether work is left and the limits still allow another tick.
    fn exhausted(&self, limits: MigrationLimits) -> (r: bool)
        ensures
            r == exhausted_spec(self@, limits),
    {
        self.current_top.is_none() || self.dyn_total_items() >= limits.item || self.dyn_size
            >= limits.size
    }

    /// Tick until the walk completes or a limit is reached, then fold
    /// the per-run counters into the lifetime totals.
    ///
    /// With either limit zero, nothing happens at all.  Otherwise the
    /// run can stop right after the first tick that reaches the `size`
    /// limit: a value's length is unknown before its read, so `size` can
    /// be overshot by up to one value while `item` never is.
    pub fn migrate_until_exhaustion(&mut self, limits: MigrationLimits, store: &mut Store)
        requires
            old(self)@.wf(),
            old(store).wf(),
        ensures
            final(store).wf(),
            final(store)@ == old(store)@,
            final(self)@.wf(),
            (limits.item == 0 || limits.size == 0) ==> (final(self)@ == old(self)@
                && final(store).log() == old(store).log()),
            (limits.item != 0 && limits.size != 0) ==> exists|n: nat|
                #[trigger] run_outcome(
                    old(self)@,
                    old(store)@,
                    old(store).log(),
                    limits,
                    final(self)@,
                    final(store).log(),
                    n,
                ),
    {
        if limits.item == 0 || limits.size == 0 {
            // With a zero limit the very first tick would already be one
            // too many.
            return ;
        }
        let ghost t0 = self@;
        let ghost s0 = store@;
        let ghost log0 = store.log();
        let ghost mut n: nat = 0;
        loop
            invariant_except_break
                self@.wf(),
                store.wf(),
                store@ == s0,
                self@ == run_ticks(t0, s0, n),
                store.log() == log0 + run_log(t0, s0, n),
                forall|m: nat| 1 <= m <= n ==> !exhausted_spec(run_ticks(t0, s0, m), limits),
            ensures
                self@.wf(),
                store.wf(),
                store@ == s0,
                n >= 1,
                self@ == run_ticks(t0, s0, n),
                store.log() == log0 + run_log(t0, s0, n),
                exhausted_spec(self@, limits),
                forall|m: nat| 1 <= m < n ==> !exhausted_spec(run_ticks(t0, s0, m), limits),
            decreases top_rank(self@, store@), phase_rank(self@), child_rank(self@, store@),
        {
            proof {
                if !self@.finished() {
                    lemma_tick_decreases(self@, store@);
                }
            }
            // A well-formed cursor never reaches the error states, so
            // the tick's halt signal carries nothing here.
            let _halted = self.migrate_tick(store);
            proof {
                n = n + 1;
                assert(self@ == run_ticks(t0, s0, n));
                assert(store.log() =~= log0 + run_log(t0, s0, n));
            }
            if self.exhausted(limits) {
                break ;
            }
        }
        self.size = self.size.saturating_add(self.dyn_size);
        self.top_items = self.top_items.saturating_add(self.dyn_top_items);
        self.child_items = self.child_items.saturating_add(self.dyn_child_items);
        proof {
            assert(self@ =~= run_ticks(t0, s0, n).folded());
            assert(run_outcome(t0, s0, log0, limits, self@, store.log(), n));
        }
    }
}

} // verus!
