//! The global laws of the walk.
//!
//! Each proof function here states one property of the tick machine
//! over every store and cursor; the per-function contracts elsewhere
//! carry the rest (a stale witness changes nothing, a confiscation
//! happens exactly on a wrong declaration, zero limits do nothing).

use vstd::prelude::*;

use crate::keys::{child_id, child_prefix, is_child_root};
use crate::machine::{
    child_rank, lemma_next_key_of_sound, lemma_tick_decreases, phase_rank, run_log, run_ticks,
    top_rank,
};
use crate::order::{
    lemma_lex_empty_least, lemma_lex_irreflexive, lemma_lex_total, lemma_lex_transitive, lex_lt,
};
use crate::store::{child_table, has_key, next_key_of, StoreModel, Touch};
use crate::task::{
    opt_to_seq, step_child_id, tick_spec, tick_touch, top_step_touch, TaskModel,
};

verus! {

/// Key order with an absent key counting as past every real one.
pub open spec fn opt_key_lt(a: Option<Seq<u8>>, b: Option<Seq<u8>>) -> bool {
    match (a, b) {
        (Some(x), Some(y)) => lex_lt(x, y),
        (Some(_), None) => true,
        (None, _) => false,
    }
}

/// The cursor pair of `a` sits strictly before that of `b`.
pub open spec fn cursor_lt(a: TaskModel, b: TaskModel) -> bool {
    ||| opt_key_lt(a.current_top, b.current_top)
    ||| (a.current_top == b.current_top && opt_key_lt(a.current_child, b.current_child))
}

/// The tick that is about to descend into a child root: it only probes,
/// so the cursor pair moves backwards into the child namespace.
pub open spec fn about_to_descend(t: TaskModel) -> bool {
    &&& t.current_top is Some
    &&& is_child_root(t.current_top->0)
    &&& !t.prev_tick_child
    &&& t.current_child is None
}

/// Cursor monotonicity: any tick other than the descent probe leaves
/// the pair `(current_top, current_child)` strictly greater — absent
/// counting as past every key — or leaves the cursor untouched.
pub proof fn lemma_tick_monotonic(t: TaskModel, s: StoreModel)
    requires
        t.wf(),
        s.wf(),
        !about_to_descend(t),
    ensures
        cursor_lt(t, tick_spec(t, s)) || tick_spec(t, s) == t,
{
    let t2 = tick_spec(t, s);
    match (t.current_top, t.current_child) {
        (Some(top), Some(c)) => {
            let tab = child_table(s.children, step_child_id(top));
            lemma_next_key_of_sound(tab, c);
        },
        (Some(top), None) => {
            if t.prev_tick_child && is_child_root(top) {
                lemma_next_key_of_sound(s.top, top);
            } else if !t.prev_tick_child && !is_child_root(top) {
                lemma_next_key_of_sound(s.top, top);
            }
        },
        (None, _) => {},
    }
}

/// Iterating from one tick later is the same as one more tick.
pub proof fn lemma_run_shift(t: TaskModel, s: StoreModel, n: nat)
    ensures
        run_ticks(t, s, n + 1) == run_ticks(tick_spec(t, s), s, n),
    decreases n,
{
    let t2 = tick_spec(t, s);
    if n == 0 {
        assert(run_ticks(t, s, 1) == tick_spec(run_ticks(t, s, 0), s));
    } else {
        lemma_run_shift(t, s, (n - 1) as nat);
        assert(run_ticks(t, s, n + 1) == tick_spec(run_ticks(t, s, n), s));
        assert(run_ticks(t2, s, n) == tick_spec(run_ticks(t2, s, (n - 1) as nat), s));
    }
}

/// Termination: from any valid cursor some finite number of ticks
/// brings the walk to its finished state.
pub proof fn lemma_termination(t: TaskModel, s: StoreModel)
    requires
        t.wf(),
        s.wf(),
    ensures
        exists|n: nat| #[trigger] run_ticks(t, s, n).finished(),
    decreases top_rank(t, s), phase_rank(t), child_rank(t, s),
{
    if t.finished() {
        assert(run_ticks(t, s, 0).finished());
    } else {
        lemma_tick_decreases(t, s);
        let t2 = tick_spec(t, s);
        lemma_termination(t2, s);
        let n2 = choose|n: nat| #[trigger] run_ticks(t2, s, n).finished();
        lemma_run_shift(t, s, n2);
        assert(run_ticks(t, s, n2 + 1).finished());
    }
}

/// Child-descent atomicity: while a descent is active — the child
/// cursor is set, or the probe into the child root is due — a tick
/// never moves the top cursor.
pub proof fn lemma_descent_keeps_top(t: TaskModel, s: StoreModel)
    requires
        t.wf(),
        s.wf(),
        t.current_child is Some || about_to_descend(t),
    ensures
        tick_spec(t, s).current_top == t.current_top,
{
}

/// A child root over an empty namespace still costs one probe tick,
/// which touches nothing, before the tick that rewrites the root key
/// itself and moves on.
pub proof fn lemma_empty_child_probe(t: TaskModel, s: StoreModel)
    requires
        t.wf(),
        s.wf(),
        about_to_descend(t),
        child_table(s.children, step_child_id(t.current_top->0)).len() == 0,
    ensures
        tick_spec(t, s) == (TaskModel { prev_tick_child: true, ..t }),
        tick_touch(t, s) is None,
        tick_spec(tick_spec(t, s), s).current_top == next_key_of(s.top, t.current_top->0),
        tick_spec(tick_spec(t, s), s).current_child is None,
        tick_touch(tick_spec(t, s), s) == top_step_touch(
            TaskModel { prev_tick_child: false, ..t },
            s,
        ),
{
    let top = t.current_top->0;
    let tab = child_table(s.children, step_child_id(top));
    lemma_next_key_of_sound(tab, Seq::empty());
    if next_key_of(tab, Seq::empty()) is Some {
        let k = next_key_of(tab, Seq::empty())->0;
        assert(has_key(tab, k));
        let i = crate::store::key_index(tab, k);
        assert(0 <= i < tab.len());
    }
    assert(tick_spec(t, s) =~= TaskModel { prev_tick_child: true, ..t });
    let t1 = tick_spec(t, s);
    assert(t1.current_top == t.current_top);
    assert(tick_spec(t1, s) == crate::task::top_step(
        TaskModel { prev_tick_child: false, ..t1 },
        s,
    ));
}

/// The child-root top key that names the namespace `id`.
pub open spec fn root_of(id: Seq<u8>) -> Seq<u8> {
    child_prefix() + id
}

/// `root_of` and `child_id` invert one another.
pub proof fn lemma_root_of(id: Seq<u8>)
    ensures
        is_child_root(root_of(id)),
        child_id(root_of(id)) == id,
{
    let r = root_of(id);
    assert(r.subrange(0, child_prefix().len() as int) =~= child_prefix());
    assert(r.skip(child_prefix().len() as int) =~= id);
}

/// A child root is the root of its own namespace id.
pub proof fn lemma_root_of_id(r: Seq<u8>)
    requires
        is_child_root(r),
    ensures
        root_of(child_id(r)) == r,
{
    assert(root_of(child_id(r)) =~= r);
}

/// The write the walk owes for every key of the store: each top key,
/// and each nonempty key of a namespace rooted in the top table.  The
/// empty child key is the one key the walk can never write: the descent
/// reads it and moves past it.
pub open spec fn expected_touch(s: StoreModel, r: Touch) -> bool {
    match r.child {
        None => has_key(s.top, r.key),
        Some(id) => has_key(s.top, root_of(id)) && has_key(child_table(s.children, id), r.key)
            && lex_lt(Seq::empty(), r.key),
    }
}

/// The walk has already passed top key `k`.
pub open spec fn top_done(t: TaskModel, k: Seq<u8>) -> bool {
    match t.current_top {
        Some(cur) => lex_lt(k, cur),
        None => true,
    }
}

/// The walk has already passed key `k` of the namespace `id`.
pub open spec fn child_done(t: TaskModel, id: Seq<u8>, k: Seq<u8>) -> bool {
    match t.current_top {
        None => true,
        Some(cur) => if lex_lt(root_of(id), cur) {
            true
        } else if root_of(id) == cur {
            match t.current_child {
                Some(cc) => lex_lt(k, cc),
                None => t.prev_tick_child,
            }
        } else {
            false
        },
    }
}

/// An owed write the walk has already performed at cursor `t`.
pub open spec fn done_touch(s: StoreModel, t: TaskModel, r: Touch) -> bool {
    match r.child {
        None => has_key(s.top, r.key) && top_done(t, r.key),
        Some(id) => has_key(s.top, root_of(id)) && has_key(child_table(s.children, id), r.key)
            && lex_lt(Seq::empty(), r.key) && child_done(t, id, r.key),
    }
}

/// No record occurs twice.
pub open spec fn no_dup(log: Seq<Touch>) -> bool {
    forall|i: int, j: int| 0 <= i < j < log.len() ==> log[i] != log[j]
}

/// What holds of a walk's log at cursor `t`: the records are exactly
/// the owed writes already passed, each occurring once.
pub open spec fn log_matches(s: StoreModel, t: TaskModel, log: Seq<Touch>) -> bool {
    &&& (forall|i: int| 0 <= i < log.len() ==> done_touch(s, t, #[trigger] log[i]))
    &&& (forall|r: Touch| done_touch(s, t, r) ==> log.contains(r))
    &&& no_dup(log)
}

/// The extra shape facts every cursor reachable from the start carries:
/// a set child cursor follows a descent, the top cursor is the starting
/// key or a real key, and a child cursor is never the empty key.
pub open spec fn walk_inv(s: StoreModel, t: TaskModel) -> bool {
    &&& t.wf()
    &&& (t.current_child is Some ==> t.prev_tick_child)
    &&& (t.current_top matches Some(cur) ==> cur == Seq::<u8>::empty() || has_key(s.top, cur))
    &&& (t.current_child matches Some(cc) ==> lex_lt(Seq::empty(), cc))
}

/// One tick keeps the shape facts and extends the log characterization
/// by exactly the write it owes at the cursor.
proof fn lemma_walk_step(s: StoreModel, t: TaskModel, log: Seq<Touch>)
    requires
        s.wf(),
        walk_inv(s, t),
        log_matches(s, t, log),
        !t.finished(),
    ensures
        walk_inv(s, tick_spec(t, s)),
        log_matches(s, tick_spec(t, s), log + opt_to_seq(tick_touch(t, s))),
{
    let t2 = tick_spec(t, s);
    let cur = t.current_top->0;
    let log2 = log + opt_to_seq(tick_touch(t, s));

    // Step 1: the cursor moves so that the owed writes grow by exactly
    // the tick's own write.
    match (t.current_top, t.current_child) {
        (Some(_), Some(cc)) => {
            // A child walk step at cc.
            let id = child_id(cur);
            let tab = child_table(s.children, id);
            lemma_root_of_id(cur);
            assert(step_child_id(cur) == id);
            lemma_next_key_of_sound(tab, cc);
            lemma_lex_irreflexive(cc);
            lemma_lex_irreflexive(cur);
            assert forall|r: Touch|
                #[trigger] done_touch(s, t2, r) implies done_touch(s, t, r) || (tick_touch(t, s)
                matches Some(nr) && r == nr) by {
                match r.child {
                    None => {},
                    Some(rid) => {
                    if root_of(rid) == cur && !done_touch(s, t, r) {
                        assert(rid == id) by {
                            lemma_root_of(rid);
                            lemma_root_of(id);
                            assert(child_id(root_of(rid)) == rid);
                        }
                        match next_key_of(tab, cc) {
                            Some(cc2) => {
                                if r.key != cc {
                                    if lex_lt(r.key, cc) {
                                        assert(done_touch(s, t, r));
                                    } else {
                                        lemma_lex_total(r.key, cc);
                                        let i = crate::store::key_index(tab, r.key);
                                        assert(0 <= i < tab.len() && tab[i].0 == r.key);
                                        assert(!lex_lt(tab[i].0, cc2));
                                        assert(!lex_lt(r.key, cc2));
                                        assert(false);
                                    }
                                } else {
                                    assert(has_key(tab, cc));
                                }
                            },
                            None => {
                                if r.key != cc {
                                    lemma_lex_total(r.key, cc);
                                    let i = crate::store::key_index(tab, r.key);
                                    assert(0 <= i < tab.len() && tab[i].0 == r.key);
                                    assert(!lex_lt(cc, tab[i].0));
                                    assert(false);
                                } else {
                                    assert(has_key(tab, cc));
                                }
                            },
                        }
                    }
                }
                }
            }
            assert forall|r: Touch|
                #[trigger] done_touch(s, t, r) implies done_touch(s, t2, r) by {
                match r.child {
                    None => {},
                    Some(rid) => {
                    if root_of(rid) == cur {
                        match next_key_of(tab, cc) {
                            Some(cc2) => {
                                if lex_lt(r.key, cc) {
                                    lemma_lex_transitive(r.key, cc, cc2);
                                }
                            },
                            None => {},
                        }
                    }
                }
                }
            }
            match tick_touch(t, s) {
                Some(nr) => {
                    assert(done_touch(s, t2, nr)) by {
                        match next_key_of(tab, cc) {
                            Some(cc2) => {},
                            None => {},
                        }
                    }
                    assert(!done_touch(s, t, nr));
                },
                None => {},
            }
            // The shape facts survive.
            match next_key_of(tab, cc) {
                Some(cc2) => {
                    assert(lex_lt(Seq::empty(), cc2)) by {
                        lemma_lex_transitive(Seq::empty(), cc, cc2);
                    }
                },
                None => {},
            }
        },
        (Some(_), None) => {
            if is_child_root(cur) && !t.prev_tick_child {
                // The descent probe: no write, and nothing new is owed.
                let id = child_id(cur);
                let tab = child_table(s.children, id);
                lemma_root_of_id(cur);
                lemma_lex_irreflexive(cur);
                lemma_next_key_of_sound(tab, Seq::empty());
                assert forall|r: Touch|
                    #[trigger] done_touch(s, t2, r) implies done_touch(s, t, r) by {
                    match r.child {
                        None => {},
                        Some(rid) => {
                        if root_of(rid) == cur && !done_touch(s, t, r) {
                            assert(rid == id) by {
                                lemma_root_of(rid);
                                lemma_root_of(id);
                            }
                            let i = crate::store::key_index(tab, r.key);
                            assert(0 <= i < tab.len() && tab[i].0 == r.key);
                            match next_key_of(tab, Seq::empty()) {
                                Some(first) => {
                                    assert(!lex_lt(tab[i].0, first));
                                    lemma_lex_total(r.key, first);
                                    if r.key == first {
                                        lemma_lex_irreflexive(first);
                                    }
                                    assert(false);
                                },
                                None => {
                                    assert(!lex_lt(Seq::empty(), tab[i].0));
                                    assert(false);
                                },
                            }
                        }
                    }
                }
                }
                assert forall|r: Touch|
                    #[trigger] done_touch(s, t, r) implies done_touch(s, t2, r) by {}
            } else if is_child_root(cur) && t.prev_tick_child {
                // Ascending: the child-root top key itself is written.
                lemma_root_of_id(cur);
                lemma_step_top(s, t, TaskModel { prev_tick_child: false, ..t }, cur);
            } else if !t.prev_tick_child {
                // A plain top key is written.
                lemma_step_top(s, t, t, cur);
            } else {
                assert(false);
            }
        },
        (None, _) => {
            assert(false);
        },
    }

    // Step 2: from the growth of the owed writes to the log shape.
    let nt = tick_touch(t, s);
    assert forall|i: int| 0 <= i < log2.len() implies done_touch(s, t2, #[trigger] log2[i]) by {
        if i < log.len() {
            assert(done_touch(s, t, log[i]));
        }
    }
    assert forall|r: Touch| done_touch(s, t2, r) implies log2.contains(r) by {
        if done_touch(s, t, r) {
            assert(log.contains(r));
            let i = choose|i: int| 0 <= i < log.len() && log[i] == r;
            assert(log2[i] == r);
        } else {
            assert(nt matches Some(nr) && r == nr);
            assert(log2[log.len() as int] == r);
        }
    }
    assert forall|i: int, j: int| 0 <= i < j < log2.len() implies log2[i] != log2[j] by {
        if j == log.len() {
            if log2[i] == log2[j] {
                assert(done_touch(s, t, log[i]));
                assert(nt matches Some(nr) && !done_touch(s, t, nr));
            }
        }
    }
}

/// The owed-write bookkeeping of one `migrate_top`-shaped tick: `tb` is
/// `t` with the child marker already cleared.
proof fn lemma_step_top(s: StoreModel, t: TaskModel, tb: TaskModel, cur: Seq<u8>)
    requires
        s.wf(),
        walk_inv(s, t),
        !t.finished(),
        t.current_top == Some(cur),
        t.current_child is None,
        tb == (TaskModel { prev_tick_child: false, ..t }),
        t.prev_tick_child ==> is_child_root(cur),
        is_child_root(cur) ==> t.prev_tick_child,
        tick_spec(t, s) == crate::task::top_step(tb, s),
        tick_touch(t, s) == top_step_touch(tb, s),
    ensures
        walk_inv(s, tick_spec(t, s)),
        forall|r: Touch|
            #[trigger] done_touch(s, tick_spec(t, s), r) ==> done_touch(s, t, r) || (tick_touch(
                t,
                s,
            ) matches Some(nr) && r == nr),
        forall|r: Touch| #[trigger] done_touch(s, t, r) ==> done_touch(s, tick_spec(t, s), r),
        (tick_touch(t, s) matches Some(nr) ==> done_touch(s, tick_spec(t, s), nr)
            && !done_touch(s, t, nr)),
{
    let t2 = tick_spec(t, s);
    lemma_next_key_of_sound(s.top, cur);
    lemma_lex_irreflexive(cur);
    assert(t2.current_top == next_key_of(s.top, cur));
    assert forall|r: Touch|
        #[trigger] done_touch(s, t2, r) implies done_touch(s, t, r) || (tick_touch(t, s)
        matches Some(nr) && r == nr) by {
        match r.child {
            None => {
                if !done_touch(s, t, r) && has_key(s.top, r.key) {
                    let i = crate::store::key_index(s.top, r.key);
                    assert(0 <= i < s.top.len() && s.top[i].0 == r.key);
                    match next_key_of(s.top, cur) {
                        Some(n2) => {
                            if r.key != cur {
                                lemma_lex_total(r.key, cur);
                                assert(lex_lt(cur, r.key));
                                assert(!lex_lt(s.top[i].0, n2));
                                assert(false);
                            }
                        },
                        None => {
                            if r.key != cur {
                                lemma_lex_total(r.key, cur);
                                assert(!lex_lt(cur, s.top[i].0));
                                assert(false);
                            }
                        },
                    }
                }
            },
            Some(rid) => {
                let root = root_of(rid);
                if !done_touch(s, t, r) && has_key(s.top, root) {
                    // The namespace below `cur` itself is complete when
                    // the marker is set; any other namespace with its
                    // root at or before `cur` was complete already.
                    let i = crate::store::key_index(s.top, root);
                    assert(0 <= i < s.top.len() && s.top[i].0 == root);
                    if root == cur {
                        lemma_root_of(rid);
                        assert(is_child_root(cur));
                        assert(t.prev_tick_child);
                        assert(done_touch(s, t, r));
                    } else {
                        lemma_lex_total(root, cur);
                        assert(lex_lt(cur, root));
                        match next_key_of(s.top, cur) {
                            Some(n2) => {
                                assert(!lex_lt(s.top[i].0, n2));
                                if root == n2 {
                                    assert(!done_touch(s, t2, r));
                                }
                                assert(false);
                            },
                            None => {
                                assert(!lex_lt(cur, s.top[i].0));
                                assert(false);
                            },
                        }
                    }
                }
            },
        }
    }
    assert forall|r: Touch| #[trigger] done_touch(s, t, r) implies done_touch(s, t2, r) by {
        match next_key_of(s.top, cur) {
            Some(n2) => {
                match r.child {
                    None => {
                        if lex_lt(r.key, cur) {
                            lemma_lex_transitive(r.key, cur, n2);
                        }
                    },
                    Some(rid) => {
                        let root = root_of(rid);
                        if lex_lt(root, cur) {
                            lemma_lex_transitive(root, cur, n2);
                        } else if root == cur {
                            assert(lex_lt(root, n2));
                        }
                    },
                }
            },
            None => {},
        }
    }
    match tick_touch(t, s) {
        Some(nr) => {
            assert(nr.child is None && nr.key == cur);
            assert(has_key(s.top, cur));
            match next_key_of(s.top, cur) {
                Some(n2) => {
                    assert(done_touch(s, t2, nr));
                },
                None => {},
            }
            assert(!done_touch(s, t, nr));
        },
        None => {},
    }
}

/// Walking to the end from any reachable cursor yields a log that holds
/// exactly the owed writes already passed plus all writes still ahead.
proof fn lemma_walk_to_end(s: StoreModel, t: TaskModel, log: Seq<Touch>)
    requires
        s.wf(),
        walk_inv(s, t),
        log_matches(s, t, log),
    ensures
        exists|n: nat|
            (#[trigger] run_ticks(t, s, n)).finished() && log_matches(
                s,
                run_ticks(t, s, n),
                log + run_log(t, s, n),
            ),
    decreases top_rank(t, s), phase_rank(t), child_rank(t, s),
{
    if t.finished() {
        assert(log + run_log(t, s, 0) =~= log);
        assert(run_ticks(t, s, 0).finished() && log_matches(
            s,
            run_ticks(t, s, 0),
            log + run_log(t, s, 0),
        ));
    } else {
        lemma_tick_decreases(t, s);
        lemma_walk_step(s, t, log);
        let t2 = tick_spec(t, s);
        let log2 = log + opt_to_seq(tick_touch(t, s));
        lemma_walk_to_end(s, t2, log2);
        let n2 = choose|n: nat|
            (#[trigger] run_ticks(t2, s, n)).finished() && log_matches(
                s,
                run_ticks(t2, s, n),
                log2 + run_log(t2, s, n),
            );
        lemma_run_shift(t, s, n2);
        lemma_run_log_shift(t, s, n2);
        assert(log + run_log(t, s, n2 + 1) =~= log2 + run_log(t2, s, n2));
        assert((#[trigger] run_ticks(t, s, n2 + 1)).finished() && log_matches(
            s,
            run_ticks(t, s, n2 + 1),
            log + run_log(t, s, n2 + 1),
        ));
    }
}

/// The log of one more tick is the first tick's write followed by the
/// rest of the run.
pub proof fn lemma_run_log_shift(t: TaskModel, s: StoreModel, n: nat)
    ensures
        run_log(t, s, n + 1) == opt_to_seq(tick_touch(t, s)) + run_log(tick_spec(t, s), s, n),
    decreases n,
{
    let t2 = tick_spec(t, s);
    if n == 0 {
        assert(run_log(t, s, 1) == run_log(t, s, 0) + opt_to_seq(tick_touch(run_ticks(t, s, 0), s)));
        assert(run_log(t, s, 1) =~= opt_to_seq(tick_touch(t, s)) + run_log(t2, s, 0));
    } else {
        lemma_run_log_shift(t, s, (n - 1) as nat);
        lemma_run_shift(t, s, (n - 1) as nat);
        assert(run_log(t, s, n + 1) == run_log(t, s, n) + opt_to_seq(
            tick_touch(run_ticks(t, s, n), s),
        ));
        assert(run_log(t2, s, n) == run_log(t2, s, (n - 1) as nat) + opt_to_seq(
            tick_touch(run_ticks(t2, s, (n - 1) as nat), s),
        ));
        assert(run_log(t, s, n + 1) =~= opt_to_seq(tick_touch(t, s)) + run_log(t2, s, n));
    }
}

/// Touch-completeness: from the initial cursor, some finite run reaches
/// the finished state having written, exactly once each, every top key
/// and every nonempty child key of every namespace rooted in the top
/// table — and nothing else.
pub proof fn lemma_touch_completeness(s: StoreModel)
    requires
        s.wf(),
    ensures
        exists|n: nat|
            (#[trigger] run_ticks(TaskModel::init(), s, n)).finished() && no_dup(
                run_log(TaskModel::init(), s, n),
            ) && (forall|r: Touch|
                run_log(TaskModel::init(), s, n).contains(r) <==> expected_touch(s, r)),
{
    let t0 = TaskModel::init();
    assert(walk_inv(s, t0)) by {
        assert(t0.current_top->0 =~= Seq::<u8>::empty());
    }
    let log0 = Seq::<Touch>::empty();
    assert(log_matches(s, t0, log0)) by {
        assert forall|r: Touch| !done_touch(s, t0, r) by {
            lemma_lex_empty_least(r.key);
            match r.child {
                None => {},
                Some(rid) => {
                    lemma_lex_empty_least(root_of(rid));
                    assert(root_of(rid).len() > 0);
                    assert(root_of(rid) != Seq::<u8>::empty());
                },
            }
        }
    }
    lemma_walk_to_end(s, t0, log0);
    let n = choose|n: nat|
        (#[trigger] run_ticks(t0, s, n)).finished() && log_matches(
            s,
            run_ticks(t0, s, n),
            log0 + run_log(t0, s, n),
        );
    let tend = run_ticks(t0, s, n);
    let lg = run_log(t0, s, n);
    assert(log0 + lg =~= lg);
    assert forall|r: Touch| lg.contains(r) <==> expected_touch(s, r) by {
        if lg.contains(r) {
            let i = choose|i: int| 0 <= i < lg.len() && lg[i] == r;
            assert(done_touch(s, tend, lg[i]));
        }
        if expected_touch(s, r) {
            assert(done_touch(s, tend, r));
        }
    }
    assert((#[trigger] run_ticks(t0, s, n)).finished() && no_dup(run_log(t0, s, n)) && (forall|
        r: Touch,
    |
        run_log(t0, s, n).contains(r) <==> expected_touch(s, r)));
}

} // verus!
