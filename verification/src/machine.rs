//! The tick machine, iterated.
//!
//! [`crate::task::tick_spec`] gives one step of the walk as a pure
//! function of cursor and store.  This module iterates it, defines a
//! rank that every step of a well-formed walk strictly lowers, and
//! proves the lowering.  The rank is what bounds the walk: it reaches
//! zero exactly when the cursor is spent.

use vstd::prelude::*;

use crate::keys::is_child_root;
use crate::order::{lemma_lex_irreflexive, lemma_lex_total, lemma_lex_transitive, lex_lt};
use crate::store::{
    child_index, child_table, has_child, has_key, is_next_key, key_index, next_key_of,
    unique_keys, StoreModel, Touch,
};
use crate::task::{
    exhausted_spec, opt_to_seq, step_child_id, tick_halts, tick_spec, tick_touch, MigrationLimits,
    TaskModel,
};

verus! {

/// The cursor after `n` ticks against store `s`.
pub open spec fn run_ticks(t: TaskModel, s: StoreModel, n: nat) -> TaskModel
    decreases n,
{
    if n == 0 {
        t
    } else {
        tick_spec(run_ticks(t, s, (n - 1) as nat), s)
    }
}

/// The writes performed by `n` ticks against store `s`, oldest first.
pub open spec fn run_log(t: TaskModel, s: StoreModel, n: nat) -> Seq<Touch>
    decreases n,
{
    if n == 0 {
        Seq::empty()
    } else {
        run_log(t, s, (n - 1) as nat) + opt_to_seq(tick_touch(run_ticks(t, s, (n - 1) as nat), s))
    }
}

/// What a bounded run leaves behind: the run took `n` ticks, only the
/// last of which exhausted the limits; the final cursor is the `n`-fold
/// tick with the per-run counters folded into the totals, and the log
/// has grown by exactly the writes of those ticks.
pub open spec fn run_outcome(
    t0: TaskModel,
    s: StoreModel,
    log0: Seq<Touch>,
    limits: MigrationLimits,
    t1: TaskModel,
    log1: Seq<Touch>,
    n: nat,
) -> bool {
    &&& 1 <= n
    &&& exhausted_spec(run_ticks(t0, s, n), limits)
    &&& (forall|m: nat| 1 <= m < n ==> !exhausted_spec(run_ticks(t0, s, m), limits))
    &&& t1 == run_ticks(t0, s, n).folded()
    &&& log1 == log0 + run_log(t0, s, n)
}

/// How many entries of `s` have a key strictly greater than `from`.
pub open spec fn keys_gt_count(s: Seq<(Seq<u8>, Seq<u8>)>, from: Seq<u8>) -> nat
    decreases s.len(),
{
    if s.len() == 0 {
        0
    } else {
        (if lex_lt(from, s[0].0) {
            1nat
        } else {
            0nat
        }) + keys_gt_count(s.skip(1), from)
    }
}

/// Two thresholds that classify every key of `s` alike count alike.
pub proof fn lemma_keys_gt_agree(s: Seq<(Seq<u8>, Seq<u8>)>, a: Seq<u8>, b: Seq<u8>)
    requires
        forall|i: int|
            0 <= i < s.len() ==> (lex_lt(a, (#[trigger] s[i]).0) <==> lex_lt(b, s[i].0)),
    ensures
        keys_gt_count(s, a) == keys_gt_count(s, b),
    decreases s.len(),
{
    if s.len() > 0 {
        assert(lex_lt(a, s[0].0) <==> lex_lt(b, s[0].0));
        assert forall|i: int|
            0 <= i < s.skip(1).len() implies (lex_lt(a, (#[trigger] s.skip(1)[i]).0) <==> lex_lt(
            b,
            s.skip(1)[i].0,
        )) by {
            assert(s.skip(1)[i] == s[i + 1]);
        }
        lemma_keys_gt_agree(s.skip(1), a, b);
    }
}

/// Stepping the threshold to the next key lowers the count by one.
pub proof fn lemma_keys_gt_next(s: Seq<(Seq<u8>, Seq<u8>)>, from: Seq<u8>, to: Seq<u8>)
    requires
        unique_keys(s),
        is_next_key(s, from, Some(to)),
    ensures
        keys_gt_count(s, from) == 1 + keys_gt_count(s, to),
    decreases s.len(),
{
    let i = key_index(s, to);
    assert(0 <= i < s.len() && s[i].0 == to);
    let rest = s.skip(1);
    if s[0].0 == to {
        // The next key heads the sequence: the tail counts alike for
        // both thresholds.
        lemma_lex_irreflexive(to);
        assert forall|j: int|
            0 <= j < rest.len() implies (lex_lt(from, (#[trigger] rest[j]).0) <==> lex_lt(
            to,
            rest[j].0,
        )) by {
            assert(rest[j] == s[j + 1]);
            assert(s[0].0 != s[j + 1].0);
            if lex_lt(from, rest[j].0) {
                assert(!lex_lt(s[j + 1].0, to));
                lemma_lex_total(rest[j].0, to);
            }
            if lex_lt(to, rest[j].0) {
                lemma_lex_transitive(from, to, rest[j].0);
            }
        }
        lemma_keys_gt_agree(rest, from, to);
    } else {
        // The next key sits in the tail; the head counts alike for both
        // thresholds.
        assert(i >= 1);
        assert(rest[i - 1] == s[i]);
        assert(has_key(rest, to));
        assert forall|j: int|
            0 <= j < rest.len() && lex_lt(from, (#[trigger] rest[j]).0) implies !lex_lt(
            rest[j].0,
            to,
        ) by {
            assert(rest[j] == s[j + 1]);
        }
        assert forall|a: int, b: int|
            0 <= a < b < rest.len() implies (#[trigger] rest[a]).0 != (#[trigger] rest[b]).0 by {
            assert(rest[a] == s[a + 1]);
            assert(rest[b] == s[b + 1]);
        }
        assert(is_next_key(rest, from, Some(to)));
        lemma_keys_gt_next(rest, from, to);
        if lex_lt(from, s[0].0) {
            assert(!lex_lt(s[0].0, to));
            lemma_lex_total(s[0].0, to);
            assert(lex_lt(to, s[0].0));
        } else {
            if lex_lt(to, s[0].0) {
                lemma_lex_transitive(from, to, s[0].0);
            }
        }
    }
}

/// With no key beyond the threshold the count is zero.
pub proof fn lemma_keys_gt_none(s: Seq<(Seq<u8>, Seq<u8>)>, from: Seq<u8>)
    requires
        is_next_key(s, from, None),
    ensures
        keys_gt_count(s, from) == 0,
    decreases s.len(),
{
    if s.len() > 0 {
        let rest = s.skip(1);
        assert forall|j: int|
            0 <= j < rest.len() implies !lex_lt(from, (#[trigger] rest[j]).0) by {
            assert(rest[j] == s[j + 1]);
        }
        lemma_keys_gt_none(rest, from);
    }
}

/// Top keys still ahead of the cursor, the current one included.
pub open spec fn top_rank(t: TaskModel, s: StoreModel) -> nat {
    match t.current_top {
        Some(top) => 1 + keys_gt_count(s.top, top),
        None => 0,
    }
}

/// Whether the child marker is still to be set at the current top key:
/// every path through a child root sets it exactly once, and a tick
/// never clears it without also advancing the top cursor.
pub open spec fn phase_rank(t: TaskModel) -> nat {
    if t.current_top is None {
        0
    } else if t.prev_tick_child {
        0
    } else {
        1
    }
}

/// Child keys still ahead of the child cursor, the current one included.
pub open spec fn child_rank(t: TaskModel, s: StoreModel) -> nat {
    match t.current_child {
        Some(c) => 1 + keys_gt_count(
            child_table(s.children, step_child_id(t.current_top->0)),
            c,
        ),
        None => 0,
    }
}

/// Every child table of a well-formed store has distinct keys.
pub proof fn lemma_child_table_unique(s: StoreModel, id: Seq<u8>)
    requires
        s.wf(),
    ensures
        unique_keys(child_table(s.children, id)),
{
    if has_child(s.children, id) {
        let i = child_index(s.children, id);
        assert(0 <= i < s.children.len() && s.children[i].0 == id);
        assert(unique_keys(s.children[i].1));
    }
}

/// When one key of `s` is greater than `from`, a least such key exists.
pub proof fn lemma_least_greater_exists(s: Seq<(Seq<u8>, Seq<u8>)>, from: Seq<u8>)
    requires
        exists|i: int| 0 <= i < s.len() && lex_lt(from, (#[trigger] s[i]).0),
    ensures
        exists|k: Seq<u8>| is_next_key(s, from, Some(k)),
    decreases s.len(),
{
    let i0 = choose|i: int| 0 <= i < s.len() && lex_lt(from, (#[trigger] s[i]).0);
    let rest = s.skip(1);
    if exists|j: int| 0 <= j < rest.len() && lex_lt(from, (#[trigger] rest[j]).0) {
        lemma_least_greater_exists(rest, from);
        let kr = choose|k: Seq<u8>| is_next_key(rest, from, Some(k));
        assert(is_next_key(rest, from, Some(kr)));
        let jr = key_index(rest, kr);
        assert(0 <= jr < rest.len() && rest[jr].0 == kr);
        assert(rest[jr] == s[jr + 1]);
        if lex_lt(from, s[0].0) && lex_lt(s[0].0, kr) {
            let k = s[0].0;
            assert forall|j: int|
                0 <= j < s.len() && lex_lt(from, (#[trigger] s[j]).0) implies !lex_lt(
                s[j].0,
                k,
            ) by {
                if j == 0 {
                    lemma_lex_irreflexive(k);
                } else {
                    assert(s[j] == rest[j - 1]);
                    if lex_lt(s[j].0, k) {
                        lemma_lex_transitive(s[j].0, k, kr);
                    }
                }
            }
            assert(is_next_key(s, from, Some(k)));
        } else {
            let k = kr;
            assert(s[jr + 1].0 == k);
            assert(has_key(s, k));
            assert forall|j: int|
                0 <= j < s.len() && lex_lt(from, (#[trigger] s[j]).0) implies !lex_lt(
                s[j].0,
                k,
            ) by {
                if j > 0 {
                    assert(s[j] == rest[j - 1]);
                }
            }
            assert(is_next_key(s, from, Some(k)));
        }
    } else {
        if i0 > 0 {
            assert(rest[i0 - 1] == s[i0]);
            assert(false);
        }
        let k = s[0].0;
        assert forall|j: int|
            0 <= j < s.len() && lex_lt(from, (#[trigger] s[j]).0) implies !lex_lt(s[j].0, k) by {
            if j == 0 {
                lemma_lex_irreflexive(k);
            } else {
                assert(s[j] == rest[j - 1]);
            }
        }
        assert(is_next_key(s, from, Some(k)));
    }
}

/// The result of [`next_key_of`] satisfies [`is_next_key`].
pub proof fn lemma_next_key_of_sound(s: Seq<(Seq<u8>, Seq<u8>)>, from: Seq<u8>)
    ensures
        is_next_key(s, from, next_key_of(s, from)),
{
    if exists|k: Seq<u8>| is_next_key(s, from, Some(k)) {
        let k = choose|k: Seq<u8>| is_next_key(s, from, Some(k));
        assert(is_next_key(s, from, Some(k)));
    } else {
        assert forall|i: int|
            0 <= i < s.len() implies !lex_lt(from, (#[trigger] s[i]).0) by {
            if lex_lt(from, s[i].0) {
                lemma_least_greater_exists(s, from);
            }
        }
    }
}

/// One tick of a well-formed, unfinished cursor keeps it well formed,
/// signals no error, and strictly lowers the rank triple
/// `(top_rank, phase_rank, child_rank)` in lexicographic order.
pub proof fn lemma_tick_decreases(t: TaskModel, s: StoreModel)
    requires
        t.wf(),
        s.wf(),
        !t.finished(),
    ensures
        tick_spec(t, s).wf(),
        !tick_halts(t, s),
        top_rank(tick_spec(t, s), s) < top_rank(t, s) || (top_rank(tick_spec(t, s), s)
            == top_rank(t, s) && (phase_rank(tick_spec(t, s)) < phase_rank(t) || (phase_rank(
            tick_spec(t, s),
        ) == phase_rank(t) && child_rank(tick_spec(t, s), s) < child_rank(t, s)))),
{
    let t2 = tick_spec(t, s);
    let top = t.current_top->0;
    match (t.current_top, t.current_child) {
        (Some(_), Some(c)) => {
            let id = step_child_id(top);
            let tab = child_table(s.children, id);
            lemma_child_table_unique(s, id);
            lemma_next_key_of_sound(tab, c);
            match next_key_of(tab, c) {
                Some(c2) => {
                    lemma_keys_gt_next(tab, c, c2);
                },
                None => {
                    lemma_keys_gt_none(tab, c);
                },
            }
        },
        (Some(_), None) => {
            if is_child_root(top) && !t.prev_tick_child {
                let id = step_child_id(top);
                let tab = child_table(s.children, id);
                lemma_next_key_of_sound(tab, Seq::empty());
            } else {
                // The tick rewrites the top key itself and advances.
                lemma_next_key_of_sound(s.top, top);
                match next_key_of(s.top, top) {
                    Some(t2top) => {
                        lemma_keys_gt_next(s.top, top, t2top);
                    },
                    None => {
                        lemma_keys_gt_none(s.top, top);
                    },
                }
            }
        },
        (None, _) => {},
    }
}

} // verus!
