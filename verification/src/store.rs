//! An in-memory two-level key/value store.
//!
//! The migrator only needs three primitives on each namespace: `get`,
//! `set` and `next_key` (the least key strictly greater than a given
//! one).  This module provides them over plain vectors of entries, with
//! the order taken from [`crate::order`].  A ghost log records every
//! write, so that contracts can speak about which keys a run touched.

use vstd::prelude::*;

use crate::order::{
    key_clone, key_eq, key_lt, lemma_lex_irreflexive, lemma_lex_transitive, lex_lt,
};

verus! {

/// One recorded write: a key in the top namespace (`child` is `None`) or
/// in the child namespace named by `child`.
#[verifier::ext_equal]
pub struct Touch {
    pub child: Option<Seq<u8>>,
    pub key: Seq<u8>,
}

/// The mathematical content of a store: the top table and the child
/// tables, each a sequence of key/value entries with distinct keys.
#[verifier::ext_equal]
pub struct StoreModel {
    pub top: Seq<(Seq<u8>, Seq<u8>)>,
    pub children: Seq<(Seq<u8>, Seq<(Seq<u8>, Seq<u8>)>)>,
}

/// Some entry of `s` has key `k`.
pub open spec fn has_key(s: Seq<(Seq<u8>, Seq<u8>)>, k: Seq<u8>) -> bool {
    exists|i: int| 0 <= i < s.len() && (#[trigger] s[i]).0 == k
}

/// The index of the entry with key `k`.
pub open spec fn key_index(s: Seq<(Seq<u8>, Seq<u8>)>, k: Seq<u8>) -> int {
    choose|i: int| 0 <= i < s.len() && (#[trigger] s[i]).0 == k
}

/// The value stored under `k`, or the empty string when `k` is absent.
pub open spec fn value_of(s: Seq<(Seq<u8>, Seq<u8>)>, k: Seq<u8>) -> Seq<u8> {
    if has_key(s, k) {
        s[key_index(s, k)].1
    } else {
        Seq::empty()
    }
}

/// The table after storing `v` under `k`: the entry is replaced in place
/// when present and appended otherwise.
pub open spec fn table_set(s: Seq<(Seq<u8>, Seq<u8>)>, k: Seq<u8>, v: Seq<u8>) -> Seq<
    (Seq<u8>, Seq<u8>),
> {
    if has_key(s, k) {
        s.update(key_index(s, k), (k, v))
    } else {
        s.push((k, v))
    }
}

/// All entry keys are distinct.
pub open spec fn unique_keys(s: Seq<(Seq<u8>, Seq<u8>)>) -> bool {
    forall|i: int, j: int| 0 <= i < j < s.len() ==> (#[trigger] s[i]).0 != (#[trigger] s[j]).0
}

/// `r` is the least key of `s` strictly greater than `from`, or there is
/// no key of `s` greater than `from`.
pub open spec fn is_next_key(
    s: Seq<(Seq<u8>, Seq<u8>)>,
    from: Seq<u8>,
    r: Option<Seq<u8>>,
) -> bool {
    match r {
        Some(k) => has_key(s, k) && lex_lt(from, k) && forall|i: int|
            0 <= i < s.len() && lex_lt(from, (#[trigger] s[i]).0) ==> !lex_lt(s[i].0, k),
        None => forall|i: int| 0 <= i < s.len() ==> !lex_lt(from, (#[trigger] s[i]).0),
    }
}

/// The least key of `s` strictly greater than `from`, as a function.
pub open spec fn next_key_of(s: Seq<(Seq<u8>, Seq<u8>)>, from: Seq<u8>) -> Option<Seq<u8>> {
    if exists|k: Seq<u8>| is_next_key(s, from, Some(k)) {
        Some(choose|k: Seq<u8>| is_next_key(s, from, Some(k)))
    } else {
        None
    }
}

/// Any result admitted by [`is_next_key`] is the one [`next_key_of`]
/// denotes: the least strictly greater key is unique.
pub proof fn lemma_next_key_canon(s: Seq<(Seq<u8>, Seq<u8>)>, from: Seq<u8>, r: Option<Seq<u8>>)
    requires
        is_next_key(s, from, r),
    ensures
        next_key_of(s, from) == r,
{
    match r {
        Some(k) => {
            assert(is_next_key(s, from, Some(k)));
            let k2 = choose|k2: Seq<u8>| is_next_key(s, from, Some(k2));
            assert(is_next_key(s, from, Some(k2)));
            let i = key_index(s, k);
            assert(0 <= i < s.len() && s[i].0 == k);
            let i2 = key_index(s, k2);
            assert(0 <= i2 < s.len() && s[i2].0 == k2);
            assert(!lex_lt(k2, k));
            assert(!lex_lt(k, k2));
            crate::order::lemma_lex_total(k, k2);
        },
        None => {
            if exists|k: Seq<u8>| is_next_key(s, from, Some(k)) {
                let k = choose|k: Seq<u8>| is_next_key(s, from, Some(k));
                let i = key_index(s, k);
                assert(0 <= i < s.len() && s[i].0 == k);
                assert(!lex_lt(from, s[i].0));
            }
        },
    }
}

/// Some child table is named `id`.
pub open spec fn has_child(c: Seq<(Seq<u8>, Seq<(Seq<u8>, Seq<u8>)>)>, id: Seq<u8>) -> bool {
    exists|i: int| 0 <= i < c.len() && (#[trigger] c[i]).0 == id
}

/// The index of the child table named `id`.
pub open spec fn child_index(c: Seq<(Seq<u8>, Seq<(Seq<u8>, Seq<u8>)>)>, id: Seq<u8>) -> int {
    choose|i: int| 0 <= i < c.len() && (#[trigger] c[i]).0 == id
}

/// The child table named `id`, or the empty table when there is none.
pub open spec fn child_table(c: Seq<(Seq<u8>, Seq<(Seq<u8>, Seq<u8>)>)>, id: Seq<u8>) -> Seq<
    (Seq<u8>, Seq<u8>),
> {
    if has_child(c, id) {
        c[child_index(c, id)].1
    } else {
        Seq::empty()
    }
}

/// The children after storing `v` under `k` in the namespace named `id`;
/// the namespace is created when absent.
pub open spec fn children_set(
    c: Seq<(Seq<u8>, Seq<(Seq<u8>, Seq<u8>)>)>,
    id: Seq<u8>,
    k: Seq<u8>,
    v: Seq<u8>,
) -> Seq<(Seq<u8>, Seq<(Seq<u8>, Seq<u8>)>)> {
    if has_child(c, id) {
        c.update(child_index(c, id), (id, table_set(c[child_index(c, id)].1, k, v)))
    } else {
        c.push((id, seq![(k, v)]))
    }
}

/// All namespace ids are distinct.
pub open spec fn unique_children(c: Seq<(Seq<u8>, Seq<(Seq<u8>, Seq<u8>)>)>) -> bool {
    forall|i: int, j: int| 0 <= i < j < c.len() ==> (#[trigger] c[i]).0 != (#[trigger] c[j]).0
}

impl StoreModel {
    /// Every table is well formed and the namespace ids are distinct.
    pub open spec fn wf(self) -> bool {
        &&& unique_keys(self.top)
        &&& unique_children(self.children)
        &&& (forall|i: int|
            0 <= i < self.children.len() ==> unique_keys((#[trigger] self.children[i]).1))
    }
}

/// Writing a value back over itself leaves the table as it was.
pub proof fn lemma_table_set_same(s: Seq<(Seq<u8>, Seq<u8>)>, k: Seq<u8>)
    requires
        has_key(s, k),
    ensures
        table_set(s, k, value_of(s, k)) == s,
{
    let i = key_index(s, k);
    assert(0 <= i < s.len() && s[i].0 == k);
    assert((k, value_of(s, k)) =~= s[i]);
    assert(table_set(s, k, value_of(s, k)) =~= s);
}

/// Writing a child value back over itself leaves the children as they
/// were.
pub proof fn lemma_children_set_same(
    c: Seq<(Seq<u8>, Seq<(Seq<u8>, Seq<u8>)>)>,
    id: Seq<u8>,
    k: Seq<u8>,
)
    requires
        has_key(child_table(c, id), k),
    ensures
        children_set(c, id, k, value_of(child_table(c, id), k)) == c,
{
    let tab = child_table(c, id);
    assert(has_child(c, id));
    let ci = child_index(c, id);
    lemma_table_set_same(tab, k);
    assert((id, table_set(tab, k, value_of(tab, k))) =~= c[ci]);
    assert(children_set(c, id, k, value_of(tab, k)) =~= c);
}

/// The store: a top table, the child tables, and a ghost log of writes.
pub struct Store {
    pub top: Vec<(Vec<u8>, Vec<u8>)>,
    pub children: Vec<(Vec<u8>, Vec<(Vec<u8>, Vec<u8>)>)>,
    pub touched: Ghost<Seq<Touch>>,
}

/// The model of one exec table.
pub open spec fn table_model(s: Seq<(Vec<u8>, Vec<u8>)>) -> Seq<(Seq<u8>, Seq<u8>)> {
    s.map_values(|e: (Vec<u8>, Vec<u8>)| (e.0@, e.1@))
}

/// The model of the exec children vector.
pub open spec fn children_model(c: Seq<(Vec<u8>, Vec<(Vec<u8>, Vec<u8>)>)>) -> Seq<
    (Seq<u8>, Seq<(Seq<u8>, Seq<u8>)>),
> {
    c.map_values(|e: (Vec<u8>, Vec<(Vec<u8>, Vec<u8>)>)| (e.0@, table_model(e.1@)))
}

impl View for Store {
    type V = StoreModel;

    open spec fn view(&self) -> StoreModel {
        StoreModel { top: table_model(self.top@), children: children_model(self.children@) }
    }
}

impl Store {
    /// The ghost log of writes, oldest first.
    pub open spec fn log(&self) -> Seq<Touch> {
        self.touched@
    }

    pub open spec fn wf(&self) -> bool {
        self@.wf()
    }

    /// An empty store.
    pub fn new() -> (r: Store)
        ensures
            r.wf(),
            r@.top.len() == 0,
            r@.children.len() == 0,
            r.log().len() == 0,
    {
        Store { top: Vec::new(), children: Vec::new(), touched: Ghost(Seq::empty()) }
    }

    /// Read a top value.
    pub fn top_get(&self, key: &Vec<u8>) -> (r: Option<Vec<u8>>)
        requires
            self.wf(),
        ensures
            match r {
                Some(v) => has_key(self@.top, key@) && v@ == value_of(self@.top, key@),
                None => !has_key(self@.top, key@),
            },
    {
        table_get(&self.top, key)
    }

    /// Write a top value, recording the write in the ghost log.
    pub fn top_set(&mut self, key: &Vec<u8>, value: Vec<u8>)
        requires
            old(self).wf(),
        ensures
            final(self).wf(),
            final(self)@.top == table_set(old(self)@.top, key@, value@),
            final(self)@.children == old(self)@.children,
            final(self).log() == old(self).log().push(Touch { child: None, key: key@ }),
    {
        table_put(&mut self.top, key, value);
        self.touched = Ghost(self.touched@.push(Touch { child: None, key: key@ }));
        proof {
            assert(self@.children == old(self)@.children);
            assert forall|i: int, j: int|
                0 <= i < j < self@.children.len() implies (#[trigger] self@.children[i]).0 != (
            #[trigger] self@.children[j]).0 by {
                assert(self@.children[i] == old(self)@.children[i]);
                assert(self@.children[j] == old(self)@.children[j]);
            }
            assert forall|i: int|
                0 <= i < self@.children.len() implies unique_keys(
                (#[trigger] self@.children[i]).1,
            ) by {
                assert(self@.children[i] == old(self)@.children[i]);
            }
        }
    }

    /// The least top key strictly greater than `key`.
    pub fn top_next(&self, key: &Vec<u8>) -> (r: Option<Vec<u8>>)
        requires
            self.wf(),
        ensures
            match r {
                Some(k) => is_next_key(self@.top, key@, Some(k@)),
                None => is_next_key(self@.top, key@, None),
            },
    {
        table_next(&self.top, key)
    }

    /// Read a value from the child namespace named `id`.
    pub fn child_get(&self, id: &Vec<u8>, key: &Vec<u8>) -> (r: Option<Vec<u8>>)
        requires
            self.wf(),
        ensures
            match r {
                Some(v) => has_key(child_table(self@.children, id@), key@) && v@ == value_of(
                    child_table(self@.children, id@),
                    key@,
                ),
                None => !has_key(child_table(self@.children, id@), key@),
            },
    {
        match child_find(&self.children, id) {
            Some(i) => {
                let e = &self.children[i];
                proof {
                    assert(child_table(self@.children, id@) == table_model(e.1@));
                }
                table_get(&e.1, key)
            },
            None => {
                proof {
                    assert(child_table(self@.children, id@) =~= Seq::<
                        (Seq<u8>, Seq<u8>),
                    >::empty());
                }
                None
            },
        }
    }

    /// Write a value into the child namespace named `id`, creating the
    /// namespace when absent, and record the write in the ghost log.
    pub fn child_set(&mut self, id: &Vec<u8>, key: &Vec<u8>, value: Vec<u8>)
        requires
            old(self).wf(),
        ensures
            final(self).wf(),
            final(self)@.top == old(self)@.top,
            final(self)@.children == children_set(old(self)@.children, id@, key@, value@),
            final(self).log() == old(self).log().push(Touch { child: Some(id@), key: key@ }),
    {
        let ghost pre = self@.children;
        match child_find(&self.children, id) {
            Some(i) => {
                let mut e = self.children.remove(i);
                table_put(&mut e.1, key, value);
                self.children.insert(i, e);
                proof {
                    assert(self.children@ =~= old(self).children@.update(
                        i as int,
                        self.children@[i as int],
                    ));
                    assert(self@.children =~~= children_set(pre, id@, key@, value@));
                }
            },
            None => {
                let mut table: Vec<(Vec<u8>, Vec<u8>)> = Vec::new();
                table.push((key_clone(key), value));
                self.children.push((key_clone(id), table));
                proof {
                    assert(table_model(table@) =~= seq![(key@, value@)]);
                    assert(self@.children =~~= children_set(pre, id@, key@, value@));
                }
            },
        }
        self.touched = Ghost(self.touched@.push(Touch { child: Some(id@), key: key@ }));
    }

    /// The least key of the child namespace named `id` strictly greater
    /// than `key`.
    pub fn child_next(&self, id: &Vec<u8>, key: &Vec<u8>) -> (r: Option<Vec<u8>>)
        requires
            self.wf(),
        ensures
            match r {
                Some(k) => is_next_key(child_table(self@.children, id@), key@, Some(k@)),
                None => is_next_key(child_table(self@.children, id@), key@, None),
            },
    {
        match child_find(&self.children, id) {
            Some(i) => {
                let e = &self.children[i];
                proof {
                    assert(child_table(self@.children, id@) == table_model(e.1@));
                }
                table_next(&e.1, key)
            },
            None => {
                proof {
                    assert(child_table(self@.children, id@) =~= Seq::<
                        (Seq<u8>, Seq<u8>),
                    >::empty());
                }
                None
            },
        }
    }
}

/// Find the entry with key `key` in one table.
fn table_find(tab: &Vec<(Vec<u8>, Vec<u8>)>, key: &Vec<u8>) -> (r: Option<usize>)
    requires
        unique_keys(table_model(tab@)),
    ensures
        match r {
            Some(i) => i < tab@.len() && table_model(tab@)[i as int].0 == key@ && has_key(
                table_model(tab@),
                key@,
            ) && key_index(table_model(tab@), key@) == i as int,
            None => !has_key(table_model(tab@), key@),
        },
{
    let ghost m = table_model(tab@);
    let mut i: usize = 0;
    let n = tab.len();
    while i < n
        invariant
            unique_keys(m),
            m == table_model(tab@),
            n == tab@.len(),
            0 <= i <= n,
            forall|j: int| 0 <= j < i ==> (#[trigger] m[j]).0 != key@,
        decreases n - i,
    {
        let e = &tab[i];
        if key_eq(&e.0, key) {
            proof {
                assert(m[i as int].0 == key@);
                assert(has_key(m, key@));
            }
            return Some(i);
        }
        i = i + 1;
    }
    None
}

/// Find the child table named `id`.
fn child_find(c: &Vec<(Vec<u8>, Vec<(Vec<u8>, Vec<u8>)>)>, id: &Vec<u8>) -> (r: Option<usize>)
    requires
        unique_children(children_model(c@)),
    ensures
        match r {
            Some(i) => i < c@.len() && children_model(c@)[i as int].0 == id@ && has_child(
                children_model(c@),
                id@,
            ) && child_index(children_model(c@), id@) == i as int,
            None => !has_child(children_model(c@), id@),
        },
{
    let ghost m = children_model(c@);
    let mut i: usize = 0;
    let n = c.len();
    while i < n
        invariant
            unique_children(m),
            m == children_model(c@),
            n == c@.len(),
            0 <= i <= n,
            forall|j: int| 0 <= j < i ==> (#[trigger] m[j]).0 != id@,
        decreases n - i,
    {
        let e = &c[i];
        if key_eq(&e.0, id) {
            proof {
                assert(m[i as int].0 == id@);
                assert(has_child(m, id@));
                assert forall|j: int|
                    0 <= j < m.len() && (#[trigger] m[j]).0 == id@ implies j == i as int by {
                    if j < i {
                        assert(m[j].0 != id@);
                    }
                    if j > i {
                        assert(m[i as int].0 != m[j].0);
                    }
                }
            }
            return Some(i);
        }
        i = i + 1;
    }
    None
}

/// Read the value under `key` in one table.
fn table_get(tab: &Vec<(Vec<u8>, Vec<u8>)>, key: &Vec<u8>) -> (r: Option<Vec<u8>>)
    requires
        unique_keys(table_model(tab@)),
    ensures
        match r {
            Some(v) => has_key(table_model(tab@), key@) && v@ == value_of(
                table_model(tab@),
                key@,
            ),
            None => !has_key(table_model(tab@), key@),
        },
{
    match table_find(tab, key) {
        Some(i) => Some(key_clone(&tab[i].1)),
        None => None,
    }
}

/// Store `value` under `key` in one table.
fn table_put(tab: &mut Vec<(Vec<u8>, Vec<u8>)>, key: &Vec<u8>, value: Vec<u8>)
    requires
        unique_keys(table_model(old(tab)@)),
    ensures
        table_model(final(tab)@) == table_set(table_model(old(tab)@), key@, value@),
        unique_keys(table_model(final(tab)@)),
{
    let ghost m = table_model(tab@);
    match table_find(tab, key) {
        Some(i) => {
            tab.remove(i);
            tab.insert(i, (key_clone(key), value));
            proof {
                assert(tab@ =~= old(tab)@.update(i as int, tab@[i as int]));
                assert(table_model(tab@) =~~= table_set(m, key@, value@));
                assert forall|a: int, b: int|
                    0 <= a < b < table_model(tab@).len() implies (#[trigger] table_model(
                    tab@,
                )[a]).0 != (#[trigger] table_model(tab@)[b]).0 by {
                    assert(m[a].0 == (if a == i as int {
                        key@
                    } else {
                        table_model(tab@)[a].0
                    }));
                    assert(m[b].0 == (if b == i as int {
                        key@
                    } else {
                        table_model(tab@)[b].0
                    }));
                }
            }
        },
        None => {
            tab.push((key_clone(key), value));
            proof {
                assert(table_model(tab@) =~~= table_set(m, key@, value@));
            }
        },
    }
}

/// The least key of one table strictly greater than `key`.
fn table_next(tab: &Vec<(Vec<u8>, Vec<u8>)>, key: &Vec<u8>) -> (r: Option<Vec<u8>>)
    ensures
        match r {
            Some(k) => is_next_key(table_model(tab@), key@, Some(k@)),
            None => is_next_key(table_model(tab@), key@, None),
        },
{
    let ghost m = table_model(tab@);
    let mut best: Option<Vec<u8>> = None;
    let mut i: usize = 0;
    let n = tab.len();
    while i < n
        invariant
            m == table_model(tab@),
            n == tab@.len(),
            0 <= i <= n,
            match best {
                Some(b) => has_key(m, b@) && lex_lt(key@, b@) && forall|j: int|
                    0 <= j < i && lex_lt(key@, (#[trigger] m[j]).0) ==> !lex_lt(m[j].0, b@),
                None => forall|j: int| 0 <= j < i ==> !lex_lt(key@, (#[trigger] m[j]).0),
            },
        decreases n - i,
    {
        let e = &tab[i];
        if key_lt(key, &e.0) {
            let better = match &best {
                None => true,
                Some(b) => key_lt(&e.0, b),
            };
            if better {
                proof {
                    assert(m[i as int].0 == e.0@);
                    assert(has_key(m, e.0@));
                    lemma_lex_irreflexive(e.0@);
                    if best is Some {
                        let b = best->0@;
                        assert forall|j: int|
                            0 <= j < i && lex_lt(key@, (#[trigger] m[j]).0) implies !lex_lt(
                            m[j].0,
                            e.0@,
                        ) by {
                            if lex_lt(m[j].0, e.0@) {
                                lemma_lex_transitive(m[j].0, e.0@, b);
                            }
                        }
                    }
                }
                best = Some(key_clone(&e.0));
            } else {
                proof {
                    lemma_lex_irreflexive(e.0@);
                }
            }
        }
        i = i + 1;
    }
    best
}

} // verus!
