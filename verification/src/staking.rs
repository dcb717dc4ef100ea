//! A staking ledger and a state builder for exercising it.
//!
//! The builder assembles a ledger with one pool account bonded at the
//! minimum and any number of delegators, then hands control to a test
//! body.  Accounts and balances here are the 32/128-bit pair the staking
//! side of the host uses.

use vstd::prelude::*;

verus! {

/// Some entry of `s` belongs to `who`.
pub open spec fn has_bond(s: Seq<(u32, u128)>, who: u32) -> bool {
    exists|i: int| 0 <= i < s.len() && (#[trigger] s[i]).0 == who
}

/// The index of the entry of `who`.
pub open spec fn bond_index(s: Seq<(u32, u128)>, who: u32) -> int {
    choose|i: int| 0 <= i < s.len() && (#[trigger] s[i]).0 == who
}

/// The bonded balance of `who`, zero when no entry exists.
pub open spec fn bond_of(s: Seq<(u32, u128)>, who: u32) -> u128 {
    if has_bond(s, who) {
        s[bond_index(s, who)].1
    } else {
        0
    }
}

/// All entry ids are distinct.
pub open spec fn unique_bonds(s: Seq<(u32, u128)>) -> bool {
    forall|i: int, j: int| 0 <= i < j < s.len() ==> (#[trigger] s[i]).0 != (#[trigger] s[j]).0
}

/// A ledger of bonded and unbonding balances, one entry per staker.
pub struct StakingMock {
    pub bonded: Vec<(u32, u128)>,
    pub unbonding: Vec<(u32, u128)>,
    pub current_era: u32,
    pub can_bond_extra_flag: bool,
    pub can_bond_flag: bool,
    pub can_nominate_flag: bool,
}

impl StakingMock {
    pub open spec fn wf(&self) -> bool {
        unique_bonds(self.bonded@) && unique_bonds(self.unbonding@)
    }

    /// An empty ledger at era zero, with every capability granted.
    pub fn new() -> (r: StakingMock)
        ensures
            r.wf(),
            r.bonded@.len() == 0,
            r.unbonding@.len() == 0,
            r.current_era == 0,
            r.can_bond_extra_flag && r.can_bond_flag && r.can_nominate_flag,
    {
        StakingMock {
            bonded: Vec::new(),
            unbonding: Vec::new(),
            current_era: 0,
            can_bond_extra_flag: true,
            can_bond_flag: true,
            can_nominate_flag: true,
        }
    }

    /// The smallest stake the ledger accepts.
    pub fn minimum_bond() -> (r: u128)
        ensures
            r == 10,
    {
        10
    }

    /// Bond exactly `bonded` for `who`, replacing any earlier stake.
    pub fn set_bonded_balance(&mut self, who: u32, bonded: u128)
        requires
            old(self).wf(),
        ensures
            final(self).wf(),
            bond_of(final(self).bonded@, who) == bonded,
            forall|w: u32|
                w != who ==> bond_of(final(self).bonded@, w) == bond_of(old(self).bonded@, w),
            final(self).unbonding@ == old(self).unbonding@,
            same_flags(*final(self), *old(self)),
    {
        ledger_put(&mut self.bonded, who, bonded);
    }

    /// The bonded balance of `who`.
    pub fn bonded_balance(&self, who: u32) -> (r: u128)
        requires
            self.wf(),
        ensures
            r == bond_of(self.bonded@, who),
    {
        ledger_get(&self.bonded, who)
    }

    /// The era the ledger currently sits in.
    pub fn current_era(&self) -> (r: u32)
        ensures
            r == self.current_era,
    {
        self.current_era
    }

    /// How many eras an unbonding stake waits.
    pub fn bonding_duration() -> (r: u32)
        ensures
            r == 3,
    {
        3
    }

    /// Whether `who` may add to an existing stake.
    pub fn can_bond_extra(&self, _who: u32, _extra: u128) -> (r: bool)
        ensures
            r == self.can_bond_extra_flag,
    {
        self.can_bond_extra_flag
    }

    /// Add `extra` to the existing stake of `who`.
    pub fn bond_extra(&mut self, who: u32, extra: u128) -> (r: Result<(), ()>)
        requires
            old(self).wf(),
            has_bond(old(self).bonded@, who),
            bond_of(old(self).bonded@, who) + extra <= u128::MAX,
        ensures
            final(self).wf(),
            r is Ok,
            bond_of(final(self).bonded@, who) == bond_of(old(self).bonded@, who) + extra,
            forall|w: u32|
                w != who ==> bond_of(final(self).bonded@, w) == bond_of(old(self).bonded@, w),
            final(self).unbonding@ == old(self).unbonding@,
            same_flags(*final(self), *old(self)),
    {
        let cur = ledger_get(&self.bonded, who);
        ledger_put(&mut self.bonded, who, cur + extra);
        Ok(())
    }

    /// Move `amount` of the stake of `who` into the unbonding pool.
    pub fn unbond(&mut self, who: u32, amount: u128) -> (r: Result<(), ()>)
        requires
            old(self).wf(),
            has_bond(old(self).bonded@, who),
            amount <= bond_of(old(self).bonded@, who),
            bond_of(old(self).unbonding@, who) + amount <= u128::MAX,
        ensures
            final(self).wf(),
            r is Ok,
            bond_of(final(self).bonded@, who) == bond_of(old(self).bonded@, who) - amount,
            bond_of(final(self).unbonding@, who) == bond_of(old(self).unbonding@, who) + amount,
            forall|w: u32|
                w != who ==> bond_of(final(self).bonded@, w) == bond_of(old(self).bonded@, w)
                    && bond_of(final(self).unbonding@, w) == bond_of(old(self).unbonding@, w),
            same_flags(*final(self), *old(self)),
    {
        let cur = ledger_get(&self.bonded, who);
        ledger_put(&mut self.bonded, who, cur - amount);
        let waiting = ledger_get(&self.unbonding, who);
        ledger_put(&mut self.unbonding, who, waiting + amount);
        Ok(())
    }

    /// Release the unbonding stake of `who` and report what came free;
    /// crediting it back to an account ledger is the caller's part.
    pub fn withdraw_unbonded(&mut self, who: u32) -> (r: Option<u128>)
        requires
            old(self).wf(),
        ensures
            final(self).wf(),
            match r {
                Some(v) => has_bond(old(self).unbonding@, who) && v == bond_of(
                    old(self).unbonding@,
                    who,
                ),
                None => !has_bond(old(self).unbonding@, who),
            },
            !has_bond(final(self).unbonding@, who),
            forall|w: u32|
                w != who ==> bond_of(final(self).unbonding@, w) == bond_of(
                    old(self).unbonding@,
                    w,
                ),
            final(self).bonded@ == old(self).bonded@,
            same_flags(*final(self), *old(self)),
    {
        ledger_take(&mut self.unbonding, who)
    }

    /// Whether a new stake may be created.
    pub fn can_bond(&self, _stash: u32, _controller: u32, _reward: u32) -> (r: bool)
        ensures
            r == self.can_bond_flag,
    {
        self.can_bond_flag
    }

    /// Create the stake of `stash`, replacing any earlier one.
    pub fn bond(&mut self, stash: u32, _controller: u32, amount: u128, _payee: u32) -> (r: Result<
        (),
        (),
    >)
        requires
            old(self).wf(),
        ensures
            final(self).wf(),
            r is Ok,
            bond_of(final(self).bonded@, stash) == amount,
            forall|w: u32|
                w != stash ==> bond_of(final(self).bonded@, w) == bond_of(old(self).bonded@, w),
            final(self).unbonding@ == old(self).unbonding@,
            same_flags(*final(self), *old(self)),
    {
        self.set_bonded_balance(stash, amount);
        Ok(())
    }

    /// Whether `who` may nominate validators.
    pub fn can_nominate(&self, _who: u32) -> (r: bool)
        ensures
            r == self.can_nominate_flag,
    {
        self.can_nominate_flag
    }

    /// Record a nomination; the ledger itself keeps no trace of it.
    pub fn nominate(_who: u32, _targets: Vec<u32>) -> (r: Result<(), ()>)
        ensures
            r is Ok,
    {
        Ok(())
    }
}

/// The capability switches of two ledgers agree.
pub open spec fn same_flags(a: StakingMock, b: StakingMock) -> bool {
    &&& a.current_era == b.current_era
    &&& a.can_bond_extra_flag == b.can_bond_extra_flag
    &&& a.can_bond_flag == b.can_bond_flag
    &&& a.can_nominate_flag == b.can_nominate_flag
}

/// Store `amount` under `who`, replacing any earlier entry.
fn ledger_put(tab: &mut Vec<(u32, u128)>, who: u32, amount: u128)
    requires
        unique_bonds(old(tab)@),
    ensures
        unique_bonds(final(tab)@),
        bond_of(final(tab)@, who) == amount,
        forall|w: u32| w != who ==> bond_of(final(tab)@, w) == bond_of(old(tab)@, w),
{
    let ghost pre = tab@;
    let n = tab.len();
    let mut i: usize = 0;
    while i < n
        invariant
            unique_bonds(pre),
            pre == tab@,
            pre == old(tab)@,
            n == tab@.len(),
            0 <= i <= n,
            forall|j: int| 0 <= j < i ==> (#[trigger] pre[j]).0 != who,
        decreases n - i,
    {
        let found = tab[i].0 == who;
        if found {
            tab.remove(i);
            tab.insert(i, (who, amount));
            proof {
                assert(tab@ =~= pre.update(i as int, (who, amount)));
                lemma_bond_update(pre, tab@, who, i as int);
            }
            return ;
        }
        i = i + 1;
    }
    proof {
        assert(!has_bond(pre, who));
    }
    tab.push((who, amount));
    proof {
        lemma_bond_push(pre, tab@, who);
    }
}

/// The entry of `who`, zero when there is none.
fn ledger_get(tab: &Vec<(u32, u128)>, who: u32) -> (r: u128)
    requires
        unique_bonds(tab@),
    ensures
        r == bond_of(tab@, who),
{
    let n = tab.len();
    let mut i: usize = 0;
    while i < n
        invariant
            unique_bonds(tab@),
            n == tab@.len(),
            0 <= i <= n,
            forall|j: int| 0 <= j < i ==> (#[trigger] tab@[j]).0 != who,
        decreases n - i,
    {
        if tab[i].0 == who {
            proof {
                assert(has_bond(tab@, who));
                lemma_bond_index(tab@, who, i as int);
            }
            return tab[i].1;
        }
        i = i + 1;
    }
    0
}

/// Remove the entry of `who` and hand its amount out.
fn ledger_take(tab: &mut Vec<(u32, u128)>, who: u32) -> (r: Option<u128>)
    requires
        unique_bonds(old(tab)@),
    ensures
        unique_bonds(final(tab)@),
        match r {
            Some(v) => has_bond(old(tab)@, who) && v == bond_of(old(tab)@, who),
            None => !has_bond(old(tab)@, who) && final(tab)@ == old(tab)@,
        },
        !has_bond(final(tab)@, who),
        forall|w: u32| w != who ==> bond_of(final(tab)@, w) == bond_of(old(tab)@, w),
{
    let ghost pre = tab@;
    let n = tab.len();
    let mut i: usize = 0;
    while i < n
        invariant
            unique_bonds(pre),
            pre == tab@,
            pre == old(tab)@,
            n == tab@.len(),
            0 <= i <= n,
            forall|j: int| 0 <= j < i ==> (#[trigger] pre[j]).0 != who,
        decreases n - i,
    {
        if tab[i].0 == who {
            proof {
                assert(has_bond(pre, who));
                lemma_bond_index(pre, who, i as int);
            }
            let e = tab.remove(i);
            proof {
                lemma_bond_remove(pre, tab@, who, i as int);
            }
            return Some(e.1);
        }
        i = i + 1;
    }
    None
}

/// Removing the entry of `who` keeps ids distinct and the other stakes
/// alone.
proof fn lemma_bond_remove(pre: Seq<(u32, u128)>, post: Seq<(u32, u128)>, who: u32, i: int)
    requires
        unique_bonds(pre),
        0 <= i < pre.len(),
        pre[i].0 == who,
        post == pre.remove(i),
    ensures
        unique_bonds(post),
        !has_bond(post, who),
        forall|w: u32| w != who ==> bond_of(post, w) == bond_of(pre, w),
{
    assert forall|a: int, b: int|
        0 <= a < b < post.len() implies (#[trigger] post[a]).0 != (#[trigger] post[b]).0 by {
        let a2 = if a < i {
            a
        } else {
            a + 1
        };
        let b2 = if b < i {
            b
        } else {
            b + 1
        };
        assert(post[a] == pre[a2]);
        assert(post[b] == pre[b2]);
        assert(pre[a2].0 != pre[b2].0);
    }
    assert forall|j: int| 0 <= j < post.len() implies (#[trigger] post[j]).0 != who by {
        let j2 = if j < i {
            j
        } else {
            j + 1
        };
        assert(post[j] == pre[j2]);
        if j2 != i {
            if j2 < i {
                assert(pre[j2].0 != pre[i].0);
            } else {
                assert(pre[i].0 != pre[j2].0);
            }
        }
    }
    assert forall|w: u32| w != who implies bond_of(post, w) == bond_of(pre, w) by {
        if has_bond(pre, w) {
            let j = bond_index(pre, w);
            assert(0 <= j < pre.len() && pre[j].0 == w);
            assert(j != i);
            let j2 = if j < i {
                j
            } else {
                j - 1
            };
            assert(post[j2] == pre[j]);
            assert(has_bond(post, w));
            lemma_bond_index(post, w, j2);
            lemma_bond_index(pre, w, j);
        } else {
            if has_bond(post, w) {
                let j = bond_index(post, w);
                let j2 = if j < i {
                    j
                } else {
                    j + 1
                };
                assert(post[j] == pre[j2]);
                assert(has_bond(pre, w));
            }
        }
    }
}

/// With distinct ids, the entry of `who` sits at the one index that
/// carries its id.
proof fn lemma_bond_index(s: Seq<(u32, u128)>, who: u32, i: int)
    requires
        unique_bonds(s),
        0 <= i < s.len(),
        s[i].0 == who,
    ensures
        bond_index(s, who) == i,
{
    assert(has_bond(s, who));
    let j = bond_index(s, who);
    assert(0 <= j < s.len() && s[j].0 == who);
    if j < i {
        assert(s[j].0 != s[i].0);
    }
    if i < j {
        assert(s[i].0 != s[j].0);
    }
}

/// An in-place update of the entry of `who` keeps ids distinct and the
/// other stakes alone.
proof fn lemma_bond_update(pre: Seq<(u32, u128)>, post: Seq<(u32, u128)>, who: u32, i: int)
    requires
        unique_bonds(pre),
        0 <= i < pre.len(),
        pre[i].0 == who,
        post == pre.update(i, post[i]),
        post[i].0 == who,
    ensures
        unique_bonds(post),
        bond_of(post, who) == post[i].1,
        forall|w: u32| w != who ==> bond_of(post, w) == bond_of(pre, w),
{
    assert forall|a: int, b: int|
        0 <= a < b < post.len() implies (#[trigger] post[a]).0 != (#[trigger] post[b]).0 by {
        assert(pre[a].0 == (if a == i {
            who
        } else {
            post[a].0
        }));
        assert(pre[b].0 == (if b == i {
            who
        } else {
            post[b].0
        }));
    }
    assert(has_bond(post, who));
    lemma_bond_index(post, who, i);
    assert forall|w: u32| w != who implies bond_of(post, w) == bond_of(pre, w) by {
        if has_bond(pre, w) {
            let j = bond_index(pre, w);
            assert(0 <= j < pre.len() && pre[j].0 == w);
            assert(j != i);
            assert(post[j] == pre[j]);
            assert(has_bond(post, w));
            lemma_bond_index(post, w, j);
            lemma_bond_index(pre, w, j);
        } else {
            if has_bond(post, w) {
                let j2 = bond_index(post, w);
                assert(pre[j2].0 == (if j2 == i {
                    who
                } else {
                    post[j2].0
                }));
                assert(has_bond(pre, w));
            }
        }
    }
}

/// Appending an entry for an absent staker keeps ids distinct and the
/// other stakes alone.
proof fn lemma_bond_push(pre: Seq<(u32, u128)>, post: Seq<(u32, u128)>, who: u32)
    requires
        unique_bonds(pre),
        !has_bond(pre, who),
        post == pre.push(post.last()),
        post.last().0 == who,
        post.len() == pre.len() + 1,
    ensures
        unique_bonds(post),
        bond_of(post, who) == post.last().1,
        forall|w: u32| w != who ==> bond_of(post, w) == bond_of(pre, w),
{
    let last = post.len() - 1;
    assert forall|a: int, b: int|
        0 <= a < b < post.len() implies (#[trigger] post[a]).0 != (#[trigger] post[b]).0 by {
        if b < last {
            assert(pre[a].0 != pre[b].0);
        } else {
            assert(post[a] == pre[a]);
        }
    }
    assert(post[last].0 == who);
    assert(has_bond(post, who));
    lemma_bond_index(post, who, last);
    assert forall|w: u32| w != who implies bond_of(post, w) == bond_of(pre, w) by {
        if has_bond(pre, w) {
            let j = bond_index(pre, w);
            assert(0 <= j < pre.len() && pre[j].0 == w);
            assert(post[j] == pre[j]);
            assert(has_bond(post, w));
            lemma_bond_index(post, w, j);
            lemma_bond_index(pre, w, j);
        } else {
            if has_bond(post, w) {
                let j2 = bond_index(post, w);
                assert(0 <= j2 < post.len() && post[j2].0 == w);
                assert(j2 != last);
                assert(pre[j2] == post[j2]);
                assert(has_bond(pre, w));
            }
        }
    }
}

/// Builds the staking state a test runs against: one pool whose stash,
/// account `10`, is bonded at the minimum, plus the given delegators.
pub struct ExtBuilder {
    pub delegators: Vec<(u32, u128)>,
}

impl Default for ExtBuilder {
    /// A builder with no delegators.
    fn default() -> (r: ExtBuilder)
        ensures
            r.delegators@.len() == 0,
    {
        ExtBuilder { delegators: Vec::new() }
    }
}

impl ExtBuilder {
    /// Add delegators to the pool.
    pub fn add_delegators(self, delegators: Vec<(u32, u128)>) -> (r: ExtBuilder)
        ensures
            r.delegators@ == delegators@,
    {
        ExtBuilder { delegators }
    }

    /// Assemble the ledger.
    pub fn build(self) -> (r: StakingMock)
        ensures
            r.wf(),
            (forall|i: int|
                0 <= i < self.delegators@.len() ==> (#[trigger] self.delegators@[i]).0 != 10)
                ==> bond_of(r.bonded@, 10) == 10,
            forall|i: int|
                0 <= i < self.delegators@.len() && (forall|j: int|
                    i < j < self.delegators@.len() ==> (#[trigger] self.delegators@[j]).0 != (
                    #[trigger] self.delegators@[i]).0) ==> bond_of(
                    r.bonded@,
                    self.delegators@[i].0,
                ) == self.delegators@[i].1,
    {
        let mut staking = StakingMock::new();
        staking.set_bonded_balance(10, StakingMock::minimum_bond());
        let n = self.delegators.len();
        let mut i: usize = 0;
        while i < n
            invariant
                staking.wf(),
                n == self.delegators@.len(),
                0 <= i <= n,
                (forall|k: int| 0 <= k < i ==> (#[trigger] self.delegators@[k]).0 != 10)
                    ==> bond_of(staking.bonded@, 10) == 10,
                forall|k: int|
                    0 <= k < i && (forall|j: int|
                        k < j < i ==> (#[trigger] self.delegators@[j]).0 != (
                        #[trigger] self.delegators@[k]).0) ==> bond_of(
                        staking.bonded@,
                        self.delegators@[k].0,
                    ) == self.delegators@[k].1,
            decreases n - i,
        {
            let (who, bonded) = self.delegators[i];
            staking.set_bonded_balance(who, bonded);
            i = i + 1;
        }
        staking
    }

    /// Assemble the ledger, then run the test body.
    pub fn build_and_execute(self, test: impl FnOnce() -> ())
        requires
            call_requires(test, ()),
    {
        let _staking = self.build();
        test();
    }
}

} // verus!
