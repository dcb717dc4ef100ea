//! A small account ledger.
//!
//! The operations layer only needs to ask whether a caller can cover a
//! deposit and to confiscate it when the caller's declaration was wrong.
//! This ledger keeps one record per account: a free balance, slashed
//! first, and a reserved balance, slashed for the shortfall.

use vstd::prelude::*;

verus! {

/// One account record.
#[derive(Clone, Copy, Debug, PartialEq, Eq, Structural)]
pub struct Account {
    pub id: u64,
    pub free: u64,
    pub reserved: u64,
}

/// Some record of `s` belongs to `who`.
pub open spec fn has_account(s: Seq<Account>, who: u64) -> bool {
    exists|i: int| 0 <= i < s.len() && (#[trigger] s[i]).id == who
}

/// The index of the record of `who`.
pub open spec fn account_index(s: Seq<Account>, who: u64) -> int {
    choose|i: int| 0 <= i < s.len() && (#[trigger] s[i]).id == who
}

/// The free balance of `who`, zero when no record exists.
pub open spec fn free_of(s: Seq<Account>, who: u64) -> u64 {
    if has_account(s, who) {
        s[account_index(s, who)].free
    } else {
        0
    }
}

/// The reserved balance of `who`, zero when no record exists.
pub open spec fn reserved_of(s: Seq<Account>, who: u64) -> u64 {
    if has_account(s, who) {
        s[account_index(s, who)].reserved
    } else {
        0
    }
}

/// All account ids are distinct.
pub open spec fn unique_accounts(s: Seq<Account>) -> bool {
    forall|i: int, j: int| 0 <= i < j < s.len() ==> (#[trigger] s[i]).id != (#[trigger] s[j]).id
}

/// The ledger after confiscating up to `value` from `who`: the free
/// balance pays first, the reserved balance covers the shortfall.
pub open spec fn slashed(s: Seq<Account>, who: u64, value: u64) -> Seq<Account> {
    if has_account(s, who) {
        let i = account_index(s, who);
        let a = s[i];
        let from_free = if a.free < value {
            a.free
        } else {
            value
        };
        let shortfall = (value - from_free) as u64;
        let from_reserved = if a.reserved < shortfall {
            a.reserved
        } else {
            shortfall
        };
        s.update(
            i,
            Account {
                id: who,
                free: (a.free - from_free) as u64,
                reserved: (a.reserved - from_reserved) as u64,
            },
        )
    } else {
        s
    }
}

/// What a slash of `value` against `who` could not collect.
pub open spec fn slash_remainder(s: Seq<Account>, who: u64, value: u64) -> u64 {
    let covered = free_of(s, who).saturating_add(reserved_of(s, who));
    if covered < value {
        (value - covered) as u64
    } else {
        0
    }
}

/// The ledger: one record per account.
pub struct Balances {
    pub accounts: Vec<Account>,
}

impl View for Balances {
    type V = Seq<Account>;

    open spec fn view(&self) -> Seq<Account> {
        self.accounts@
    }
}

impl Balances {
    pub open spec fn wf(&self) -> bool {
        unique_accounts(self@)
    }

    /// An empty ledger.
    pub fn new() -> (r: Balances)
        ensures
            r.wf(),
            r@.len() == 0,
    {
        Balances { accounts: Vec::new() }
    }

    /// Find the record of `who`.
    fn find(&self, who: u64) -> (r: Option<usize>)
        requires
            self.wf(),
        ensures
            match r {
                Some(i) => i < self@.len() && self@[i as int].id == who && has_account(
                    self@,
                    who,
                ) && account_index(self@, who) == i as int,
                None => !has_account(self@, who),
            },
    {
        let mut i: usize = 0;
        let n = self.accounts.len();
        while i < n
            invariant
                self.wf(),
                n == self@.len(),
                0 <= i <= n,
                forall|j: int| 0 <= j < i ==> (#[trigger] self@[j]).id != who,
            decreases n - i,
        {
            if self.accounts[i].id == who {
                proof {
                    assert(has_account(self@, who));
                    assert forall|j: int|
                        0 <= j < self@.len() && (#[trigger] self@[j]).id == who implies j
                        == i as int by {
                        if j > i {
                            assert(self@[i as int].id != self@[j].id);
                        }
                    }
                }
                return Some(i);
            }
            i = i + 1;
        }
        None
    }

    /// Give `who` the free balance `amount`, creating the record when
    /// absent; the reserved balance is untouched.
    pub fn make_free_balance_be(&mut self, who: u64, amount: u64)
        requires
            old(self).wf(),
        ensures
            final(self).wf(),
            free_of(final(self)@, who) == amount,
            reserved_of(final(self)@, who) == reserved_of(old(self)@, who),
            forall|w: u64|
                w != who ==> free_of(final(self)@, w) == free_of(old(self)@, w) && reserved_of(
                    final(self)@,
                    w,
                ) == reserved_of(old(self)@, w),
    {
        let ghost pre = self@;
        match self.find(who) {
            Some(i) => {
                let a = self.accounts.remove(i);
                self.accounts.insert(i, Account { id: who, free: amount, reserved: a.reserved });
                proof {
                    assert(self@ =~= pre.update(i as int, self@[i as int]));
                    lemma_account_ops(pre, self@, who, i as int);
                }
            },
            None => {
                self.accounts.push(Account { id: who, free: amount, reserved: 0 });
                proof {
                    lemma_account_push(pre, self@, who);
                }
            },
        }
    }

    /// The free balance of `who`.
    pub fn free_balance(&self, who: u64) -> (r: u64)
        requires
            self.wf(),
        ensures
            r == free_of(self@, who),
    {
        match self.find(who) {
            Some(i) => self.accounts[i].free,
            None => 0,
        }
    }

    /// The reserved balance of `who`.
    pub fn reserved_balance(&self, who: u64) -> (r: u64)
        requires
            self.wf(),
        ensures
            r == reserved_of(self@, who),
    {
        match self.find(who) {
            Some(i) => self.accounts[i].reserved,
            None => 0,
        }
    }

    /// Whether a slash of `value` against `who` would collect all of it
    /// from the free balance.
    pub fn can_slash(&self, who: u64, value: u64) -> (r: bool)
        requires
            self.wf(),
        ensures
            r == (value == 0 || free_of(self@, who) >= value),
    {
        if value == 0 {
            return true;
        }
        self.free_balance(who) >= value
    }

    /// Confiscate up to `value` from `who` and report what could not be
    /// collected.
    pub fn slash(&mut self, who: u64, value: u64) -> (remainder: u64)
        requires
            old(self).wf(),
        ensures
            final(self).wf(),
            final(self)@ == slashed(old(self)@, who, value),
            remainder == slash_remainder(old(self)@, who, value),
    {
        let ghost pre = self@;
        match self.find(who) {
            Some(i) => {
                let a = self.accounts.remove(i);
                let from_free = if a.free < value {
                    a.free
                } else {
                    value
                };
                let shortfall = value - from_free;
                let from_reserved = if a.reserved < shortfall {
                    a.reserved
                } else {
                    shortfall
                };
                self.accounts.insert(
                    i,
                    Account {
                        id: who,
                        free: a.free - from_free,
                        reserved: a.reserved - from_reserved,
                    },
                );
                proof {
                    assert(self@ =~= pre.update(i as int, self@[i as int]));
                    assert(self@ =~= slashed(pre, who, value));
                    lemma_account_ops(pre, self@, who, i as int);
                }
                shortfall - from_reserved
            },
            None => value,
        }
    }
}

/// An in-place update of the record at the index of `who` keeps the ids
/// distinct and leaves every other account's balances alone.
proof fn lemma_account_ops(pre: Seq<Account>, post: Seq<Account>, who: u64, i: int)
    requires
        unique_accounts(pre),
        0 <= i < pre.len(),
        pre[i].id == who,
        post == pre.update(i, post[i]),
        post[i].id == who,
    ensures
        unique_accounts(post),
        has_account(post, who),
        account_index(post, who) == i,
        forall|w: u64|
            w != who ==> free_of(post, w) == free_of(pre, w) && reserved_of(post, w)
                == reserved_of(pre, w),
{
    assert forall|a: int, b: int|
        0 <= a < b < post.len() implies (#[trigger] post[a]).id != (#[trigger] post[b]).id by {
        assert(pre[a].id == (if a == i {
            who
        } else {
            post[a].id
        }));
        assert(pre[b].id == (if b == i {
            who
        } else {
            post[b].id
        }));
    }
    assert(post[i].id == who);
    assert(has_account(post, who));
    lemma_index_of_unique(post, who, i);
    assert forall|w: u64|
        w != who implies free_of(post, w) == free_of(pre, w) && reserved_of(post, w)
        == reserved_of(pre, w) by {
        if has_account(pre, w) {
            let j = account_index(pre, w);
            assert(0 <= j < pre.len() && pre[j].id == w);
            assert(j != i);
            assert(post[j] == pre[j]);
            assert(has_account(post, w));
            lemma_index_of_unique(post, w, j);
        } else {
            if has_account(post, w) {
                let j2 = account_index(post, w);
                assert(0 <= j2 < post.len() && post[j2].id == w);
                assert(j2 != i);
                assert(pre[j2] == post[j2]);
                assert(has_account(pre, w));
            }
        }
    }
}

/// Appending a record for an absent account keeps the ids distinct and
/// leaves every other account's balances alone.
proof fn lemma_account_push(pre: Seq<Account>, post: Seq<Account>, who: u64)
    requires
        unique_accounts(pre),
        !has_account(pre, who),
        post == pre.push(post.last()),
        post.last().id == who,
        post.len() == pre.len() + 1,
    ensures
        unique_accounts(post),
        has_account(post, who),
        account_index(post, who) == post.len() - 1,
        forall|w: u64|
            w != who ==> free_of(post, w) == free_of(pre, w) && reserved_of(post, w)
                == reserved_of(pre, w),
{
    let last = post.len() - 1;
    assert forall|a: int, b: int|
        0 <= a < b < post.len() implies (#[trigger] post[a]).id != (#[trigger] post[b]).id by {
        if b < last {
            assert(pre[a].id != pre[b].id);
        } else {
            assert(post[a] == pre[a]);
        }
    }
    assert(post[last].id == who);
    assert(has_account(post, who));
    lemma_index_of_unique(post, who, last);
    assert forall|w: u64|
        w != who implies free_of(post, w) == free_of(pre, w) && reserved_of(post, w)
        == reserved_of(pre, w) by {
        if has_account(pre, w) {
            let j = account_index(pre, w);
            assert(0 <= j < pre.len() && pre[j].id == w);
            assert(post[j] == pre[j]);
            assert(has_account(post, w));
            lemma_index_of_unique(post, w, j);
        } else {
            if has_account(post, w) {
                let j2 = account_index(post, w);
                assert(0 <= j2 < post.len() && post[j2].id == w);
                assert(j2 != last);
                assert(pre[j2] == post[j2]);
                assert(has_account(pre, w));
            }
        }
    }
}

/// In a ledger with distinct ids, the record of `who` sits at the one
/// index that carries its id.
proof fn lemma_index_of_unique(s: Seq<Account>, who: u64, i: int)
    requires
        unique_accounts(s),
        0 <= i < s.len(),
        s[i].id == who,
    ensures
        account_index(s, who) == i,
{
    assert(has_account(s, who));
    let j = account_index(s, who);
    assert(0 <= j < s.len() && s[j].id == who);
    if j < i {
        assert(s[j].id != s[i].id);
    }
    if i < j {
        assert(s[i].id != s[j].id);
    }
}

} // verus!
