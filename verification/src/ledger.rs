//! The ledger collaborator: per-account free and reserved balances with
//! `reserve` / `unreserve`.
//!
//! Existence of an attribute implies a reservation of exactly its
//! deposit against the collection owner's account here. `reserve` fails
//! without mutating anything when the free balance does not cover the
//! amount; `unreserve` is best-effort and never fails the caller.

use vstd::prelude::*;

use crate::DispatchError;

verus! {

/// One account's balances. The invariant `free + reserved <= u64::MAX`
/// lets reservations move value between the two sides without overflow.
#[derive(Clone, Copy, Debug, PartialEq, Eq, Structural)]
pub struct AccountRecord {
    pub who: u64,
    pub free: u64,
    pub reserved: u64,
}

/// Index `i` holds the account of `who`.
pub open spec fn account_at(s: Seq<AccountRecord>, who: u64, i: int) -> bool {
    0 <= i < s.len() && s[i].who == who
}

/// Some index holds the account of `who`.
pub open spec fn spec_has_account(s: Seq<AccountRecord>, who: u64) -> bool {
    exists|i: int| account_at(s, who, i)
}

/// The index holding the account of `who` (unique under `accounts_wf`).
pub open spec fn account_index(s: Seq<AccountRecord>, who: u64) -> int {
    choose|i: int| account_at(s, who, i)
}

/// Account identities are unique and every account respects the
/// free-plus-reserved bound.
pub open spec fn accounts_wf(s: Seq<AccountRecord>) -> bool {
    &&& forall|i: int, j: int|
        0 <= i < j < s.len() ==> (#[trigger] s[i]).who != (#[trigger] s[j]).who
    &&& forall|i: int| 0 <= i < s.len() ==> (#[trigger] s[i]).free + s[i].reserved <= u64::MAX
}

/// The free balance of `who`; an absent account holds nothing.
pub open spec fn spec_free(s: Seq<AccountRecord>, who: u64) -> int {
    if spec_has_account(s, who) {
        s[account_index(s, who)].free as int
    } else {
        0
    }
}

/// The reserved balance of `who`; an absent account holds nothing.
pub open spec fn spec_reserved(s: Seq<AccountRecord>, who: u64) -> int {
    if spec_has_account(s, who) {
        s[account_index(s, who)].reserved as int
    } else {
        0
    }
}

/// Under unique identities, any index holding `who` is the index the
/// balance functions read.
pub proof fn lemma_account_at_unique(s: Seq<AccountRecord>, who: u64, i: int)
    requires
        accounts_wf(s),
        account_at(s, who, i),
    ensures
        spec_has_account(s, who),
        account_index(s, who) == i,
{
    assert(spec_has_account(s, who));
    let k = account_index(s, who);
    assert(account_at(s, who, k));
    if k != i {
        assert((s[k]).who != (s[i]).who);
        assert(false);
    }
}

/// Replacing the account at index `i` (same identity) moves only that
/// account's balances.
proof fn lemma_account_update(s: Seq<AccountRecord>, i: int, r: AccountRecord)
    requires
        accounts_wf(s),
        0 <= i < s.len(),
        r.who == s[i].who,
        r.free + r.reserved <= u64::MAX,
    ensures
        accounts_wf(s.update(i, r)),
        spec_free(s.update(i, r), r.who) == r.free,
        spec_reserved(s.update(i, r), r.who) == r.reserved,
        forall|w: u64|
            w != r.who ==> #[trigger] spec_free(s.update(i, r), w) == spec_free(s, w)
                && spec_reserved(s.update(i, r), w) == spec_reserved(s, w),
{
    let s2 = s.update(i, r);
    lemma_account_at_unique(s2, r.who, i);
    assert forall|w: u64| w != r.who implies #[trigger] spec_free(s2, w) == spec_free(s, w)
        && spec_reserved(s2, w) == spec_reserved(s, w) by {
        if spec_has_account(s, w) {
            let k = account_index(s, w);
            assert(account_at(s, w, k));
            assert(k != i);
            lemma_account_at_unique(s2, w, k);
        } else {
            if spec_has_account(s2, w) {
                let k = choose|k: int| account_at(s2, w, k);
                assert(k != i);
                assert(account_at(s, w, k));
                assert(false);
            }
        }
    }
}

/// Appending a fresh identity leaves every other balance unchanged.
proof fn lemma_account_push(s: Seq<AccountRecord>, r: AccountRecord)
    requires
        accounts_wf(s),
        !spec_has_account(s, r.who),
        r.free + r.reserved <= u64::MAX,
    ensures
        accounts_wf(s.push(r)),
        spec_free(s.push(r), r.who) == r.free,
        spec_reserved(s.push(r), r.who) == r.reserved,
        forall|w: u64|
            w != r.who ==> #[trigger] spec_free(s.push(r), w) == spec_free(s, w)
                && spec_reserved(s.push(r), w) == spec_reserved(s, w),
{
    let s2 = s.push(r);
    assert forall|i: int, j: int| 0 <= i < j < s2.len() implies (#[trigger] s2[i]).who
        != (#[trigger] s2[j]).who by {
        if j == s.len() {
            if s2[i].who == r.who {
                assert(account_at(s, r.who, i));
                assert(false);
            }
        }
    }
    lemma_account_at_unique(s2, r.who, s.len() as int);
    assert forall|w: u64| w != r.who implies #[trigger] spec_free(s2, w) == spec_free(s, w)
        && spec_reserved(s2, w) == spec_reserved(s, w) by {
        if spec_has_account(s, w) {
            let k = account_index(s, w);
            assert(account_at(s, w, k));
            lemma_account_at_unique(s2, w, k);
        } else {
            if spec_has_account(s2, w) {
                let k = choose|k: int| account_at(s2, w, k);
                assert(k != s.len());
                assert(account_at(s, w, k));
                assert(false);
            }
        }
    }
}

/// The external ledger: a set of accounts, each with a free and a
/// reserved balance.
#[derive(Clone, Debug)]
pub struct Ledger {
    pub accounts: Vec<AccountRecord>,
}

impl Ledger {
    pub open spec fn wf(self) -> bool {
        accounts_wf(self.accounts@)
    }

    pub open spec fn free_of(self, who: u64) -> int {
        spec_free(self.accounts@, who)
    }

    pub open spec fn reserved_of(self, who: u64) -> int {
        spec_reserved(self.accounts@, who)
    }

    /// How much an `unreserve` of `amount` actually releases: all of it,
    /// or whatever is reserved if that is less.
    pub open spec fn unreserve_amount(self, who: u64, amount: u64) -> int {
        if amount <= self.reserved_of(who) {
            amount as int
        } else {
            self.reserved_of(who)
        }
    }

    /// An empty ledger: no account holds anything.
    pub fn new() -> (l: Ledger)
        ensures
            l.wf(),
            forall|w: u64| #[trigger] l.free_of(w) == 0 && l.reserved_of(w) == 0,
    {
        let l = Ledger { accounts: Vec::new() };
        proof {
            assert forall|w: u64| #[trigger] l.free_of(w) == 0 && l.reserved_of(w) == 0 by {
                if spec_has_account(l.accounts@, w) {
                    let k = choose|k: int| account_at(l.accounts@, w, k);
                    assert(false);
                }
            }
        }
        l
    }

    fn find_account(&self, who: u64) -> (r: Option<usize>)
        ensures
            match r {
                Some(i) => account_at(self.accounts@, who, i as int),
                None => !spec_has_account(self.accounts@, who),
            },
    {
        let mut i: usize = 0;
        while i < self.accounts.len()
            invariant
                i <= self.accounts@.len(),
                forall|k: int| 0 <= k < i ==> (#[trigger] self.accounts@[k]).who != who,
            decreases self.accounts@.len() - i,
        {
            if self.accounts[i].who == who {
                return Some(i);
            }
            i = i + 1;
        }
        proof {
            if spec_has_account(self.accounts@, who) {
                let k = choose|k: int| account_at(self.accounts@, who, k);
                assert((self.accounts@[k]).who != who);
                assert(false);
            }
        }
        None
    }

    /// Install an account with an initial free balance and nothing
    /// reserved. Refuses an identity that already has an account.
    pub fn endow(&mut self, who: u64, free: u64) -> (r: bool)
        requires
            old(self).wf(),
        ensures
            final(self).wf(),
            r == !spec_has_account(old(self).accounts@, who),
            r ==> final(self).free_of(who) == free && final(self).reserved_of(who) == 0,
            r ==> forall|w: u64|
                w != who ==> #[trigger] final(self).free_of(w) == old(self).free_of(w)
                    && final(self).reserved_of(w) == old(self).reserved_of(w),
            !r ==> *final(self) == *old(self),
    {
        match self.find_account(who) {
            Some(i) => false,
            None => {
                let rec = AccountRecord { who, free, reserved: 0 };
                proof {
                    lemma_account_push(self.accounts@, rec);
                }
                self.accounts.push(rec);
                true
            },
        }
    }

    /// Read the free balance of `who`.
    pub fn free_balance(&self, who: u64) -> (r: u64)
        requires
            self.wf(),
        ensures
            r == self.free_of(who),
    {
        match self.find_account(who) {
            Some(i) => {
                proof {
                    lemma_account_at_unique(self.accounts@, who, i as int);
                }
                self.accounts[i].free
            },
            None => 0,
        }
    }

    /// Read the reserved balance of `who`.
    pub fn reserved_balance(&self, who: u64) -> (r: u64)
        requires
            self.wf(),
        ensures
            r == self.reserved_of(who),
    {
        match self.find_account(who) {
            Some(i) => {
                proof {
                    lemma_account_at_unique(self.accounts@, who, i as int);
                }
                self.accounts[i].reserved
            },
            None => 0,
        }
    }

    /// Move `amount` from `who`'s free balance to its reserved balance.
    /// Fails with `InsufficientBalance`, mutating nothing, exactly when
    /// the free balance does not cover the amount.
    pub fn reserve(&mut self, who: u64, amount: u64) -> (r: Result<(), DispatchError>)
        requires
            old(self).wf(),
        ensures
            final(self).wf(),
            match r {
                Ok(u) => old(self).free_of(who) >= amount && final(self).free_of(who) == old(
                    self,
                ).free_of(who) - amount && final(self).reserved_of(who) == old(
                    self,
                ).reserved_of(who) + amount,
                Err(e) => e == DispatchError::InsufficientBalance && old(self).free_of(who)
                    < amount && *final(self) == *old(self),
            },
            forall|w: u64|
                w != who ==> #[trigger] final(self).free_of(w) == old(self).free_of(w)
                    && final(self).reserved_of(w) == old(self).reserved_of(w),
    {
        match self.find_account(who) {
            Some(i) => {
                proof {
                    lemma_account_at_unique(self.accounts@, who, i as int);
                }
                let acc = self.accounts[i];
                if acc.free >= amount {
                    let rec = AccountRecord {
                        who,
                        free: acc.free - amount,
                        reserved: acc.reserved + amount,
                    };
                    proof {
                        lemma_account_update(self.accounts@, i as int, rec);
                    }
                    self.accounts[i] = rec;
                    Ok(())
                } else {
                    Err(DispatchError::InsufficientBalance)
                }
            },
            None => {
                if amount == 0 {
                    Ok(())
                } else {
                    Err(DispatchError::InsufficientBalance)
                }
            },
        }
    }

    /// Release up to `amount` from `who`'s reserved balance back to its
    /// free balance. Best-effort: releases whatever is reserved if that
    /// is less, and never fails the caller.
    pub fn unreserve(&mut self, who: u64, amount: u64)
        requires
            old(self).wf(),
        ensures
            final(self).wf(),
            final(self).reserved_of(who) == old(self).reserved_of(who) - old(
                self,
            ).unreserve_amount(who, amount),
            final(self).free_of(who) == old(self).free_of(who) + old(self).unreserve_amount(
                who,
                amount,
            ),
            forall|w: u64|
                w != who ==> #[trigger] final(self).free_of(w) == old(self).free_of(w)
                    && final(self).reserved_of(w) == old(self).reserved_of(w),
    {
        match self.find_account(who) {
            Some(i) => {
                proof {
                    lemma_account_at_unique(self.accounts@, who, i as int);
                }
                let acc = self.accounts[i];
                let moved = if amount <= acc.reserved {
                    amount
                } else {
                    acc.reserved
                };
                let rec = AccountRecord {
                    who,
                    free: acc.free + moved,
                    reserved: acc.reserved - moved,
                };
                proof {
                    lemma_account_update(self.accounts@, i as int, rec);
                }
                self.accounts[i] = rec;
            },
            None => {},
        }
    }
}

} // verus!
