use vstd::prelude::*;
use crate::assets::{Asset, AssetList};
use crate::location::{Junction, Location};

verus! {

/// The assets that one account owns.
#[derive(Debug)]
pub struct Account {
    pub who: Location,
    pub assets: AssetList,
}

pub open spec fn holds_at(s: Seq<Account>, i: int, w: (u8, Seq<Junction>)) -> bool {
    0 <= i < s.len() && s[i].who@ == w
}

pub open spec fn unique_holders(s: Seq<Account>) -> bool {
    forall|i: int, j: int| 0 <= i < j < s.len() ==> s[i].who@ != s[j].who@
}

/// Balance of class `id` that the account at `w` owns.
pub open spec fn balance_in(s: Seq<Account>, w: (u8, Seq<Junction>), id: u64) -> nat {
    if exists|i: int| holds_at(s, i, w) {
        s[choose|i: int| holds_at(s, i, w)].assets.amount(id)
    } else {
        0
    }
}

proof fn lemma_balance_at(s: Seq<Account>, i: int, w: (u8, Seq<Junction>), id: u64)
    requires
        unique_holders(s),
        holds_at(s, i, w),
    ensures
        balance_in(s, w, id) == s[i].assets.amount(id),
{
    let j = choose|j: int| holds_at(s, j, w);
    assert(holds_at(s, j, w));
    if i < j {
        assert(s[i].who@ != s[j].who@);
    } else if j < i {
        assert(s[j].who@ != s[i].who@);
    }
}

/// Why the ledger refused an operation; it is left unchanged.
#[derive(Clone, Copy, Debug, PartialEq, Eq, Structural)]
pub enum LedgerError {
    /// The account owns less than was asked for.
    InsufficientBalance,
    /// The account's balance would exceed the largest amount.
    Overflow,
}

/// Balances of accounts on the local system: the asset transactor that the interpreter
/// withdraws from and deposits into.
#[derive(Debug)]
pub struct Ledger {
    pub accounts: Vec<Account>,
}

impl Ledger {
    pub open spec fn wf(&self) -> bool {
        &&& unique_holders(self.accounts@)
        &&& forall|i: int| 0 <= i < self.accounts@.len() ==> (#[trigger] self.accounts@[i]).assets.wf()
    }

    pub open spec fn balance(&self, w: (u8, Seq<Junction>), id: u64) -> nat {
        balance_in(self.accounts@, w, id)
    }

    /// Every balance but that of class `id` at `who` is as in `other`.
    pub open spec fn same_except(&self, other: &Ledger, who: (u8, Seq<Junction>), id: u64) -> bool {
        forall|w: (u8, Seq<Junction>), c: u64| (w, c) != (who, id) ==> #[trigger] self.balance(w, c) == other.balance(w, c)
    }

    pub fn new() -> (r: Ledger)
        ensures
            r.wf(),
            forall|w: (u8, Seq<Junction>), c: u64| r.balance(w, c) == 0,
    {
        Ledger { accounts: Vec::new() }
    }

    fn find(&self, who: &Location) -> (r: Option<usize>)
        ensures
            r matches Some(i) ==> holds_at(self.accounts@, i as int, who@),
            r is None ==> forall|k: int| !holds_at(self.accounts@, k, who@),
    {
        let mut i: usize = 0;
        while i < self.accounts.len()
            invariant
                i <= self.accounts@.len(),
                forall|k: int| 0 <= k < i ==> !holds_at(self.accounts@, k, who@),
            decreases self.accounts@.len() - i,
        {
            if self.accounts[i].who.same(who) {
                return Some(i);
            }
            i = i + 1;
        }
        None
    }

    pub fn balance_of(&self, who: &Location, id: u64) -> (r: u128)
        requires
            self.wf(),
        ensures
            r == self.balance(who@, id),
    {
        match self.find(who) {
            Some(i) => {
                proof { lemma_balance_at(self.accounts@, i as int, who@, id); }
                self.accounts[i].assets.amount_of(id)
            },
            None => 0,
        }
    }

    /// Puts `assets` in place of the holdings of the account at index `i`.
    fn replace_at(&mut self, i: usize, assets: AssetList)
        requires
            old(self).wf(),
            i < old(self).accounts@.len(),
            assets.wf(),
        ensures
            final(self).wf(),
            forall|c: u64| #[trigger] final(self).balance(old(self).accounts@[i as int].who@, c) == assets.amount(c),
            forall|w: (u8, Seq<Junction>), c: u64| w != old(self).accounts@[i as int].who@
                ==> #[trigger] final(self).balance(w, c) == old(self).balance(w, c),
    {
        let ghost s = self.accounts@;
        let who = self.accounts[i].who.copy();
        self.accounts.set(i, Account { who, assets });
        proof {
            let t = self.accounts@;
            assert forall|a: int, b: int| 0 <= a < b < t.len() implies t[a].who@ != t[b].who@ by {
                assert(t[a].who@ == s[a].who@ && t[b].who@ == s[b].who@);
            }
            assert forall|k: int| 0 <= k < t.len() implies (#[trigger] t[k]).assets.wf() by {
                if k != i { assert(t[k] == s[k]); }
            }
            assert forall|c: u64| #[trigger] self.balance(s[i as int].who@, c) == assets.amount(c) by {
                lemma_balance_at(t, i as int, s[i as int].who@, c);
            }
            assert forall|w: (u8, Seq<Junction>), c: u64| w != s[i as int].who@
                implies #[trigger] self.balance(w, c) == balance_in(s, w, c) by {
                if exists|k: int| holds_at(s, k, w) {
                    let k = choose|k: int| holds_at(s, k, w);
                    lemma_balance_at(s, k, w, c);
                    lemma_balance_at(t, k, w, c);
                } else {
                    assert forall|k: int| !holds_at(t, k, w) by {
                        if holds_at(t, k, w) { assert(holds_at(s, k, w)); }
                    }
                }
            }
        }
    }

    /// Takes `a` out of the account at `who`; fails and changes nothing when the account owns less.
    pub fn withdraw(&mut self, who: &Location, a: Asset) -> (r: Result<(), LedgerError>)
        requires
            old(self).wf(),
        ensures
            final(self).wf(),
            (r is Ok) == (a.amount <= old(self).balance(who@, a.id)),
            r is Ok ==> final(self).balance(who@, a.id) == old(self).balance(who@, a.id) - a.amount,
            r is Ok ==> final(self).same_except(old(self), who@, a.id),
            r matches Err(e) ==> e == LedgerError::InsufficientBalance && final(self)@ == old(self)@,
    {
        if a.amount == 0 {
            return Ok(());
        }
        match self.find(who) {
            None => Err(LedgerError::InsufficientBalance),
            Some(i) => {
                proof { lemma_balance_at(self.accounts@, i as int, who@, a.id); }
                if self.accounts[i].assets.amount_of(a.id) < a.amount {
                    return Err(LedgerError::InsufficientBalance);
                }
                let mut assets = self.accounts[i].assets.copy();
                assets.take(a.id, a.amount);
                self.replace_at(i, assets);
                Ok(())
            },
        }
    }

    /// Adds `a` to the account at `who`; fails and changes nothing when the balance would overflow.
    pub fn deposit(&mut self, who: &Location, a: Asset) -> (r: Result<(), LedgerError>)
        requires
            old(self).wf(),
        ensures
            final(self).wf(),
            (r is Ok) == (old(self).balance(who@, a.id) + a.amount <= u128::MAX),
            r is Ok ==> final(self).balance(who@, a.id) == old(self).balance(who@, a.id) + a.amount,
            r is Ok ==> final(self).same_except(old(self), who@, a.id),
            r matches Err(e) ==> e == LedgerError::Overflow && final(self)@ == old(self)@,
    {
        match self.find(who) {
            Some(i) => {
                proof { lemma_balance_at(self.accounts@, i as int, who@, a.id); }
                if !self.accounts[i].assets.can_add(a) {
                    return Err(LedgerError::Overflow);
                }
                let mut assets = self.accounts[i].assets.copy();
                assets.subsume(a);
                self.replace_at(i, assets);
                Ok(())
            },
            None => {
                if a.amount == 0 {
                    return Ok(());
                }
                let ghost s = self.accounts@;
                let assets = AssetList::single(a);
                self.accounts.push(Account { who: who.copy(), assets });
                proof {
                    let t = self.accounts@;
                    let n = s.len() as int;
                    assert(t[n] == Account { who: t[n].who, assets: t[n].assets });
                    assert forall|x: int, y: int| 0 <= x < y < t.len() implies t[x].who@ != t[y].who@ by {
                        if y == n { assert(!holds_at(s, x, who@)); }
                    }
                    assert forall|k: int| 0 <= k < t.len() implies (#[trigger] t[k]).assets.wf() by {
                        if k < n { assert(t[k] == s[k]); }
                    }
                    lemma_balance_at(t, n, who@, a.id);
                    assert forall|w: (u8, Seq<Junction>), c: u64| (w, c) != (who@, a.id)
                        implies #[trigger] self.balance(w, c) == balance_in(s, w, c) by {
                        if w == who@ {
                            lemma_balance_at(t, n, w, c);
                        } else if exists|k: int| holds_at(s, k, w) {
                            let k = choose|k: int| holds_at(s, k, w);
                            lemma_balance_at(s, k, w, c);
                            lemma_balance_at(t, k, w, c);
                        } else {
                            assert forall|k: int| !holds_at(t, k, w) by {
                                if holds_at(t, k, w) && k < n { assert(holds_at(s, k, w)); }
                            }
                        }
                    }
                }
                Ok(())
            },
        }
    }
}

impl View for Ledger {
    type V = Seq<Account>;

    open spec fn view(&self) -> Seq<Account> {
        self.accounts@
    }
}

} // verus!
