use vstd::prelude::*;

verus! {

/// A fungible asset: an asset class identifier and an amount of it.
#[derive(Clone, Copy, Debug, PartialEq, Eq, Structural)]
pub struct Asset {
    pub id: u64,
    pub amount: u128,
}

/// What `a` contributes to the total of class `id`.
pub open spec fn share(a: Asset, id: u64) -> nat {
    if a.id == id { a.amount as nat } else { 0 }
}

/// Total amount of class `id` over a sequence of assets.
pub open spec fn amount_in(s: Seq<Asset>, id: u64) -> nat
    decreases s.len(),
{
    if s.len() == 0 { 0 } else { amount_in(s.drop_last(), id) + share(s.last(), id) }
}

pub open spec fn unique_ids(s: Seq<Asset>) -> bool {
    forall|i: int, j: int| 0 <= i < j < s.len() ==> s[i].id != s[j].id
}

pub proof fn lemma_amount_push(s: Seq<Asset>, a: Asset, id: u64)
    ensures
        amount_in(s.push(a), id) == amount_in(s, id) + share(a, id),
{
    assert(s.push(a).drop_last() == s);
}

pub proof fn lemma_amount_update(s: Seq<Asset>, i: int, x: Asset, id: u64)
    requires
        0 <= i < s.len(),
    ensures
        amount_in(s.update(i, x), id) + share(s[i], id) == amount_in(s, id) + share(x, id),
    decreases s.len(),
{
    let t = s.update(i, x);
    if i == s.len() - 1 {
        assert(t.drop_last() == s.drop_last());
    } else {
        lemma_amount_update(s.drop_last(), i, x, id);
        assert(t.drop_last() == s.drop_last().update(i, x));
    }
}

pub proof fn lemma_amount_remove(s: Seq<Asset>, i: int, id: u64)
    requires
        0 <= i < s.len(),
    ensures
        amount_in(s.remove(i), id) + share(s[i], id) == amount_in(s, id),
    decreases s.len(),
{
    let t = s.remove(i);
    if i == s.len() - 1 {
        assert(t == s.drop_last());
    } else {
        lemma_amount_remove(s.drop_last(), i, id);
        assert(t.drop_last() == s.drop_last().remove(i));
        assert(t.last() == s.last());
    }
}

pub proof fn lemma_amount_absent(s: Seq<Asset>, id: u64)
    requires
        forall|k: int| 0 <= k < s.len() ==> s[k].id != id,
    ensures
        amount_in(s, id) == 0,
    decreases s.len(),
{
    if s.len() > 0 {
        lemma_amount_absent(s.drop_last(), id);
    }
}

pub proof fn lemma_amount_unique(s: Seq<Asset>, i: int)
    requires
        unique_ids(s),
        0 <= i < s.len(),
    ensures
        amount_in(s, s[i].id) == s[i].amount,
    decreases s.len(),
{
    let id = s[i].id;
    if i == s.len() - 1 {
        lemma_amount_absent(s.drop_last(), id);
    } else {
        lemma_amount_unique(s.drop_last(), i);
    }
}

/// A set of fungible assets with unique class identifiers and nonzero amounts.
/// Adding an asset of a class already present merges the amounts.
#[derive(Debug)]
pub struct AssetList {
    pub items: Vec<Asset>,
}

impl View for AssetList {
    type V = Seq<Asset>;

    open spec fn view(&self) -> Seq<Asset> {
        self.items@
    }
}

impl AssetList {
    pub open spec fn wf(&self) -> bool {
        &&& unique_ids(self@)
        &&& forall|k: int| 0 <= k < self@.len() ==> self@[k].amount > 0
    }

    /// Total amount of class `id` in the list.
    pub open spec fn amount(&self, id: u64) -> nat {
        amount_in(self@, id)
    }

    /// Two lists hold the same amount of every class.
    pub open spec fn same_as(&self, other: &AssetList) -> bool {
        forall|id: u64| self.amount(id) == other.amount(id)
    }

    pub open spec fn is_empty_spec(&self) -> bool {
        forall|id: u64| self.amount(id) == 0
    }

    pub fn new() -> (r: AssetList)
        ensures
            r.wf(),
            r.is_empty_spec(),
            r@.len() == 0,
    {
        let r = AssetList { items: Vec::new() };
        proof {
            assert forall|id: u64| r.amount(id) == 0 by {
                lemma_amount_absent(r@, id);
            }
        }
        r
    }

    /// A list holding `a` alone (nothing when its amount is zero).
    pub fn single(a: Asset) -> (r: AssetList)
        ensures
            r.wf(),
            forall|id: u64| r.amount(id) == share(a, id),
    {
        let mut r = AssetList::new();
        if a.amount > 0 {
            r.items.push(a);
            proof {
                assert forall|id: u64| r.amount(id) == share(a, id) by {
                    lemma_amount_push(Seq::empty(), a, id);
                    assert(Seq::<Asset>::empty().push(a) =~= r@);
                }
            }
        }
        r
    }

    pub fn len(&self) -> (r: usize)
        ensures
            r == self@.len(),
    {
        self.items.len()
    }

    /// Position of the entry of class `id`, if any.
    pub fn find(&self, id: u64) -> (r: Option<usize>)
        ensures
            r matches Some(i) ==> i < self@.len() && self@[i as int].id == id,
            r is None ==> forall|k: int| 0 <= k < self@.len() ==> self@[k].id != id,
    {
        let mut i: usize = 0;
        while i < self.items.len()
            invariant
                i <= self@.len(),
                forall|k: int| 0 <= k < i ==> self@[k].id != id,
            decreases self@.len() - i,
        {
            if self.items[i].id == id {
                return Some(i);
            }
            i = i + 1;
        }
        None
    }

    pub fn amount_of(&self, id: u64) -> (r: u128)
        requires
            self.wf(),
        ensures
            r == self.amount(id),
    {
        match self.find(id) {
            Some(i) => {
                proof { lemma_amount_unique(self@, i as int); }
                self.items[i].amount
            },
            None => {
                proof { lemma_amount_absent(self@, id); }
                0
            },
        }
    }

    pub fn is_empty(&self) -> (r: bool)
        requires
            self.wf(),
        ensures
            r == self.is_empty_spec(),
    {
        if self.items.len() == 0 {
            proof {
                assert forall|id: u64| self.amount(id) == 0 by {
                    lemma_amount_absent(self@, id);
                }
            }
            true
        } else {
            proof {
                lemma_amount_unique(self@, 0);
                assert(self.amount(self@[0].id) > 0);
            }
            false
        }
    }

    /// Whether `a` can be added without the total of its class overflowing.
    pub fn can_add(&self, a: Asset) -> (r: bool)
        requires
            self.wf(),
        ensures
            r == (self.amount(a.id) + a.amount <= u128::MAX),
    {
        let have = self.amount_of(a.id);
        have <= u128::MAX - a.amount
    }

    /// Adds `a`, merging it into the entry of its class.
    pub fn subsume(&mut self, a: Asset)
        requires
            old(self).wf(),
            old(self).amount(a.id) + a.amount <= u128::MAX,
        ensures
            final(self).wf(),
            forall|id: u64| final(self).amount(id) == old(self).amount(id) + share(a, id),
    {
        if a.amount == 0 {
            return;
        }
        match self.find(a.id) {
            Some(i) => {
                let ghost s = self@;
                proof { lemma_amount_unique(s, i as int); }
                let cur = self.items[i].amount;
                let merged = Asset { id: a.id, amount: cur + a.amount };
                self.items.set(i, merged);
                proof {
                    assert forall|id: u64| self.amount(id) == amount_in(s, id) + share(a, id) by {
                        lemma_amount_update(s, i as int, merged, id);
                    }
                }
            },
            None => {
                let ghost s = self@;
                self.items.push(a);
                proof {
                    assert forall|id: u64| self.amount(id) == amount_in(s, id) + share(a, id) by {
                        lemma_amount_push(s, a, id);
                    }
                }
            },
        }
    }

    /// Removes up to `max` of class `id`, as much as is there, and returns the amount removed.
    pub fn take(&mut self, id: u64, max: u128) -> (r: u128)
        requires
            old(self).wf(),
        ensures
            final(self).wf(),
            r == if max <= old(self).amount(id) { max as nat } else { old(self).amount(id) },
            final(self).amount(id) == old(self).amount(id) - r,
            forall|o: u64| o != id ==> final(self).amount(o) == old(self).amount(o),
    {
        let ghost s = self@;
        match self.find(id) {
            None => {
                proof { lemma_amount_absent(s, id); }
                0
            },
            Some(i) => {
                proof { lemma_amount_unique(s, i as int); }
                let cur = self.items[i].amount;
                if max < cur {
                    let rest = Asset { id, amount: cur - max };
                    self.items.set(i, rest);
                    proof {
                        assert forall|o: u64| #[trigger] self.amount(o) + share(s[i as int], o)
                            == amount_in(s, o) + share(rest, o) by {
                            lemma_amount_update(s, i as int, rest, o);
                        }
                    }
                    max
                } else {
                    self.items.remove(i);
                    proof {
                        assert forall|o: u64| #[trigger] self.amount(o) + share(s[i as int], o)
                            == amount_in(s, o) by {
                            lemma_amount_remove(s, i as int, o);
                        }
                        assert forall|a: int, b: int| 0 <= a < b < self@.len()
                            implies self@[a].id != self@[b].id by {
                            let a0 = if a < i { a } else { a + 1 };
                            let b0 = if b < i { b } else { b + 1 };
                            assert(self@[a] == s[a0] && self@[b] == s[b0]);
                        }
                        assert forall|k: int| 0 <= k < self@.len() implies self@[k].amount > 0 by {
                            let k0 = if k < i { k } else { k + 1 };
                            assert(self@[k] == s[k0]);
                        }
                    }
                    cur
                }
            },
        }
    }
    /// Whether the list is well formed: unique classes and nonzero amounts.
    pub fn check_wf(&self) -> (r: bool)
        ensures
            r == self.wf(),
    {
        let n = self.items.len();
        let mut i: usize = 0;
        while i < n
            invariant
                n == self@.len(),
                i <= n,
                forall|a: int, b: int| 0 <= a < b < n && a < i ==> self@[a].id != self@[b].id,
                forall|k: int| 0 <= k < i ==> self@[k].amount > 0,
            decreases n - i,
        {
            if self.items[i].amount == 0 {
                return false;
            }
            let mut j: usize = i + 1;
            while j < n
                invariant
                    n == self@.len(),
                    i < n,
                    i < j <= n,
                    forall|b: int| i < b < j ==> self@[i as int].id != self@[b].id,
                decreases n - j,
            {
                if self.items[i].id == self.items[j].id {
                    return false;
                }
                j = j + 1;
            }
            i = i + 1;
        }
        true
    }

    /// A copy holding the same entries.
    pub fn copy(&self) -> (r: AssetList)
        ensures
            r@ == self@,
    {
        let mut items: Vec<Asset> = Vec::new();
        let mut i: usize = 0;
        while i < self.items.len()
            invariant
                i <= self@.len(),
                items@ == self@.subrange(0, i as int),
            decreases self@.len() - i,
        {
            items.push(self.items[i]);
            i = i + 1;
            proof { assert(items@ =~= self@.subrange(0, i as int)); }
        }
        proof { assert(items@ =~= self@); }
        AssetList { items }
    }

    /// Every entry of `self` is matched, amount for amount, in `other`.
    fn covered_by(&self, other: &AssetList) -> (r: bool)
        requires
            other.wf(),
        ensures
            r == forall|k: int| 0 <= k < self@.len() ==> other.amount(#[trigger] self@[k].id) == self@[k].amount,
    {
        let mut i: usize = 0;
        while i < self.items.len()
            invariant
                other.wf(),
                i <= self@.len(),
                forall|k: int| 0 <= k < i ==> other.amount(#[trigger] self@[k].id) == self@[k].amount,
            decreases self@.len() - i,
        {
            let a = self.items[i];
            if other.amount_of(a.id) != a.amount {
                return false;
            }
            i = i + 1;
        }
        true
    }

    /// Whether the two lists hold the same amount of every class, whatever the order of entries.
    pub fn same_contents(&self, other: &AssetList) -> (r: bool)
        requires
            self.wf(),
            other.wf(),
        ensures
            r == self.same_as(other),
    {
        if !self.covered_by(other) {
            proof {
                let k = choose|k: int| 0 <= k < self@.len() && other.amount(#[trigger] self@[k].id) != self@[k].amount;
                lemma_amount_unique(self@, k);
            }
            return false;
        }
        if !other.covered_by(self) {
            proof {
                let k = choose|k: int| 0 <= k < other@.len() && self.amount(#[trigger] other@[k].id) != other@[k].amount;
                lemma_amount_unique(other@, k);
            }
            return false;
        }
        proof {
            assert forall|id: u64| self.amount(id) == other.amount(id) by {
                if exists|k: int| 0 <= k < self@.len() && self@[k].id == id {
                    let k = choose|k: int| 0 <= k < self@.len() && self@[k].id == id;
                    lemma_amount_unique(self@, k);
                } else if exists|k: int| 0 <= k < other@.len() && other@[k].id == id {
                    let k = choose|k: int| 0 <= k < other@.len() && other@[k].id == id;
                    lemma_amount_unique(other@, k);
                } else {
                    lemma_amount_absent(self@, id);
                    lemma_amount_absent(other@, id);
                }
            }
        }
        true
    }

    /// Whether adding every entry of `other` keeps each total within range.
    pub fn can_absorb(&self, other: &AssetList) -> (r: bool)
        requires
            self.wf(),
            other.wf(),
        ensures
            r == forall|id: u64| self.amount(id) + other.amount(id) <= u128::MAX,
    {
        let mut i: usize = 0;
        while i < other.items.len()
            invariant
                self.wf(),
                other.wf(),
                i <= other@.len(),
                forall|k: int| 0 <= k < i ==> self.amount(#[trigger] other@[k].id) + other@[k].amount <= u128::MAX,
            decreases other@.len() - i,
        {
            if !self.can_add(other.items[i]) {
                proof {
                    lemma_amount_unique(other@, i as int);
                    let id = other@[i as int].id;
                    assert(!(self.amount(id) + other.amount(id) <= u128::MAX));
                }
                return false;
            }
            i = i + 1;
        }
        proof {
            assert forall|id: u64| self.amount(id) + other.amount(id) <= u128::MAX by {
                if exists|k: int| 0 <= k < other@.len() && other@[k].id == id {
                    let k = choose|k: int| 0 <= k < other@.len() && other@[k].id == id;
                    lemma_amount_unique(other@, k);
                } else {
                    lemma_amount_absent(other@, id);
                    if exists|k: int| 0 <= k < self@.len() && self@[k].id == id {
                        let k = choose|k: int| 0 <= k < self@.len() && self@[k].id == id;
                        lemma_amount_unique(self@, k);
                    } else {
                        lemma_amount_absent(self@, id);
                    }
                }
            }
        }
        true
    }

    /// Adds every entry of `other`; fails and changes nothing when some total would overflow.
    pub fn absorb(&mut self, other: &AssetList) -> (r: bool)
        requires
            old(self).wf(),
            other.wf(),
        ensures
            final(self).wf(),
            r == forall|id: u64| old(self).amount(id) + other.amount(id) <= u128::MAX,
            r ==> forall|id: u64| final(self).amount(id) == old(self).amount(id) + other.amount(id),
            !r ==> final(self)@ == old(self)@,
    {
        if !self.can_absorb(other) {
            return false;
        }
        let ghost start = *self;
        let mut j: usize = 0;
        while j < other.items.len()
            invariant
                self.wf(),
                other.wf(),
                start.wf(),
                j <= other@.len(),
                forall|id: u64| start.amount(id) + other.amount(id) <= u128::MAX,
                forall|id: u64| #[trigger] self.amount(id) == start.amount(id) + amount_in(other@.subrange(0, j as int), id),
            decreases other@.len() - j,
        {
            let a = other.items[j];
            proof {
                let pre = other@.subrange(0, j as int);
                assert forall|k: int| 0 <= k < pre.len() implies pre[k].id != a.id by {
                    assert(pre[k] == other@[k]);
                }
                lemma_amount_absent(pre, a.id);
                lemma_amount_unique(other@, j as int);
            }
            self.subsume(a);
            proof {
                let pre = other@.subrange(0, j as int);
                assert(other@.subrange(0, j + 1) =~= pre.push(a));
                assert forall|id: u64| #[trigger] self.amount(id) == start.amount(id) + amount_in(other@.subrange(0, j + 1), id) by {
                    lemma_amount_push(pre, a, id);
                }
            }
            j = j + 1;
        }
        proof { assert(other@.subrange(0, other@.len() as int) =~= other@); }
        true
    
    }
}

} // verus!
