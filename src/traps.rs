use vstd::prelude::*;
use crate::assets::{AssetList, amount_in, Asset};
use crate::location::{Junction, Location};

verus! {

/// Holding left over by a finished program, claimable later by the same origin.
#[derive(Debug)]
pub struct TrapEntry {
    pub origin: Location,
    pub ticket: u32,
    pub assets: AssetList,
}

/// Two asset sequences hold the same amount of every class.
pub open spec fn same_amounts(a: Seq<Asset>, b: Seq<Asset>) -> bool {
    forall|id: u64| amount_in(a, id) == amount_in(b, id)
}

pub open spec fn entry_matches(e: TrapEntry, o: (u8, Seq<Junction>), t: u32, h: Seq<Asset>) -> bool {
    e.origin@ == o && e.ticket == t && same_amounts(e.assets@, h)
}

/// How many entries of `s` match origin `o`, ticket `t` and contents `h`.
pub open spec fn count_in(s: Seq<TrapEntry>, o: (u8, Seq<Junction>), t: u32, h: Seq<Asset>) -> nat
    decreases s.len(),
{
    if s.len() == 0 {
        0
    } else {
        count_in(s.drop_last(), o, t, h) + if entry_matches(s.last(), o, t, h) { 1nat } else { 0nat }
    }
}

proof fn lemma_count_push(s: Seq<TrapEntry>, e: TrapEntry, o: (u8, Seq<Junction>), t: u32, h: Seq<Asset>)
    ensures
        count_in(s.push(e), o, t, h) == count_in(s, o, t, h) + if entry_matches(e, o, t, h) { 1nat } else { 0nat },
{
    assert(s.push(e).drop_last() == s);
}

proof fn lemma_count_remove(s: Seq<TrapEntry>, i: int, o: (u8, Seq<Junction>), t: u32, h: Seq<Asset>)
    requires
        0 <= i < s.len(),
    ensures
        count_in(s.remove(i), o, t, h) + (if entry_matches(s[i], o, t, h) { 1nat } else { 0nat }) == count_in(s, o, t, h),
    decreases s.len(),
{
    let r = s.remove(i);
    if i == s.len() - 1 {
        assert(r == s.drop_last());
    } else {
        lemma_count_remove(s.drop_last(), i, o, t, h);
        assert(r.drop_last() == s.drop_last().remove(i));
        assert(r.last() == s.last());
    }
}

proof fn lemma_count_zero(s: Seq<TrapEntry>, o: (u8, Seq<Junction>), t: u32, h: Seq<Asset>)
    requires
        forall|k: int| 0 <= k < s.len() ==> !entry_matches(#[trigger] s[k], o, t, h),
    ensures
        count_in(s, o, t, h) == 0,
    decreases s.len(),
{
    if s.len() > 0 {
        lemma_count_zero(s.drop_last(), o, t, h);
    }
}

/// The state after trapping `h` for origin `o` under ticket `t`: one more matching entry for
/// every contents equal to `h`, nothing else changed.
pub open spec fn trap_post(before: Seq<TrapEntry>, after: Seq<TrapEntry>, o: (u8, Seq<Junction>), t: u32, h: Seq<Asset>) -> bool {
    forall|o2: (u8, Seq<Junction>), t2: u32, h2: Seq<Asset>| #[trigger] count_in(after, o2, t2, h2)
        == count_in(before, o2, t2, h2) + if o2 == o && t2 == t && same_amounts(h, h2) { 1nat } else { 0nat }
}

/// The state after a claim of `h` by origin `o` under ticket `t` that gave `r`: the claim succeeds
/// exactly when a matching entry exists, hands back its contents and removes that one entry.
pub open spec fn claim_post(before: Seq<TrapEntry>, after: Seq<TrapEntry>, o: (u8, Seq<Junction>), t: u32, h: Seq<Asset>, r: Option<AssetList>) -> bool {
    &&& (r is Some) == (count_in(before, o, t, h) > 0)
    &&& match r {
        Some(got) => same_amounts(got@, h) && got.wf() && trap_post(after, before, o, t, h),
        None => after == before,
    }
}

/// Store of unclaimed holding contents, keyed by origin, ticket and contents.
#[derive(Debug)]
pub struct TrapRegistry {
    pub entries: Vec<TrapEntry>,
}

impl View for TrapRegistry {
    type V = Seq<TrapEntry>;

    open spec fn view(&self) -> Seq<TrapEntry> {
        self.entries@
    }
}

impl TrapRegistry {
    pub open spec fn wf(&self) -> bool {
        forall|k: int| 0 <= k < self@.len() ==> (#[trigger] self@[k]).assets.wf()
    }

    pub open spec fn count(&self, o: (u8, Seq<Junction>), t: u32, h: Seq<Asset>) -> nat {
        count_in(self@, o, t, h)
    }

    pub fn new() -> (r: TrapRegistry)
        ensures
            r.wf(),
            forall|o: (u8, Seq<Junction>), t: u32, h: Seq<Asset>| r.count(o, t, h) == 0,
    {
        TrapRegistry { entries: Vec::new() }
    }

    pub fn len(&self) -> (r: usize)
        ensures
            r == self@.len(),
    {
        self.entries.len()
    }

    /// How many entries match `origin`, `ticket` and the contents of `assets`.
    pub fn count_of(&self, origin: &Location, ticket: u32, assets: &AssetList) -> (r: usize)
        requires
            self.wf(),
            assets.wf(),
        ensures
            r == self.count(origin@, ticket, assets@),
    {
        let mut n: usize = 0;
        let mut i: usize = 0;
        while i < self.entries.len()
            invariant
                self.wf(),
                assets.wf(),
                i <= self@.len(),
                n == count_in(self@.subrange(0, i as int), origin@, ticket, assets@),
                n <= i,
            decreases self@.len() - i,
        {
            let e = &self.entries[i];
            proof {
                assert(self@.subrange(0, i + 1).drop_last() =~= self@.subrange(0, i as int));
                assert(self@.subrange(0, i + 1).last() == self@[i as int]);
                assert(e.assets.wf());
            }
            if e.ticket == ticket && e.origin.same(origin) && e.assets.same_contents(assets) {
                proof {
                    assert forall|id: u64| amount_in(e.assets@, id) == amount_in(assets@, id) by {
                        assert(e.assets.amount(id) == assets.amount(id));
                    }
                }
                n = n + 1;
            }
            i = i + 1;
        }
        proof { assert(self@.subrange(0, self@.len() as int) =~= self@); }
        n
    }

    /// Records `assets` as trapped by `origin` under `ticket`.
    pub fn trap(&mut self, origin: &Location, ticket: u32, assets: AssetList)
        requires
            old(self).wf(),
            assets.wf(),
        ensures
            final(self).wf(),
            trap_post(old(self)@, final(self)@, origin@, ticket, assets@),
    {
        let ghost s = self@;
        let e = TrapEntry { origin: origin.copy(), ticket, assets };
        self.entries.push(e);
        proof {
            assert forall|o2: (u8, Seq<Junction>), t2: u32, h2: Seq<Asset>| #[trigger] count_in(self@, o2, t2, h2)
                == count_in(s, o2, t2, h2) + if o2 == origin@ && t2 == ticket && same_amounts(assets@, h2) { 1nat } else { 0nat } by {
                lemma_count_push(s, e, o2, t2, h2);
            }
            assert forall|k: int| 0 <= k < self@.len() implies (#[trigger] self@[k]).assets.wf() by {
                if k < s.len() { assert(self@[k] == s[k]); }
            }
        }
    }

    /// Removes one entry of `origin`, `ticket` and the contents of `assets`, and returns its contents.
    pub fn claim(&mut self, origin: &Location, ticket: u32, assets: &AssetList) -> (r: Option<AssetList>)
        requires
            old(self).wf(),
            assets.wf(),
        ensures
            final(self).wf(),
            claim_post(old(self)@, final(self)@, origin@, ticket, assets@, r),
    {
        let ghost s = self@;
        let mut i: usize = 0;
        while i < self.entries.len()
            invariant
                self@ == s,
                s == old(self)@,
                self.wf(),
                assets.wf(),
                i <= s.len(),
                forall|k: int| 0 <= k < i ==> !entry_matches(#[trigger] s[k], origin@, ticket, assets@),
            decreases s.len() - i,
        {
            let e = &self.entries[i];
            if e.ticket == ticket && e.origin.same(origin) && e.assets.same_contents(assets) {
                let removed = self.entries.remove(i);
                proof {
                    assert forall|id: u64| amount_in(removed.assets@, id) == amount_in(assets@, id) by {
                        assert(removed.assets.amount(id) == assets.amount(id));
                    }
                    assert(entry_matches(s[i as int], origin@, ticket, assets@));
                    assert forall|o2: (u8, Seq<Junction>), t2: u32, h2: Seq<Asset>| #[trigger] count_in(s, o2, t2, h2)
                        == count_in(self@, o2, t2, h2) + if o2 == origin@ && t2 == ticket && same_amounts(assets@, h2) { 1nat } else { 0nat } by {
                        lemma_count_remove(s, i as int, o2, t2, h2);
                        assert(same_amounts(removed.assets@, h2) == same_amounts(assets@, h2));
                    }
                    assert forall|k: int| 0 <= k < self@.len() implies (#[trigger] self@[k]).assets.wf() by {
                        if k < i { assert(self@[k] == s[k]); } else { assert(self@[k] == s[k + 1]); }
                    }
                    lemma_count_remove(s, i as int, origin@, ticket, assets@);
                    assert(removed.assets == s[i as int].assets);
                    assert(removed.assets.wf());
                    }
                return Some(removed.assets);
            }
            i = i + 1;
        }
        proof { lemma_count_zero(s, origin@, ticket, assets@); }
        None
    }
}

/// Trapping contents `h` that were not yet trapped for origin `o` under ticket `t`, then claiming
/// them, gives back `h` and leaves no matching entry, so a second claim fails.
pub proof fn lemma_trap_then_claim_once(
    before: Seq<TrapEntry>,
    trapped: Seq<TrapEntry>,
    claimed: Seq<TrapEntry>,
    again: Seq<TrapEntry>,
    o: (u8, Seq<Junction>),
    t: u32,
    h: Seq<Asset>,
    r1: Option<AssetList>,
    r2: Option<AssetList>,
)
    requires
        count_in(before, o, t, h) == 0,
        trap_post(before, trapped, o, t, h),
        claim_post(trapped, claimed, o, t, h, r1),
        claim_post(claimed, again, o, t, h, r2),
    ensures
        r1 matches Some(got) && same_amounts(got@, h),
        r2 is None,
        again == claimed,
        count_in(claimed, o, t, h) == 0,
{
    assert(count_in(trapped, o, t, h) == count_in(before, o, t, h) + 1);
    assert(count_in(trapped, o, t, h) == count_in(claimed, o, t, h) + 1);
}

} // verus!
