use vstd::prelude::*;
use crate::location::{Junction, Location};

verus! {

/// What is known of the message versions that one destination accepts.
#[derive(Clone, Copy, Debug, PartialEq, Eq, Structural)]
pub struct VersionState {
    pub known_version: Option<u32>,
    pub subscribed: bool,
}

#[derive(Debug)]
pub struct VersionEntry {
    pub dest: Location,
    pub state: VersionState,
}

/// A location that asked to hear of changes of the local version, with its query id.
#[derive(Debug)]
pub struct Subscriber {
    pub who: Location,
    pub query_id: u64,
}

/// How to send to a destination: at which version, and whether a subscription request must go too.
#[derive(Clone, Copy, Debug, PartialEq, Eq, Structural)]
pub struct Wrapping {
    pub version: u32,
    pub subscribe: bool,
}

pub open spec fn dest_at(s: Seq<VersionEntry>, i: int, d: (u8, Seq<Junction>)) -> bool {
    0 <= i < s.len() && s[i].dest@ == d
}

pub open spec fn unique_dests(s: Seq<VersionEntry>) -> bool {
    forall|i: int, j: int| 0 <= i < j < s.len() ==> s[i].dest@ != s[j].dest@
}

pub open spec fn state_in(s: Seq<VersionEntry>, d: (u8, Seq<Junction>)) -> Option<VersionState> {
    if exists|i: int| dest_at(s, i, d) {
        Some(s[choose|i: int| dest_at(s, i, d)].state)
    } else {
        None
    }
}

proof fn lemma_state_at(s: Seq<VersionEntry>, i: int, d: (u8, Seq<Junction>))
    requires
        unique_dests(s),
        dest_at(s, i, d),
    ensures
        state_in(s, d) == Some(s[i].state),
{
    let j = choose|j: int| dest_at(s, j, d);
    assert(dest_at(s, j, d));
    if i < j {
        assert(s[i].dest@ != s[j].dest@);
    } else if j < i {
        assert(s[j].dest@ != s[i].dest@);
    }
}

pub open spec fn min_u32(a: u32, b: u32) -> u32 {
    if a <= b { a } else { b }
}

/// The state of a destination once version `v` has been heard from it.
pub open spec fn noted(prev: Option<VersionState>, v: u32) -> VersionState {
    VersionState {
        known_version: Some(v),
        subscribed: match prev { Some(st) => st.subscribed, None => false },
    }
}

/// The subscriber set of `after` is that of `before` with `who` under `q` in place of any earlier entry.
pub open spec fn subscribed_post(before: Seq<Subscriber>, after: Seq<Subscriber>, who: (u8, Seq<Junction>), q: u64) -> bool {
    &&& exists|i: int| 0 <= i < after.len() && after[i].who@ == who && after[i].query_id == q
    &&& forall|i: int, j: int| 0 <= i < j < after.len() ==> after[i].who@ != after[j].who@
    &&& forall|i: int| 0 <= i < after.len() && after[i].who@ != who ==>
            exists|k: int| 0 <= k < before.len() && before[k].who@ == after[i].who@ && before[k].query_id == after[i].query_id
    &&& forall|k: int| 0 <= k < before.len() && before[k].who@ != who ==>
            exists|i: int| 0 <= i < after.len() && after[i].who@ == before[k].who@ && after[i].query_id == before[k].query_id
}

/// Per-destination version negotiation, and the locations subscribed to the local version.
#[derive(Debug)]
pub struct VersionNegotiator {
    pub entries: Vec<VersionEntry>,
    pub subscribers: Vec<Subscriber>,
    /// The version used towards a destination whose version is not known yet.
    pub default_version: u32,
}

impl VersionNegotiator {
    pub open spec fn wf(&self) -> bool {
        &&& unique_dests(self.entries@)
        &&& forall|i: int, j: int| 0 <= i < j < self.subscribers@.len() ==> self.subscribers@[i].who@ != self.subscribers@[j].who@
    }

    pub open spec fn state(&self, d: (u8, Seq<Junction>)) -> Option<VersionState> {
        state_in(self.entries@, d)
    }

    /// `after` differs from `before` only in the state of `d`, which is `st`.
    pub open spec fn set_post(before: &VersionNegotiator, after: &VersionNegotiator, d: (u8, Seq<Junction>), st: VersionState) -> bool {
        &&& Self::states_set(before, after, d, st)
        &&& after.subscribers == before.subscribers
    }

    /// The state of `d` in `after` is `st`; the states of other destinations and the default are
    /// as in `before`.
    pub open spec fn states_set(before: &VersionNegotiator, after: &VersionNegotiator, d: (u8, Seq<Junction>), st: VersionState) -> bool {
        &&& after.state(d) == Some(st)
        &&& forall|w: (u8, Seq<Junction>)| w != d ==> #[trigger] after.state(w) == before.state(w)
        &&& after.default_version == before.default_version
    }

    /// The negotiator after `note_version(d, v)`.
    pub open spec fn note_post(before: &VersionNegotiator, after: &VersionNegotiator, d: (u8, Seq<Junction>), v: u32) -> bool {
        Self::set_post(before, after, d, noted(before.state(d), v))
    }

    pub fn new(default_version: u32) -> (r: VersionNegotiator)
        ensures
            r.wf(),
            r.default_version == default_version,
            r.subscribers@.len() == 0,
            forall|w: (u8, Seq<Junction>)| r.state(w) is None,
    {
        VersionNegotiator { entries: Vec::new(), subscribers: Vec::new(), default_version }
    }

    pub fn state_of(&self, dest: &Location) -> (r: Option<VersionState>)
        requires
            self.wf(),
        ensures
            r == self.state(dest@),
    {
        let mut i: usize = 0;
        while i < self.entries.len()
            invariant
                self.wf(),
                i <= self.entries@.len(),
                forall|k: int| 0 <= k < i ==> !dest_at(self.entries@, k, dest@),
            decreases self.entries@.len() - i,
        {
            if self.entries[i].dest.same(dest) {
                proof { lemma_state_at(self.entries@, i as int, dest@); }
                return Some(self.entries[i].state);
            }
            i = i + 1;
        }
        None
    }

    fn set_state(&mut self, dest: &Location, st: VersionState)
        requires
            old(self).wf(),
        ensures
            final(self).wf(),
            Self::set_post(old(self), final(self), dest@, st),
    {
        let ghost s = self.entries@;
        let mut i: usize = 0;
        while i < self.entries.len()
            invariant
                self.entries@ == s,
                s == old(self).entries@,
                old(self).wf(),
                self.subscribers == old(self).subscribers,
                self.default_version == old(self).default_version,
                i <= s.len(),
                forall|k: int| 0 <= k < i ==> !dest_at(s, k, dest@),
            decreases s.len() - i,
        {
            if self.entries[i].dest.same(dest) {
                let d = self.entries[i].dest.copy();
                self.entries.set(i, VersionEntry { dest: d, state: st });
                proof {
                    let t = self.entries@;
                    assert forall|a: int, b: int| 0 <= a < b < t.len() implies t[a].dest@ != t[b].dest@ by {
                        assert(t[a].dest@ == s[a].dest@ && t[b].dest@ == s[b].dest@);
                    }
                    lemma_state_at(t, i as int, dest@);
                    assert forall|w: (u8, Seq<Junction>)| w != dest@ implies #[trigger] state_in(t, w) == state_in(s, w) by {
                        if exists|k: int| dest_at(s, k, w) {
                            let k = choose|k: int| dest_at(s, k, w);
                            lemma_state_at(s, k, w);
                            lemma_state_at(t, k, w);
                        } else {
                            assert forall|k: int| !dest_at(t, k, w) by {
                                if dest_at(t, k, w) { assert(dest_at(s, k, w)); }
                            }
                        }
                    }
                }
                return;
            }
            i = i + 1;
        }
        self.entries.push(VersionEntry { dest: dest.copy(), state: st });
        proof {
            let t = self.entries@;
            let n = s.len() as int;
            assert forall|x: int, y: int| 0 <= x < y < t.len() implies t[x].dest@ != t[y].dest@ by {
                if y == n { assert(!dest_at(s, x, dest@)); }
            }
            lemma_state_at(t, n, dest@);
            assert forall|w: (u8, Seq<Junction>)| w != dest@ implies #[trigger] state_in(t, w) == state_in(s, w) by {
                if exists|k: int| dest_at(s, k, w) {
                    let k = choose|k: int| dest_at(s, k, w);
                    lemma_state_at(s, k, w);
                    lemma_state_at(t, k, w);
                } else {
                    assert forall|k: int| !dest_at(t, k, w) by {
                        if dest_at(t, k, w) && k < n { assert(dest_at(s, k, w)); }
                    }
                }
            }
        }
    }

    /// Records that `dest` accepts version `v`; the state is replaced, never appended to.
    pub fn note_version(&mut self, dest: &Location, v: u32)
        requires
            old(self).wf(),
        ensures
            final(self).wf(),
            Self::note_post(old(self), final(self), dest@, v),
    {
        let prev = self.state_of(dest);
        let subscribed = match prev {
            Some(st) => st.subscribed,
            None => false,
        };
        self.set_state(dest, VersionState { known_version: Some(v), subscribed });
    }

    /// Chooses the version for a message to `dest`. A destination seen for the first time gets
    /// the default version, becomes subscribed, and a subscription request is due.
    pub fn wrap_version(&mut self, dest: &Location, local_max: u32) -> (r: Wrapping)
        requires
            old(self).wf(),
        ensures
            final(self).wf(),
            match old(self).state(dest@) {
                None => r == (Wrapping { version: min_u32(old(self).default_version, local_max), subscribe: true })
                    && Self::set_post(old(self), final(self), dest@, VersionState { known_version: None, subscribed: true }),
                Some(st) => *final(self) == *old(self) && r == (Wrapping {
                    version: match st.known_version {
                        Some(v) => min_u32(v, local_max),
                        None => min_u32(old(self).default_version, local_max),
                    },
                    subscribe: false,
                }),
            },
    {
        let fallback = if self.default_version <= local_max { self.default_version } else { local_max };
        match self.state_of(dest) {
            None => {
                self.set_state(dest, VersionState { known_version: None, subscribed: true });
                Wrapping { version: fallback, subscribe: true }
            },
            Some(st) => match st.known_version {
                Some(v) => Wrapping { version: if v <= local_max { v } else { local_max }, subscribe: false },
                None => Wrapping { version: fallback, subscribe: false },
            },
        }
    }

    /// Records `who` as subscribed under `query_id`, replacing an earlier subscription of it.
    pub fn add_subscriber(&mut self, who: &Location, query_id: u64)
        requires
            old(self).wf(),
        ensures
            final(self).wf(),
            final(self).entries == old(self).entries,
            final(self).default_version == old(self).default_version,
            subscribed_post(old(self).subscribers@, final(self).subscribers@, who@, query_id),
    {
        let ghost s = self.subscribers@;
        let mut i: usize = 0;
        while i < self.subscribers.len()
            invariant
                self.subscribers@ == s,
                s == old(self).subscribers@,
                old(self).wf(),
                self.entries == old(self).entries,
                self.default_version == old(self).default_version,
                i <= s.len(),
                forall|k: int| 0 <= k < i ==> s[k].who@ != who@,
            decreases s.len() - i,
        {
            if self.subscribers[i].who.same(who) {
                self.subscribers.set(i, Subscriber { who: who.copy(), query_id });
                proof {
                    let t = self.subscribers@;
                    assert(t[i as int].who@ == who@);
                    assert forall|a: int, b: int| 0 <= a < b < t.len() implies t[a].who@ != t[b].who@ by {
                        assert(t[a].who@ == s[a].who@ && t[b].who@ == s[b].who@);
                    }
                    assert forall|a: int| 0 <= a < t.len() && t[a].who@ != who@ implies
                        exists|k: int| 0 <= k < s.len() && s[k].who@ == t[a].who@ && s[k].query_id == t[a].query_id by {
                        assert(t[a] == s[a]);
                    }
                    assert forall|k: int| 0 <= k < s.len() && s[k].who@ != who@ implies
                        exists|a: int| 0 <= a < t.len() && t[a].who@ == s[k].who@ && t[a].query_id == s[k].query_id by {
                        assert(t[k] == s[k]);
                    }
                }
                return;
            }
            i = i + 1;
        }
        self.subscribers.push(Subscriber { who: who.copy(), query_id });
        proof {
            let t = self.subscribers@;
            let n = s.len() as int;
            assert(t[n].who@ == who@);
            assert forall|a: int| 0 <= a < t.len() && t[a].who@ != who@ implies
                exists|k: int| 0 <= k < s.len() && s[k].who@ == t[a].who@ && s[k].query_id == t[a].query_id by {
                assert(t[a] == s[a]);
            }
            assert forall|k: int| 0 <= k < s.len() && s[k].who@ != who@ implies
                exists|a: int| 0 <= a < t.len() && t[a].who@ == s[k].who@ && t[a].query_id == s[k].query_id by {
                assert(t[k] == s[k]);
            }
        }
    }
}

impl View for VersionNegotiator {
    type V = Seq<VersionEntry>;

    open spec fn view(&self) -> Seq<VersionEntry> {
        self.entries@
    }
}

/// Hearing the same version twice from a destination leaves the state that hearing it once left:
/// the known version is `v` and nothing else changes.
pub proof fn lemma_note_version_idempotent(
    a: VersionNegotiator,
    b: VersionNegotiator,
    c: VersionNegotiator,
    d: (u8, Seq<Junction>),
    v: u32,
)
    requires
        VersionNegotiator::note_post(&a, &b, d, v),
        VersionNegotiator::note_post(&b, &c, d, v),
    ensures
        forall|w: (u8, Seq<Junction>)| c.state(w) == b.state(w),
        c.state(d) matches Some(st) && st.known_version == Some(v),
{
    assert forall|w: (u8, Seq<Junction>)| c.state(w) == b.state(w) by {
        if w != d {
            assert(c.state(w) == b.state(w));
        }
    }
}

} // verus!
