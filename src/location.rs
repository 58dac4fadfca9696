use vstd::prelude::*;

verus! {

/// Most junctions a location may have.
pub const MAX_JUNCTIONS: usize = 8;

/// One typed segment of a location's path.
#[derive(Clone, Copy, Debug, PartialEq, Eq, Structural)]
pub enum Junction {
    Parachain(u32),
    AccountIndex64(u64),
    PalletInstance(u8),
    GeneralIndex(u128),
}

/// A path to a consensus system or an account: a number of hops up, then junctions down.
#[derive(Debug)]
pub struct Location {
    pub parents: u8,
    pub interior: Vec<Junction>,
}

impl View for Location {
    type V = (u8, Seq<Junction>);

    open spec fn view(&self) -> (u8, Seq<Junction>) {
        (self.parents, self.interior@)
    }
}

pub open spec fn location_wf(l: (u8, Seq<Junction>)) -> bool {
    l.1.len() <= MAX_JUNCTIONS
}

/// The location with neither parents nor junctions: the local system.
pub open spec fn here_view() -> (u8, Seq<Junction>) {
    (0u8, Seq::empty())
}

pub fn copy_junctions(js: &Vec<Junction>) -> (r: Vec<Junction>)
    ensures
        r@ == js@,
{
    let mut r: Vec<Junction> = Vec::new();
    let mut i: usize = 0;
    while i < js.len()
        invariant
            i <= js@.len(),
            r@ == js@.subrange(0, i as int),
        decreases js@.len() - i,
    {
        r.push(js[i]);
        i = i + 1;
        proof { assert(r@ =~= js@.subrange(0, i as int)); }
    }
    proof { assert(r@ =~= js@); }
    r
}

impl Location {
    pub open spec fn wf(&self) -> bool {
        location_wf(self@)
    }

    pub fn here() -> (r: Location)
        ensures
            r@ == here_view(),
            r.wf(),
    {
        let r = Location { parents: 0, interior: Vec::new() };
        proof { assert(r@ =~= here_view()); }
        r
    }

    pub fn parent() -> (r: Location)
        ensures
            r@ == (1u8, Seq::<Junction>::empty()),
            r.wf(),
    {
        let r = Location { parents: 1, interior: Vec::new() };
        proof { assert(r.interior@ =~= Seq::<Junction>::empty()); }
        r
    }

    /// A location of `parents` hops up and then `interior`; none when there are too many junctions.
    pub fn new(parents: u8, interior: Vec<Junction>) -> (r: Option<Location>)
        ensures
            (r is Some) == (interior@.len() <= MAX_JUNCTIONS),
            r matches Some(l) ==> l@ == (parents, interior@),
    {
        if interior.len() <= MAX_JUNCTIONS {
            Some(Location { parents, interior })
        } else {
            None
        }
    }

    pub fn is_here(&self) -> (r: bool)
        ensures
            r == (self@ == here_view()),
    {
        proof {
            if self.interior@.len() == 0 {
                assert(self.interior@ =~= Seq::<Junction>::empty());
            }
        }
        self.parents == 0 && self.interior.len() == 0
    }

    /// Structural equality.
    pub fn same(&self, other: &Location) -> (r: bool)
        ensures
            r == (self@ == other@),
    {
        if self.parents != other.parents || self.interior.len() != other.interior.len() {
            return false;
        }
        let mut i: usize = 0;
        while i < self.interior.len()
            invariant
                self.interior@.len() == other.interior@.len(),
                i <= self.interior@.len(),
                forall|k: int| 0 <= k < i ==> self.interior@[k] == other.interior@[k],
            decreases self.interior@.len() - i,
        {
            if self.interior[i] != other.interior[i] {
                return false;
            }
            i = i + 1;
        }
        proof { assert(self.interior@ =~= other.interior@); }
        true
    }

    pub fn copy(&self) -> (r: Location)
        ensures
            r@ == self@,
    {
        Location { parents: self.parents, interior: copy_junctions(&self.interior) }
    }

    /// Appends `js` below this location; fails and changes nothing when the result would be too long.
    pub fn descend(&mut self, js: &Vec<Junction>) -> (r: bool)
        requires
            old(self).wf(),
        ensures
            final(self).wf(),
            r == (old(self).interior@.len() + js@.len() <= MAX_JUNCTIONS),
            r ==> final(self)@ == (old(self).parents, old(self).interior@ + js@),
            !r ==> final(self)@ == old(self)@,
    {
        if js.len() > MAX_JUNCTIONS - self.interior.len() {
            return false;
        }
        let ghost start = self.interior@;
        let mut i: usize = 0;
        while i < js.len()
            invariant
                i <= js@.len(),
                start.len() + js@.len() <= MAX_JUNCTIONS,
                self.parents == old(self).parents,
                self.interior@ == start + js@.subrange(0, i as int),
            decreases js@.len() - i,
        {
            self.interior.push(js[i]);
            i = i + 1;
            proof { assert(self.interior@ =~= start + js@.subrange(0, i as int)); }
        }
        proof { assert(js@.subrange(0, js@.len() as int) =~= js@); }
        true
    }
}

} // verus!
