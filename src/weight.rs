use vstd::prelude::*;

verus! {

/// Two-dimensional resource cost: execution time and proof size.
#[derive(Clone, Copy, Debug, PartialEq, Eq, Structural)]
pub struct Weight {
    pub ref_time: u64,
    pub proof_size: u64,
}

/// `a` fits inside `b` in both dimensions.
pub open spec fn fits(a: Weight, b: Weight) -> bool {
    a.ref_time <= b.ref_time && a.proof_size <= b.proof_size
}

pub open spec fn sat_u64(x: int) -> u64 {
    if x > u64::MAX { u64::MAX } else if x < 0 { 0 } else { x as u64 }
}

pub open spec fn min_u64(a: u64, b: u64) -> u64 {
    if a <= b { a } else { b }
}

impl Weight {
    pub fn zero() -> (r: Weight)
        ensures
            r.ref_time == 0 && r.proof_size == 0,
    {
        Weight { ref_time: 0, proof_size: 0 }
    }

    pub fn from_parts(ref_time: u64, proof_size: u64) -> (r: Weight)
        ensures
            r.ref_time == ref_time && r.proof_size == proof_size,
    {
        Weight { ref_time, proof_size }
    }

    /// Both components of `self` are at most those of `other`.
    pub fn all_lte(&self, other: &Weight) -> (r: bool)
        ensures
            r == fits(*self, *other),
    {
        self.ref_time <= other.ref_time && self.proof_size <= other.proof_size
    }

    pub fn saturating_add(&self, other: &Weight) -> (r: Weight)
        ensures
            r.ref_time == sat_u64(self.ref_time + other.ref_time),
            r.proof_size == sat_u64(self.proof_size + other.proof_size),
    {
        Weight {
            ref_time: self.ref_time.saturating_add(other.ref_time),
            proof_size: self.proof_size.saturating_add(other.proof_size),
        }
    }

    pub fn saturating_sub(&self, other: &Weight) -> (r: Weight)
        ensures
            r.ref_time == sat_u64(self.ref_time - other.ref_time),
            r.proof_size == sat_u64(self.proof_size - other.proof_size),
    {
        Weight {
            ref_time: self.ref_time.saturating_sub(other.ref_time),
            proof_size: self.proof_size.saturating_sub(other.proof_size),
        }
    }

    /// Component-wise minimum.
    pub fn min(&self, other: &Weight) -> (r: Weight)
        ensures
            r.ref_time == min_u64(self.ref_time, other.ref_time),
            r.proof_size == min_u64(self.proof_size, other.proof_size),
    {
        Weight {
            ref_time: if self.ref_time <= other.ref_time { self.ref_time } else { other.ref_time },
            proof_size: if self.proof_size <= other.proof_size { self.proof_size } else { other.proof_size },
        }
    }
}

/// The meter refused a charge: it would exceed the limit in some dimension.
#[derive(Clone, Copy, Debug, PartialEq, Eq, Structural)]
pub struct Overweight;

/// Tracks weight used against a limit; usage never exceeds the limit.
#[derive(Clone, Copy, Debug)]
pub struct WeightMeter {
    pub used: Weight,
    pub limit: Weight,
}

impl WeightMeter {
    pub open spec fn wf(&self) -> bool {
        fits(self.used, self.limit)
    }

    pub fn with_limit(limit: Weight) -> (r: WeightMeter)
        ensures
            r.wf(),
            r.limit == limit,
            r.used == Weight::zero_spec(),
    {
        WeightMeter { used: Weight::zero(), limit }
    }

    /// What may still be charged.
    pub fn remaining(&self) -> (r: Weight)
        requires
            self.wf(),
        ensures
            r.ref_time == self.limit.ref_time - self.used.ref_time,
            r.proof_size == self.limit.proof_size - self.used.proof_size,
    {
        Weight {
            ref_time: self.limit.ref_time - self.used.ref_time,
            proof_size: self.limit.proof_size - self.used.proof_size,
        }
    }

    /// Whether `w` could be charged now.
    pub fn can_consume(&self, w: Weight) -> (r: bool)
        requires
            self.wf(),
        ensures
            r == (self.used.ref_time + w.ref_time <= self.limit.ref_time
                && self.used.proof_size + w.proof_size <= self.limit.proof_size),
    {
        w.ref_time <= self.limit.ref_time - self.used.ref_time
            && w.proof_size <= self.limit.proof_size - self.used.proof_size
    }

    /// Adds `w` to the usage in both dimensions, or fails and changes nothing.
    pub fn charge(&mut self, w: Weight) -> (r: Result<(), Overweight>)
        requires
            old(self).wf(),
        ensures
            final(self).wf(),
            final(self).limit == old(self).limit,
            (r is Ok) == (old(self).used.ref_time + w.ref_time <= old(self).limit.ref_time
                && old(self).used.proof_size + w.proof_size <= old(self).limit.proof_size),
            r is Ok ==> final(self).used.ref_time == old(self).used.ref_time + w.ref_time
                && final(self).used.proof_size == old(self).used.proof_size + w.proof_size,
            r is Err ==> *final(self) == *old(self),
    {
        if self.can_consume(w) {
            self.used = Weight {
                ref_time: self.used.ref_time + w.ref_time,
                proof_size: self.used.proof_size + w.proof_size,
            };
            Ok(())
        } else {
            Err(Overweight)
        }
    }

    /// Gives back `w` of the usage, never going below zero.
    pub fn refund(&mut self, w: Weight)
        requires
            old(self).wf(),
        ensures
            final(self).wf(),
            final(self).limit == old(self).limit,
            final(self).used.ref_time == sat_u64(old(self).used.ref_time - w.ref_time),
            final(self).used.proof_size == sat_u64(old(self).used.proof_size - w.proof_size),
    {
        self.used = self.used.saturating_sub(&w);
    }
}

impl Weight {
    pub open spec fn zero_spec() -> Weight {
        Weight { ref_time: 0, proof_size: 0 }
    }
}

} // verus!
