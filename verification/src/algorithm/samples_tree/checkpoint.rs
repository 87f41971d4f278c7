//! Checkpoints: the samples that a tree keeps, each with the bounds of the gap before it.

use core::cmp::Ordering;
use vstd::prelude::*;
use vstd::std_specs::cmp::{PartialEqSpec, PartialEqSpecImpl, PartialOrdSpec, PartialOrdSpecImpl};

verus! {

/// A captured sample, with bounds on how many stream values it stands for since the
/// preceding checkpoint.
#[derive(Debug)]
pub struct Checkpoint<S> {
    /// The captured sample.
    pub sample: S,
    /// The least number of stream values between the preceding checkpoint and this one,
    /// this one included.
    pub min_gap: u64,
    /// The greatest number of stream values between the preceding checkpoint and this one,
    /// this one included.
    pub max_gap: u64,
}

impl<S: Copy> Clone for Checkpoint<S> {
    fn clone(&self) -> (c: Self)
        ensures
            c == *self,
    {
        *self
    }
}

impl<S: Copy> Copy for Checkpoint<S> {

}

impl<S: PartialEq> PartialEq for Checkpoint<S> {
    /// Checkpoints are equal where their samples are.
    fn eq(&self, other: &Self) -> (r: bool) {
        self.sample == other.sample
    }
}

impl<S: PartialEq> PartialEqSpecImpl for Checkpoint<S> {
    open spec fn obeys_eq_spec() -> bool {
        S::obeys_eq_spec()
    }

    open spec fn eq_spec(&self, other: &Self) -> bool {
        self.sample.eq_spec(&other.sample)
    }
}

impl<S: PartialOrd> PartialOrd for Checkpoint<S> {
    /// Checkpoints are ordered by their samples.
    fn partial_cmp(&self, other: &Self) -> (r: Option<Ordering>) {
        self.sample.partial_cmp(&other.sample)
    }
}

impl<S: PartialOrd> PartialOrdSpecImpl for Checkpoint<S> {
    open spec fn obeys_partial_cmp_spec() -> bool {
        S::obeys_partial_cmp_spec()
    }

    open spec fn partial_cmp_spec(&self, other: &Self) -> Option<Ordering> {
        self.sample.partial_cmp_spec(&other.sample)
    }
}

impl<S: Eq> Eq for Checkpoint<S> {

}

impl<S> Checkpoint<S> {
    /// The gap bounds are consistent: at least one value is counted, and the lower bound
    /// does not exceed the upper one.
    pub open spec fn wf(self) -> bool {
        1 <= self.min_gap <= self.max_gap
    }

    /// The checkpoint after one more stream value has been charged to it.
    pub open spec fn grown(self) -> Self {
        Checkpoint {
            sample: self.sample,
            min_gap: (self.min_gap + 1) as u64,
            max_gap: (self.max_gap + 1) as u64,
        }
    }

    /// The checkpoint with exact knowledge of the rank of `sample`.
    pub open spec fn exact(sample: S) -> Self {
        Checkpoint { sample, min_gap: 1, max_gap: 1 }
    }

    /// The checkpoint for `sample` when it is placed right before `following`.
    pub open spec fn preceding(sample: S, following: Self) -> Self {
        Checkpoint { sample, min_gap: 1, max_gap: following.max_gap }
    }

    /// The checkpoint that takes the place of this one when `sample` is a new greatest
    /// value and this checkpoint takes in the value that it held.
    pub open spec fn succeeded(self, sample: S) -> Self {
        Checkpoint {
            sample,
            min_gap: (self.min_gap + 1) as u64,
            max_gap: (self.max_gap + 1) as u64,
        }
    }

    /// Whether one more stream value can be charged to this checkpoint under `maximal_gap`.
    pub open spec fn growable(self, maximal_gap: u64) -> bool {
        self.max_gap + 1 <= maximal_gap
    }

    /// Returns a new checkpoint with exact knowledge of the sample's rank.
    pub fn new_exact(sample: S) -> (c: Self)
        ensures
            c == Self::exact(sample),
            c.wf(),
    {
        Checkpoint { sample, min_gap: 1, max_gap: 1 }
    }

    /// Returns a new checkpoint for a sample that is placed right before `following`: its
    /// true rank may lie anywhere in the range of `following`, so it takes over that upper
    /// bound.
    pub fn new_preceding(sample: S, following: &Self) -> (c: Self)
        ensures
            c == Self::preceding(sample, *following),
            following.wf() ==> c.wf(),
    {
        Checkpoint { sample, min_gap: 1, max_gap: following.max_gap }
    }

    /// Returns whether the rank of the sample is known exactly.
    pub fn is_exact(&self) -> (b: bool)
        ensures
            b == (self.max_gap == 1),
    {
        self.max_gap == 1
    }

    /// Returns whether this checkpoint can grow to stand for one more stream value.
    pub fn can_grow(&self, maximal_gap: u64) -> (b: bool)
        ensures
            b == self.growable(maximal_gap),
    {
        self.max_gap < maximal_gap
    }

    /// Charges one more stream value to this checkpoint.
    pub fn record_before(&mut self)
        requires
            old(self).min_gap <= old(self).max_gap < u64::MAX,
        ensures
            *final(self) == old(self).grown(),
            final(self).sample == old(self).sample,
            final(self).min_gap == old(self).min_gap + 1,
            final(self).max_gap == old(self).max_gap + 1,
    {
        self.min_gap += 1;
        self.max_gap += 1;
    }

    /// Replaces the captured sample.
    pub fn swap_sample(&mut self, new_sample: S)
        ensures
            final(self).sample == new_sample,
            final(self).min_gap == old(self).min_gap,
            final(self).max_gap == old(self).max_gap,
    {
        self.sample = new_sample;
    }
}

} // verus!
