//! Samples: what a tree hands out when it is walked.

use core::cmp::Ordering;
use vstd::prelude::*;
use vstd::std_specs::cmp::{PartialEqSpec, PartialEqSpecImpl, PartialOrdSpec, PartialOrdSpecImpl};
use super::checkpoint::Checkpoint;

verus! {

/// A retained value of the stream, with what is known of its rank.
#[derive(Debug)]
pub struct Sample<T: Ord> {
    /// The retained value.
    pub value: T,
    /// One more than the least number of stream values that lie strictly between the
    /// preceding sample and this one.
    pub g: u64,
    /// How far the rank of this sample may exceed the least rank that it can have.
    pub delta: u64,
}

impl<T: Ord + Copy> Clone for Sample<T> {
    fn clone(&self) -> (s: Self)
        ensures
            s == *self,
    {
        *self
    }
}

impl<T: Ord + Copy> Copy for Sample<T> {

}

impl<T: Ord> PartialEq for Sample<T> {
    /// Samples are equal where their values are.
    fn eq(&self, other: &Self) -> (r: bool) {
        self.value == other.value
    }
}

impl<T: Ord> PartialEqSpecImpl for Sample<T> {
    open spec fn obeys_eq_spec() -> bool {
        T::obeys_eq_spec()
    }

    open spec fn eq_spec(&self, other: &Self) -> bool {
        self.value.eq_spec(&other.value)
    }
}

impl<T: Ord> Eq for Sample<T> {

}

impl<T: Ord> PartialOrd for Sample<T> {
    /// Samples are ordered by their values.
    fn partial_cmp(&self, other: &Self) -> (r: Option<Ordering>) {
        self.value.partial_cmp(&other.value)
    }
}

impl<T: Ord> PartialOrdSpecImpl for Sample<T> {
    open spec fn obeys_partial_cmp_spec() -> bool {
        T::obeys_partial_cmp_spec()
    }

    open spec fn partial_cmp_spec(&self, other: &Self) -> Option<Ordering> {
        self.value.partial_cmp_spec(&other.value)
    }
}

impl<T: Ord> Sample<T> {
    /// The sample counts at least one value, and its gap bounds fit in 64 bits.
    pub open spec fn wf(self) -> bool {
        &&& 1 <= self.g
        &&& self.g + self.delta <= u64::MAX
    }

    /// The sample that a checkpoint stands for.
    pub open spec fn of(checkpoint: Checkpoint<T>) -> Self {
        Sample {
            value: checkpoint.sample,
            g: checkpoint.min_gap,
            delta: (checkpoint.max_gap - checkpoint.min_gap) as u64,
        }
    }

    /// The checkpoint that stands for the sample.
    pub open spec fn checkpoint(self) -> Checkpoint<T> {
        Checkpoint {
            sample: self.value,
            min_gap: self.g,
            max_gap: (self.g + self.delta) as u64,
        }
    }

    /// Returns a sample with exact knowledge of the rank of the value.
    pub fn exact(value: T) -> (s: Self)
        ensures
            s == (Sample { value, g: 1, delta: 0 }),
            s.wf(),
    {
        Sample { value, g: 1, delta: 0 }
    }

    /// Returns the sample that a checkpoint stands for.
    pub fn from_checkpoint(checkpoint: Checkpoint<T>) -> (s: Self)
        requires
            checkpoint.wf(),
        ensures
            s == Self::of(checkpoint),
            s.wf(),
            s.checkpoint() == checkpoint,
    {
        Sample {
            value: checkpoint.sample,
            g: checkpoint.min_gap,
            delta: checkpoint.max_gap - checkpoint.min_gap,
        }
    }

    /// Returns the checkpoint that stands for the sample.
    pub fn into_checkpoint(self) -> (c: Checkpoint<T>)
        requires
            self.wf(),
        ensures
            c == self.checkpoint(),
            c.wf(),
            Self::of(c) == self,
    {
        Checkpoint { sample: self.value, min_gap: self.g, max_gap: self.g + self.delta }
    }
}

} // verus!
