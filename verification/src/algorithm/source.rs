//! Sources of samples: what hands out the samples of a sorted stream one by one.

use vstd::prelude::*;
use super::samples_tree::iter::{IntoIter, Iter};
use super::samples_tree::sequence::all_wf;
use super::samples_tree::Sample;
use super::stream::{to_samples, whole};

verus! {

/// A source of samples, which hands them out one by one until none is left.
pub trait SampleSource<T: Ord>: Sized {
    /// The samples that the source has yet to hand out, in order.
    spec fn samples_left(self) -> Seq<Sample<T>>;

    /// The source is in a state in which it can hand out its samples.
    spec fn ready(self) -> bool;

    /// Hands out the next sample, or `None` when none is left.
    fn next_sample(&mut self) -> (r: Option<Sample<T>>)
        requires
            old(self).ready(),
        ensures
            final(self).ready(),
            match r {
                Some(sample) => {
                    &&& old(self).samples_left().len() > 0
                    &&& sample == old(self).samples_left()[0]
                    &&& final(self).samples_left() == old(self).samples_left().skip(1)
                },
                None => old(self).samples_left().len() == 0 && final(self).samples_left().len()
                    == 0,
            },
    ;
}

impl<'a, T: Ord + Copy> SampleSource<T> for Iter<'a, T> {
    open spec fn samples_left(self) -> Seq<Sample<T>> {
        to_samples(self.remaining())
    }

    open spec fn ready(self) -> bool {
        self.wf()
    }

    fn next_sample(&mut self) -> (r: Option<Sample<T>>) {
        let ghost before = self.remaining();
        let r = self.next();
        proof {
            if before.len() > 0 {
                assert(to_samples(before.skip(1)) =~= to_samples(before).skip(1));
            }
        }
        r
    }
}

impl<T: Ord + Copy> SampleSource<T> for IntoIter<T> {
    open spec fn samples_left(self) -> Seq<Sample<T>> {
        to_samples(self.remaining())
    }

    open spec fn ready(self) -> bool {
        self.wf()
    }

    fn next_sample(&mut self) -> (r: Option<Sample<T>>) {
        let ghost before = self.remaining();
        let r = self.next();
        proof {
            if before.len() > 0 {
                assert(to_samples(before.skip(1)) =~= to_samples(before).skip(1));
            }
        }
        r
    }
}

/// A source that hands out the samples of a vector, in the order of the vector.
pub struct VecSource<T: Ord> {
    samples: Vec<Sample<T>>,
    /// How many samples have gone out.
    position: usize,
}

impl<T: Ord + Copy> VecSource<T> {
    /// Makes a source of the samples of a vector.
    pub fn new(samples: Vec<Sample<T>>) -> (source: Self)
        ensures
            source.ready(),
            source.samples_left() == samples@,
    {
        let source = VecSource { samples, position: 0 };
        assert(source.samples_left() =~= samples@);
        source
    }
}

impl<T: Ord + Copy> SampleSource<T> for VecSource<T> {
    closed spec fn samples_left(self) -> Seq<Sample<T>> {
        self.samples@.skip(self.position as int)
    }

    closed spec fn ready(self) -> bool {
        self.position <= self.samples@.len()
    }

    fn next_sample(&mut self) -> (r: Option<Sample<T>>) {
        let position = self.position;
        if position < self.samples.len() {
            let sample = self.samples[position];
            self.position = position + 1;
            assert(self.samples_left() =~= old(self).samples_left().skip(1));
            Some(sample)
        } else {
            None
        }
    }
}

/// The source of the samples of a whole summary, made from the least value of the
/// summary and a source of the samples of its checkpoints: it hands out the least value
/// first, as an exact sample, and then what the checkpoints hold beside it.
pub struct WholeSource<T: Ord, I: SampleSource<T>> {
    minimum: Option<T>,
    inner: I,
    /// What the first checkpoint counts beside the least value, where the sample for
    /// that has yet to go out.
    pending: Option<Sample<T>>,
    has_started: bool,
}

impl<T: Ord + Copy, I: SampleSource<T>> WholeSource<T, I> {
    /// Makes the source of the samples of a whole summary from its least value and a
    /// source of the samples of its checkpoints.
    pub fn new(minimum: Option<T>, inner: I) -> (source: Self)
        requires
            inner.ready(),
            inner.samples_left().len() > 0 ==> minimum is Some,
        ensures
            source.ready(),
            source.samples_left() == whole(minimum, inner.samples_left()),
    {
        WholeSource { minimum, inner, pending: None, has_started: false }
    }
}

impl<T: Ord + Copy, I: SampleSource<T>> SampleSource<T> for WholeSource<T, I> {
    closed spec fn samples_left(self) -> Seq<Sample<T>> {
        if self.has_started {
            (match self.pending {
                Some(sample) => seq![sample],
                None => Seq::empty(),
            }) + self.inner.samples_left()
        } else {
            whole(self.minimum, self.inner.samples_left())
        }
    }

    closed spec fn ready(self) -> bool {
        &&& self.inner.ready()
        &&& !self.has_started ==> self.pending is None
        &&& !self.has_started && self.inner.samples_left().len() > 0 ==> self.minimum is Some
    }

    fn next_sample(&mut self) -> (r: Option<Sample<T>>) {
        let ghost before = self.samples_left();
        if !self.has_started {
            self.has_started = true;
            match self.inner.next_sample() {
                None => None,
                Some(first) => {
                    if first.g >= 2 {
                        self.pending = Some(
                            Sample { value: first.value, g: first.g - 1, delta: first.delta },
                        );
                    }
                    let minimum = self.minimum.unwrap();
                    proof {
                        assert(self.samples_left() =~= before.skip(1));
                    }
                    Some(Sample { value: minimum, g: 1, delta: 0 })
                },
            }
        } else {
            match self.pending {
                Some(sample) => {
                    self.pending = None;
                    proof {
                        assert(self.samples_left() =~= before.skip(1));
                    }
                    Some(sample)
                },
                None => {
                    proof {
                        assert(before =~= self.inner.samples_left());
                    }
                    let r = self.inner.next_sample();
                    proof {
                        assert(self.samples_left() =~= self.inner.samples_left());
                    }
                    r
                },
            }
        }
    }
}

} // verus!
