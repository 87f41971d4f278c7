//! One side of a merge.

use vstd::prelude::*;
use crate::order::{lawful, le};
use super::samples_compressor::SamplesCompressor;
use super::samples_tree::Sample;
use super::source::SampleSource;
use super::stream::{additional_delta, all_valid, ascending, pushed_all};

verus! {

/// A sorted stream of samples that is being merged into another one: it gives a look at
/// its next sample, and knows whether a sample has been taken from it.
pub struct IncomingMergeState<T: Ord, I: SampleSource<T>> {
    iterator: I,
    next_sample: Option<Sample<T>>,
    has_started: bool,
}

impl<T: Ord + Copy, I: SampleSource<T>> IncomingMergeState<T, I> {
    /// The samples that have not gone out, in order.
    pub closed spec fn remaining(self) -> Seq<Sample<T>> {
        match self.next_sample {
            Some(sample) => seq![sample] + self.iterator.samples_left(),
            None => Seq::empty(),
        }
    }

    /// Whether a sample has been taken with [`IncomingMergeState::pop_front`].
    pub closed spec fn started(self) -> bool {
        self.has_started
    }

    /// The next sample is at hand as long as the source has not run out.
    pub closed spec fn wf(self) -> bool {
        &&& self.iterator.ready()
        &&& self.next_sample is None ==> self.iterator.samples_left().len() == 0
    }

    /// Wraps a source of the samples of a sorted stream.
    pub fn new(iter: I) -> (state: Self)
        requires
            iter.ready(),
        ensures
            state.wf(),
            state.remaining() == iter.samples_left(),
            !state.started(),
    {
        let mut iter = iter;
        let ghost all = iter.samples_left();
        let next_sample = iter.next_sample();
        let state = IncomingMergeState { next_sample, iterator: iter, has_started: false };
        proof {
            if all.len() > 0 {
                assert(state.remaining() =~= all);
            } else {
                assert(state.remaining() =~= all);
            }
        }
        state
    }

    /// Returns a reference to the next sample, if there is one.
    pub fn peek(&self) -> (next: Option<&Sample<T>>)
        requires
            self.wf(),
        ensures
            match next {
                Some(sample) => self.remaining().len() > 0 && *sample == self.remaining()[0],
                None => self.remaining().len() == 0,
            },
    {
        match &self.next_sample {
            Some(sample) => Some(sample),
            None => None,
        }
    }

    /// Takes the next sample out and returns it, and gets the one behind it from the
    /// source.
    pub fn pop_front(&mut self) -> (sample: Sample<T>)
        requires
            old(self).wf(),
            old(self).remaining().len() > 0,
        ensures
            final(self).wf(),
            sample == old(self).remaining()[0],
            final(self).remaining() == old(self).remaining().skip(1),
            final(self).started(),
    {
        self.has_started = true;
        let ghost left = self.iterator.samples_left();
        let sample = self.next_sample.unwrap();
        self.next_sample = self.iterator.next_sample();
        proof {
            assert(old(self).remaining().skip(1) =~= left);
            assert(self.remaining() =~= left);
        }
        sample
    }

    /// Returns by how much the `delta` of a sample from the other side of the merge grows
    /// when it is taken now.
    pub fn aditional_delta(&self) -> (more: u64)
        requires
            self.wf(),
            self.remaining().len() > 0 ==> self.remaining()[0].wf(),
        ensures
            more == additional_delta(self.remaining(), self.started()),
    {
        match &self.next_sample {
            Some(real_sample) if self.has_started => real_sample.g + real_sample.delta - 1,
            _ => 0,
        }
    }

    /// Moves all the samples that are left to the given compressor, and uses the source
    /// up.
    pub fn push_remaining_to(self, compressor: &mut SamplesCompressor<T>)
        requires
            lawful::<T>(),
            self.wf(),
            old(compressor).wf(),
            all_valid(self.remaining()),
            ascending(self.remaining()),
            self.remaining().len() > 0 ==> (old(compressor).last_value() matches Some(v) ==> le(
                v,
                self.remaining()[0].value,
            )),
            old(compressor).done().len() + (if old(compressor).tail() is Some {
                1int
            } else {
                0int
            }) + self.remaining().len() <= u64::MAX,
        ensures
            final(compressor).wf(),
            final(compressor).budget() == old(compressor).budget(),
            (final(compressor).done(), final(compressor).tail()) == pushed_all(
                old(compressor).done(),
                old(compressor).tail(),
                self.remaining(),
                old(compressor).budget(),
            ),
            final(compressor).done().len() + (if final(compressor).tail() is Some {
                1int
            } else {
                0int
            }) <= old(compressor).done().len() + (if old(compressor).tail() is Some {
                1int
            } else {
                0int
            }) + self.remaining().len(),
    {
        let ghost all = self.remaining();
        let ghost target = pushed_all(
            compressor.done(),
            compressor.tail(),
            all,
            compressor.budget(),
        );
        let ghost load = compressor.done().len() + (if compressor.tail() is Some {
            1int
        } else {
            0int
        }) + all.len();
        let mut iterator = self.iterator;
        let mut next_sample = self.next_sample;
        let ghost mut at: int = 0;
        proof {
            assert(all.skip(0) =~= all);
        }
        loop
            invariant
                lawful::<T>(),
                iterator.ready(),
                compressor.wf(),
                compressor.budget() == old(compressor).budget(),
                all_valid(all),
                ascending(all),
                0 <= at <= all.len(),
                next_sample is None ==> at == all.len(),
                next_sample matches Some(sample) ==> all.skip(at) == seq![sample]
                    + iterator.samples_left(),
                at < all.len() ==> (compressor.last_value() matches Some(v) ==> le(
                    v,
                    all[at].value,
                )),
                load <= u64::MAX,
                compressor.done().len() + (if compressor.tail() is Some {
                    1int
                } else {
                    0int
                }) + (all.len() - at) <= load,
                pushed_all(compressor.done(), compressor.tail(), all.skip(at), compressor.budget())
                    == target,
            ensures
                at == all.len(),
            decreases all.len() - at,
        {
            match next_sample {
                None => {
                    break ;
                },
                Some(sample) => {
                    let ghost left = iterator.samples_left();
                    proof {
                        assert(all.skip(at)[0] == sample);
                        assert(all.skip(at).len() == all.len() - at);
                        assert(all[at] == sample);
                        assert(all.skip(at).skip(1) =~= all.skip(at + 1));
                        assert(all.skip(at).skip(1) =~= left);
                        if at + 1 < all.len() {
                            assert(le(all[at].value, all[at + 1].value));
                        }
                    }
                    compressor.push(sample);
                    next_sample = iterator.next_sample();
                    proof {
                        at = at + 1;
                        if left.len() > 0 {
                            assert(left =~= seq![left[0]] + left.skip(1));
                        } else {
                            assert(all.skip(at).len() == 0);
                        }
                    }
                },
            }
        }
        proof {
            assert(all.skip(at) =~= Seq::<Sample<T>>::empty());
        }
    }
}

} // verus!
