//! Compression of a sorted stream of samples.

use vstd::prelude::*;
use crate::order::{lawful, le, lemma_le_trans};
use super::samples_tree::{Sample, SamplesTree};
use super::stream::{finished, pushed, to_samples};

verus! {

/// Compresses samples as they are given, in sorted order: consecutive samples are merged
/// into one as long as the merged sample stays within the budget for `g + delta`.
pub struct SamplesCompressor<T: Ord> {
    max_g_delta: u64,
    compressed_samples: SamplesTree<T>,
    block_tail: Option<Sample<T>>,
}

impl<T: Ord + Copy> SamplesCompressor<T> {
    /// The samples that have been committed, in order.
    pub closed spec fn done(self) -> Seq<Sample<T>> {
        to_samples(self.compressed_samples.checkpoints())
    }

    /// The last sample of the block that is being built, if there is one.
    pub closed spec fn tail(self) -> Option<Sample<T>> {
        self.block_tail
    }

    /// The budget for `g + delta` of a merged sample.
    pub closed spec fn budget(self) -> u64 {
        self.max_g_delta
    }

    /// The value of the sample that was pushed last, if any.
    pub open spec fn last_value(self) -> Option<T> {
        match self.tail() {
            Some(t) => Some(t.value),
            None => if self.done().len() > 0 {
                Some(self.done().last().value)
            } else {
                None
            },
        }
    }

    /// The committed samples are held in a valid tree whose least value is the first of
    /// them, and the block that is being built is not below them.
    pub closed spec fn wf(self) -> bool {
        &&& self.compressed_samples.wf()
        &&& self.compressed_samples.minimum() == (if self.done().len() > 0 {
            Some(self.done()[0].value)
        } else {
            None
        })
        &&& match self.block_tail {
            Some(t) => t.wf() && self.done().len() > 0 && le(self.done().last().value, t.value),
            None => true,
        }
    }

    /// Creates a compressor with the given budget for `g + delta`.
    pub fn new(max_g_delta: u64) -> (c: Self)
        ensures
            c.wf(),
            c.done() == Seq::<Sample<T>>::empty(),
            c.tail() is None,
            c.budget() == max_g_delta,
    {
        let c = SamplesCompressor {
            max_g_delta,
            compressed_samples: SamplesTree::new(),
            block_tail: None,
        };
        assert(c.done() =~= Seq::<Sample<T>>::empty());
        c
    }

    /// Commits a sample: it becomes the last checkpoint of the tree.
    fn commit(&mut self, sample: Sample<T>)
        requires
            lawful::<T>(),
            old(self).compressed_samples.wf(),
            old(self).done().len() < u64::MAX,
            sample.wf(),
            old(self).done().len() > 0 ==> le(old(self).done().last().value, sample.value),
            old(self).compressed_samples.minimum() == (if old(self).done().len() > 0 {
                Some(old(self).done()[0].value)
            } else {
                None
            }),
        ensures
            final(self).compressed_samples.wf(),
            final(self).done() == old(self).done().push(sample),
            final(self).block_tail == old(self).block_tail,
            final(self).max_g_delta == old(self).max_g_delta,
            final(self).compressed_samples.minimum() == Some(final(self).done()[0].value),
    {
        let ghost line = self.compressed_samples.checkpoints();
        proof {
            if line.len() > 0 {
                assert(self.done().last() == Sample::of(line.last()));
            }
        }
        self.compressed_samples.insert_max_sample(sample);
        proof {
            assert(Sample::of(sample.checkpoint()) == sample);
            assert(self.done() =~= old(self).done().push(sample));
        }
    }

    /// Takes in the next sample of the stream, which is not below the ones before it.
    pub fn push(&mut self, sample: Sample<T>)
        requires
            lawful::<T>(),
            old(self).wf(),
            old(self).done().len() < u64::MAX,
            sample.wf(),
            old(self).last_value() matches Some(v) ==> le(v, sample.value),
        ensures
            final(self).wf(),
            final(self).budget() == old(self).budget(),
            (final(self).done(), final(self).tail()) == pushed(
                old(self).done(),
                old(self).tail(),
                sample,
                old(self).budget(),
            ),
    {
        let mut sample = sample;
        match self.block_tail {
            Some(tail_sample) => {
                if tail_sample.g as u128 + sample.g as u128 + sample.delta as u128
                    <= self.max_g_delta as u128 {
                    // The sample takes in the block that is being built.
                    sample.g += tail_sample.g;
                } else {
                    // The block is committed, and the sample starts a new one.
                    self.commit(tail_sample);
                }
                self.block_tail = Some(sample);
                proof {
                    lemma_le_trans(old(self).done().last().value, tail_sample.value, sample.value);
                }
            },
            None => {
                if self.compressed_samples.len() == 0 {
                    // The least sample is committed at once, so that it is never merged
                    // away.
                    self.commit(sample);
                    assert(self.done() =~= seq![sample]);
                } else {
                    self.block_tail = Some(sample);
                }
            },
        }
    }

    /// Ends the compression, and returns the tree of the compressed samples.
    pub fn into_samples_tree(self) -> (tree: SamplesTree<T>)
        requires
            lawful::<T>(),
            self.wf(),
            self.tail() is Some ==> self.done().len() < u64::MAX,
        ensures
            tree.wf(),
            to_samples(tree.checkpoints()) == finished(self.done(), self.tail()),
            tree.minimum() == (if finished(self.done(), self.tail()).len() > 0 {
                Some(finished(self.done(), self.tail())[0].value)
            } else {
                None
            }),
    {
        let mut this = self;
        if let Some(tail_sample) = this.block_tail {
            this.commit(tail_sample);
        }
        this.compressed_samples
    }
}

} // verus!
