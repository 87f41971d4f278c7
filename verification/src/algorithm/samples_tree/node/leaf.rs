//! Leaf nodes.

use vstd::prelude::*;
use crate::order::{lawful, lt};
use super::super::checkpoint::Checkpoint;
use super::super::checkpoints::{Checkpoints, NODE_CAPACITY};
use super::super::sequence::{all_wf, first_greater, lemma_first_greater_unique, recorded};
use super::{InsertResult, RecordResult, Root, Shape};

verus! {

/// A leaf node of the tree: it holds checkpoints and has no children.
#[derive(Debug)]
pub struct Leaf<S> {
    checkpoints: Checkpoints<S>,
}

impl<S> Leaf<S> {
    /// The checkpoints of the leaf, in order.
    pub closed spec fn flat(self) -> Seq<Checkpoint<S>> {
        self.checkpoints@
    }

    /// The leaf respects the node capacity and holds consistent checkpoints.
    pub closed spec fn wf(self) -> bool {
        self.checkpoints.wf()
    }

    /// The leaf is at least half full, as every node but the root is.
    pub open spec fn filled(self) -> bool {
        self.flat().len() >= NODE_CAPACITY / 2
    }

    /// The outline of the leaf.
    pub open spec fn shape(self) -> Shape {
        Shape::Leaf(self.flat().len())
    }

    /// The checkpoints of a leaf and of what was split off from it by an insertion.
    pub open spec fn insert_outcome(self, r: InsertResult<S, Leaf<S>>) -> Seq<Checkpoint<S>> {
        match r {
            InsertResult::Done => self.flat(),
            InsertResult::Pending(median, right) => self.flat() + seq![median] + right.flat(),
        }
    }

    /// The checkpoints of a leaf and of what was split off from it by recording a sample.
    pub open spec fn record_outcome(self, r: RecordResult<S, Leaf<S>>) -> Seq<Checkpoint<S>> {
        match r {
            RecordResult::UpdatedInPlace => self.flat(),
            RecordResult::Inserted(inserted) => self.insert_outcome(inserted),
        }
    }

    /// What holds of the two halves and the median of a leaf that was split.
    pub open spec fn split_wf(self, r: InsertResult<S, Leaf<S>>) -> bool {
        match r {
            InsertResult::Done => true,
            InsertResult::Pending(median, right) => {
                &&& median.wf()
                &&& right.wf()
                &&& right.filled()
                &&& self.filled()
            },
        }
    }

    /// What validity says of the checkpoints of a leaf.
    pub proof fn lemma_wf(self)
        requires
            self.wf(),
        ensures
            self.flat().len() <= NODE_CAPACITY,
            all_wf(self.flat()),
    {
    }

    /// Creates a new empty leaf node.
    pub fn new() -> (leaf: Self)
        ensures
            leaf.wf(),
            leaf.flat() == Seq::<Checkpoint<S>>::empty(),
    {
        Leaf { checkpoints: Checkpoints::new() }
    }

    /// Returns the number of checkpoints in the leaf.
    pub fn len(&self) -> (n: usize)
        ensures
            n == self.flat().len(),
    {
        self.checkpoints.len()
    }

    /// Returns the checkpoint at `index`.
    pub fn get(&self, index: usize) -> (c: &Checkpoint<S>)
        requires
            index < self.flat().len(),
        ensures
            *c == self.flat()[index as int],
    {
        self.checkpoints.get(index)
    }

    /// Takes the root out, which must be a leaf, and leaves an empty leaf in its place.
    pub fn take_from_root(root: &mut Root<S>) -> (taken: Self)
        requires
            *old(root) is Leaf,
        ensures
            Root::Leaf(taken) == *old(root),
            final(root).wf(),
    {
        match Root::take_from_root(root) {
            Root::Leaf(leaf) => leaf,
            _ => vstd::pervasive::unreached(),
        }
    }

    /// Takes the leaf apart: returns its checkpoints.
    pub fn into_checkpoints(self) -> (checkpoints: Checkpoints<S>)
        requires
            self.wf(),
        ensures
            checkpoints.wf(),
            checkpoints@ == self.flat(),
    {
        self.checkpoints
    }

    /// Inserts a new checkpoint into this leaf at `pos`. A leaf that is full is split
    /// into the lower half, which it keeps, and the median and the upper half, which are
    /// returned.
    fn insert_checkpoint(&mut self, checkpoint: Checkpoint<S>, pos: usize) -> (r: InsertResult<
        S,
        Self,
    >)
        requires
            old(self).wf(),
            checkpoint.wf(),
            pos <= old(self).flat().len(),
        ensures
            final(self).wf(),
            final(self).insert_outcome(r) == old(self).flat().insert(pos as int, checkpoint),
            final(self).split_wf(r),
            r is Done <==> old(self).flat().len() < NODE_CAPACITY,
            old(self).filled() ==> final(self).filled(),
    {
        match self.checkpoints.insert_checkpoint(checkpoint, pos) {
            InsertResult::Done => InsertResult::Done,
            InsertResult::Pending(med_checkpoint, right_checkpoints) => InsertResult::Pending(
                med_checkpoint,
                Leaf { checkpoints: right_checkpoints },
            ),
        }
    }

    /// Inserts a checkpoint behind all the checkpoints of this leaf. It is meant for a
    /// checkpoint that is not below any of them.
    pub fn insert_max_checkpoint(&mut self, checkpoint: Checkpoint<S>) -> (r: InsertResult<
        S,
        Self,
    >)
        requires
            old(self).wf(),
            checkpoint.wf(),
        ensures
            final(self).wf(),
            final(self).insert_outcome(r) == old(self).flat().push(checkpoint),
            final(self).split_wf(r),
            r is Done <==> old(self).flat().len() < NODE_CAPACITY,
            r is Pending <==> old(self).shape().full_at(old(self).flat().len() as int),
            old(self).filled() ==> final(self).filled(),
    {
        let len = self.checkpoints.len();
        assert(self.flat().insert(len as int, checkpoint) =~= self.flat().push(checkpoint));
        self.insert_checkpoint(checkpoint, len)
    }
}

impl<S: Ord> Leaf<S> {
    /// Records a new sample into this leaf. `following` is the checkpoint that follows
    /// the leaf in the tree, and it is above the sample. The first checkpoint above the
    /// sample, in the leaf or else `following`, takes the sample in where `maximal_gap`
    /// allows it to grow; else a new checkpoint is inserted before it.
    pub fn record_sample(
        &mut self,
        sample: S,
        maximal_gap: u64,
        following: &mut Checkpoint<S>,
    ) -> (r: RecordResult<S, Self>)
        requires
            lawful::<S>(),
            old(self).wf(),
            old(following).wf(),
            lt(sample, old(following).sample),
        ensures
            final(self).wf(),
            final(following).wf(),
            final(self).record_outcome(r) + seq![*final(following)] == recorded(
                old(self).flat() + seq![*old(following)],
                sample,
                maximal_gap,
            ),
            r is Inserted ==> final(self).split_wf(r->Inserted_0) && *final(following) == *old(
                following,
            ),
            r is Inserted <==> recorded(
                old(self).flat() + seq![*old(following)],
                sample,
                maximal_gap,
            ).len() == old(self).flat().len() + 2,
            old(self).filled() ==> final(self).filled(),
            r matches RecordResult::Inserted(InsertResult::Pending(_, _)) <==> r is Inserted
                && old(self).shape().full_at(
                first_greater(old(self).flat() + seq![*old(following)], sample),
            ),
    {
        let ghost line = self.flat() + seq![*following];
        let (pos, neighbour) = self.checkpoints.find_insertion_pos(&sample, following);
        proof {
            assert(forall|j: int| 0 <= j < pos ==> (#[trigger] line[j]) == old(self).flat()[j]);
            assert(line[pos as int] == *neighbour);
            lemma_first_greater_unique(line, sample, pos as int);
        }
        if neighbour.can_grow(maximal_gap) {
            neighbour.record_before();
            proof {
                assert(self.flat() + seq![*following] =~= line.update(
                    pos as int,
                    line[pos as int].grown(),
                ));
            }
            RecordResult::UpdatedInPlace
        } else {
            let checkpoint = Checkpoint::new_preceding(sample, neighbour);
            let inserted = self.insert_checkpoint(checkpoint, pos);
            proof {
                assert(self.insert_outcome(inserted) + seq![*following] =~= line.insert(
                    pos as int,
                    checkpoint,
                ));
            }
            RecordResult::Inserted(inserted)
        }
    }
}

} // verus!
