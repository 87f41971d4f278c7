//! The root node, which is a leaf as long as one leaf can hold the whole tree.

use vstd::arithmetic::power2::{lemma2_to64, lemma_pow2_strictly_increases};
use vstd::prelude::*;
use crate::order::{lawful, lt};
use super::super::checkpoint::Checkpoint;
use super::super::checkpoints::Checkpoints;
use super::super::sequence::{first_greater, join, recorded, sorted};
use super::leaf::Leaf;
use super::trunk::{Children, Trunk};
use super::{InsertResult, NodeRef, RecordResult, Shape};

verus! {

/// The root of the tree: a leaf, or a trunk once the tree has grown beyond one leaf.
#[derive(Debug)]
pub enum Root<S> {
    Leaf(Leaf<S>),
    Trunk(Trunk<S>),
}

impl<S> Root<S> {
    /// The checkpoints of the whole tree below the root, in order.
    pub open spec fn flat(self) -> Seq<Checkpoint<S>> {
        match self {
            Root::Leaf(leaf) => leaf.flat(),
            Root::Trunk(trunk) => trunk.flat(),
        }
    }

    /// The root and all the nodes below it are valid. The root need not be half full.
    pub open spec fn wf(self) -> bool {
        match self {
            Root::Leaf(leaf) => leaf.wf(),
            Root::Trunk(trunk) => trunk.wf(),
        }
    }

    /// The number of levels of nodes in the tree.
    pub open spec fn levels(self) -> nat {
        match self {
            Root::Leaf(_) => 1,
            Root::Trunk(trunk) => trunk.levels(),
        }
    }

    /// Takes the root out and leaves an empty leaf in its place.
    pub fn take_from_root(root: &mut Root<S>) -> (taken: Self)
        ensures
            taken == *old(root),
            final(root).wf(),
    {
        let mut taken = Root::Leaf(Leaf::new());
        core::mem::swap(root, &mut taken);
        taken
    }

    /// Ends an insertion into a root that is a leaf. Where the leaf had room, the root
    /// stays as it is. Where the leaf was split, the tree grows by one level: a new trunk
    /// becomes the root, which holds the median alone, with the leaf that was the root as
    /// its first child and the new half as its second and last.
    fn handle_leaf_insert_result(&mut self, result: InsertResult<S, Leaf<S>>) -> (r: InsertResult<
        S,
        Self,
    >)
        requires
            *old(self) matches Root::Leaf(leaf) && leaf.wf() && leaf.split_wf(result),
        ensures
            r is Done,
            final(self).wf(),
            *old(self) matches Root::Leaf(leaf) && final(self).flat() == leaf.insert_outcome(
                result,
            ),
            final(self).levels() == old(self).levels() + (if result is Pending {
                1nat
            } else {
                0nat
            }),
            result is Done ==> *final(self) == *old(self),
            result matches InsertResult::Pending(median, right) ==> (
            *final(self) matches Root::Trunk(trunk) && trunk.keys() == seq![median]
                && trunk.parts() == seq![old(self).flat(), right.flat()]
                && final(self).shape() == Shape::Trunk(
                1,
                seq![old(self).shape(), right.shape()],
            )),
    {
        if let InsertResult::Pending(med_checkpoint, right_node) = result {
            let left_node = Leaf::take_from_root(self);
            *self = Root::Trunk(Trunk::with_median_leafs(left_node, med_checkpoint, right_node));
        }
        InsertResult::Done
    }

    /// Ends an insertion into a root that is a trunk. Where the trunk had room, the root
    /// stays as it is. Where the trunk was split, the tree grows by one level: a new
    /// trunk becomes the root, which holds the median alone, with the trunk that was the
    /// root as its first child and the new half as its second and last.
    fn handle_trunk_insert_result(&mut self, result: InsertResult<S, Trunk<S>>) -> (r:
        InsertResult<S, Self>)
        requires
            *old(self) matches Root::Trunk(trunk) && trunk.wf() && trunk.split_wf(result),
        ensures
            r is Done,
            final(self).wf(),
            *old(self) matches Root::Trunk(trunk) && final(self).flat() == trunk.insert_outcome(
                result,
            ),
            final(self).levels() == old(self).levels() + (if result is Pending {
                1nat
            } else {
                0nat
            }),
            result is Done ==> *final(self) == *old(self),
            result matches InsertResult::Pending(median, right) ==> (
            *final(self) matches Root::Trunk(trunk) && trunk.keys() == seq![median]
                && trunk.parts() == seq![old(self).flat(), right.flat()]
                && final(self).shape() == Shape::Trunk(
                1,
                seq![old(self).shape(), right.shape()],
            )),
    {
        if let InsertResult::Pending(med_checkpoint, right_node) = result {
            let left_node = Trunk::take_from_root(self);
            *self = Root::Trunk(Trunk::with_median_trunks(left_node, med_checkpoint, right_node));
        }
        InsertResult::Done
    }

    /// Inserts a checkpoint behind all the checkpoints of the tree. It is meant for a
    /// checkpoint that is not below any of them. The tree grows by one level where every
    /// node on the way to the last leaf is full, and only there.
    pub fn insert_max_checkpoint(&mut self, checkpoint: Checkpoint<S>) -> (r: InsertResult<
        S,
        Self,
    >)
        requires
            old(self).wf(),
            checkpoint.wf(),
        ensures
            r is Done,
            final(self).wf(),
            final(self).flat() == old(self).flat().push(checkpoint),
            final(self).levels() == old(self).levels() + (if old(self).shape().full_at(
                old(self).flat().len() as int,
            ) {
                1nat
            } else {
                0nat
            }),
    {
        match self {
            Root::Leaf(leaf) => {
                let result = leaf.insert_max_checkpoint(checkpoint);
                self.handle_leaf_insert_result(result)
            },
            Root::Trunk(trunk) => {
                let result = trunk.insert_max_checkpoint(checkpoint);
                self.handle_trunk_insert_result(result)
            },
        }
    }

    /// The outline of the tree.
    pub open spec fn shape(self) -> Shape {
        match self {
            Root::Leaf(leaf) => leaf.shape(),
            Root::Trunk(trunk) => trunk.shape(),
        }
    }

    /// The shape of a valid tree: all its leafs are on one level, which is the number of
    /// its levels, and every node but the root is at least half full and holds no more
    /// than a node can take.
    pub proof fn lemma_shape(self)
        requires
            self.wf(),
        ensures
            self.shape().leafs_on_level(self.levels()),
            self.shape().occupied(true),
    {
        match self {
            Root::Leaf(leaf) => {
                leaf.lemma_wf();
            },
            Root::Trunk(trunk) => {
                trunk.lemma_shape();
            },
        }
    }

    /// The outline of a valid tree counts its checkpoints, and they are between the
    /// least and the most that a tree of its depth can hold. So the number of checkpoints
    /// tells the depth wherever only one depth can hold so many.
    pub proof fn lemma_total(self)
        requires
            self.wf(),
        ensures
            self.shape().total() == self.flat().len(),
            Shape::least(self.levels(), true) <= self.flat().len() <= Shape::most(self.levels()),
    {
        self.lemma_shape();
        match self {
            Root::Leaf(leaf) => {
                leaf.lemma_wf();
            },
            Root::Trunk(trunk) => {
                trunk.lemma_total();
            },
        }
        self.shape().lemma_total_bounds(self.levels(), true);
    }

    /// A tree that holds no more checkpoints than 64 bits can count has at most 64
    /// levels.
    pub proof fn lemma_levels(self)
        requires
            self.wf(),
            self.flat().len() <= u64::MAX,
        ensures
            self.levels() <= 64,
    {
        match self {
            Root::Leaf(_) => {},
            Root::Trunk(trunk) => {
                trunk.lemma_crowded();
                lemma2_to64();
                if trunk.levels() > 64 {
                    if trunk.levels() - 1 > 64 {
                        lemma_pow2_strictly_increases(64, (trunk.levels() - 1) as nat);
                    }
                }
            },
        }
    }

    /// Takes the root apart: returns its own checkpoints, and its children if it has any.
    pub fn into_parts(self) -> (r: (Checkpoints<S>, Option<Children<S>>))
        requires
            self.wf(),
        ensures
            r.0.wf(),
            r.1 matches Some(nodes) ==> nodes.count() == r.0@.len() + 1 && nodes.valid(),
            self.flat() == match r.1 {
                None => r.0@,
                Some(nodes) => join(nodes.parts(), r.0@),
            },
    {
        match self {
            Root::Leaf(leaf) => (leaf.into_checkpoints(), None),
            Root::Trunk(trunk) => {
                proof {
                    trunk.lemma_wf();
                }
                let (checkpoints, children) = trunk.into_parts();
                (checkpoints, Some(children))
            },
        }
    }

    /// Returns the root as a node by reference.
    pub fn as_node(&self) -> (node: NodeRef<'_, S>)
        ensures
            node.flat() == self.flat(),
            node.wf() == self.wf(),
            node.levels() == self.levels(),
    {
        match self {
            Root::Leaf(leaf) => NodeRef::Leaf(leaf),
            Root::Trunk(trunk) => NodeRef::Trunk(trunk),
        }
    }

    /// Returns the number of levels of nodes in the tree.
    pub fn depth(&self) -> (d: usize)
        requires
            self.wf(),
            self.levels() <= 64,
        ensures
            d == self.levels(),
    {
        match self {
            Root::Leaf(_) => 1,
            Root::Trunk(trunk) => trunk.depth(),
        }
    }
}

impl<S: Ord> Root<S> {
    /// Records a new sample into the tree. `following` is the checkpoint that follows the
    /// whole tree, and it is above the sample. The first checkpoint above the sample, in
    /// the tree or else `following`, takes the sample in where `maximal_gap` allows it to
    /// grow; else a new checkpoint is inserted before it.
    pub fn record_sample(
        &mut self,
        sample: S,
        maximal_gap: u64,
        following: &mut Checkpoint<S>,
    ) -> (r: RecordResult<S, Self>)
        requires
            lawful::<S>(),
            old(self).wf(),
            old(following).wf(),
            lt(sample, old(following).sample),
            sorted(old(self).flat() + seq![*old(following)]),
        ensures
            !(r matches RecordResult::Inserted(InsertResult::Pending(_, _))),
            final(self).wf(),
            final(following).wf(),
            final(self).flat() + seq![*final(following)] == recorded(
                old(self).flat() + seq![*old(following)],
                sample,
                maximal_gap,
            ),
            r is Inserted <==> recorded(
                old(self).flat() + seq![*old(following)],
                sample,
                maximal_gap,
            ).len() == old(self).flat().len() + 2,
            final(self).levels() == old(self).levels() + (if r is Inserted
                && old(self).shape().full_at(
                first_greater(old(self).flat() + seq![*old(following)], sample),
            ) {
                1nat
            } else {
                0nat
            }),
    {
        match self {
            Root::Leaf(leaf) => {
                match leaf.record_sample(sample, maximal_gap, following) {
                    RecordResult::UpdatedInPlace => RecordResult::UpdatedInPlace,
                    RecordResult::Inserted(inserted) => RecordResult::Inserted(
                        self.handle_leaf_insert_result(inserted),
                    ),
                }
            },
            Root::Trunk(trunk) => {
                match trunk.record_sample(sample, maximal_gap, following) {
                    RecordResult::UpdatedInPlace => RecordResult::UpdatedInPlace,
                    RecordResult::Inserted(inserted) => RecordResult::Inserted(
                        self.handle_trunk_insert_result(inserted),
                    ),
                }
            },
        }
    }
}

} // verus!
