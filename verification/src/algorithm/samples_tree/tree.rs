//! The tree that records samples into checkpoints.

use vstd::prelude::*;
use crate::order::{lawful, le, lemma_le_refl, lemma_le_trans, less, lt};
use super::checkpoint::Checkpoint;
use super::iter::{IntoIter, Iter};
use super::node::{Leaf, RecordResult, Root, Shape};
use super::sample::Sample;
use super::sequence::{
    all_wf, bounded_below, first_greater, least, lemma_first_greater, lemma_tree_recorded, recorded,
    sorted, tree_recorded,
};

verus! {

/// Whether recording `v` under `maximal_gap` adds a level to a tree that holds the given
/// checkpoints in nodes of the given outline: a checkpoint is inserted, and every node on
/// the way from the root to its place is full. A value that is not below the greatest one
/// has the checkpoint of that one inserted behind all the others.
pub open spec fn deepens<S: Ord>(
    checkpoints: Seq<Checkpoint<S>>,
    shape: Shape,
    v: S,
    maximal_gap: u64,
) -> bool {
    if checkpoints.len() == 0 {
        false
    } else if !lt(v, checkpoints.last().sample) {
        !checkpoints.last().growable(maximal_gap) && shape.full_at(checkpoints.len() - 1)
    } else {
        !checkpoints[first_greater(checkpoints, v)].growable(maximal_gap) && shape.full_at(
            first_greater(checkpoints, v),
        )
    }
}

/// A tree that records the values of a stream into checkpoints.
///
/// The least value of the stream and the checkpoint of the greatest value are kept beside
/// the root: so every checkpoint below the root is followed by another one, which can take
/// in a value that comes before it, and the least value is never lost.
#[derive(Debug)]
pub struct SamplesTree<S> {
    /// The least value recorded, and the checkpoint of the greatest.
    extremes: Option<(S, Checkpoint<S>)>,
    root: Root<S>,
    /// The number of checkpoints, the one of the greatest value included.
    num_checkpoints: u64,
}

impl<S: Ord> SamplesTree<S> {
    /// The checkpoints of the tree, in order; the last one is that of the greatest value.
    pub closed spec fn checkpoints(self) -> Seq<Checkpoint<S>> {
        match self.extremes {
            None => Seq::empty(),
            Some((_, max_checkpoint)) => self.root.flat() + seq![max_checkpoint],
        }
    }

    /// The least value recorded, if any.
    pub closed spec fn minimum(self) -> Option<S> {
        match self.extremes {
            None => None,
            Some((min_sample, _)) => Some(min_sample),
        }
    }

    /// The number of levels of nodes in the tree.
    pub closed spec fn levels(self) -> nat {
        self.root.levels()
    }

    /// The outline of the nodes of the tree.
    pub closed spec fn shape(self) -> Shape {
        self.root.shape()
    }

    /// The shape of the tree. In every valid tree, all the leafs are on one level, which
    /// is the number of levels of the tree; every node holds no more checkpoints than a
    /// node can take; and every node but the root holds at least half as many.
    pub proof fn lemma_shape(self)
        requires
            self.wf(),
        ensures
            self.shape().leafs_on_level(self.levels()),
            self.shape().occupied(true),
    {
        self.root.lemma_shape();
    }

    /// The depth of the tree. The outline of a valid tree counts all its checkpoints but
    /// the last, that of the greatest value, which is kept beside the root. They are
    /// between the least and the most that a tree of its depth can hold, and more levels
    /// take more checkpoints at the least: so the number of checkpoints tells the depth
    /// wherever only one depth can hold so many. An empty tree has one level.
    pub proof fn lemma_depth(self)
        requires
            self.wf(),
        ensures
            self.checkpoints().len() == 0 ==> self.levels() == 1 && self.shape().total() == 0,
            self.checkpoints().len() > 0 ==> self.shape().total() + 1 == self.checkpoints().len(),
            self.checkpoints().len() > 0 ==> Shape::least(self.levels(), true) + 1
                <= self.checkpoints().len() <= Shape::most(self.levels()) + 1,
            1 <= self.levels(),
            forall|shallower: nat|
                1 <= shallower <= self.levels() ==> #[trigger] Shape::least(shallower, true)
                    <= Shape::least(self.levels(), true),
    {
        self.root.lemma_total();
        self.root.lemma_shape();
        match self.root {
            Root::Leaf(_) => {},
            Root::Trunk(trunk) => {
                trunk.lemma_wf();
            },
        }
        assert forall|shallower: nat| 1 <= shallower <= self.levels() implies (
        #[trigger] Shape::least(shallower, true)) <= Shape::least(self.levels(), true) by {
            Shape::lemma_least_grows(shallower, self.levels(), true);
        }
    }

    /// The tree is valid: its nodes are valid, its checkpoints are consistent and sorted,
    /// none of them is below the least value, and it has counted them.
    pub closed spec fn wf(self) -> bool {
        &&& self.root.wf()
        &&& self.num_checkpoints == self.checkpoints().len()
        &&& self.extremes is None ==> self.root.flat().len() == 0
        &&& all_wf(self.checkpoints())
        &&& sorted(self.checkpoints())
        &&& match self.extremes {
            None => true,
            Some((min_sample, _)) => bounded_below(min_sample, self.checkpoints()),
        }
    }

    /// What validity says of the checkpoints and the least value.
    pub proof fn lemma_wf(self)
        requires
            self.wf(),
        ensures
            all_wf(self.checkpoints()),
            sorted(self.checkpoints()),
            self.checkpoints().len() <= u64::MAX,
            self.minimum() is Some <==> self.checkpoints().len() > 0,
            self.minimum() is Some ==> bounded_below(self.minimum()->0, self.checkpoints()),
    {
    }

    /// Creates a new empty tree.
    pub fn new() -> (tree: Self)
        ensures
            tree.wf(),
            tree.checkpoints() == Seq::<Checkpoint<S>>::empty(),
            tree.minimum() is None,
            tree.levels() == 1,
    {
        SamplesTree { extremes: None, root: Root::Leaf(Leaf::new()), num_checkpoints: 0 }
    }

    /// Returns the number of checkpoints in the tree.
    pub fn len(&self) -> (n: u64)
        requires
            self.wf(),
        ensures
            n == self.checkpoints().len(),
    {
        self.num_checkpoints
    }

    /// Returns the number of levels of nodes in the tree.
    pub fn depth(&self) -> (d: usize)
        requires
            self.wf(),
        ensures
            d == self.levels(),
            d <= 64,
    {
        proof {
            self.root.lemma_levels();
        }
        self.root.depth()
    }

    /// Starts a walk over the checkpoints of the tree by reference, in order.
    pub fn iter(&self) -> (it: Iter<'_, S>)
        requires
            self.wf(),
        ensures
            it.wf(),
            it.remaining() == self.checkpoints(),
    {
        let it = Iter::new(&self.root, self.depth());
        match &self.extremes {
            None => {
                assert(it.remaining() =~= self.checkpoints());
                it
            },
            Some(extremes) => {
                assert(self.checkpoints().last() == extremes.1);
                it.followed_by(&extremes.1)
            },
        }
    }

    /// Starts a walk over the checkpoints of the tree by value, in order.
    pub fn into_iter(self) -> (it: IntoIter<S>)
        requires
            self.wf(),
        ensures
            it.wf(),
            it.remaining() == self.checkpoints(),
    {
        let ghost line = self.checkpoints();
        let (checkpoints, children) = self.root.into_parts();
        let it = IntoIter::new(checkpoints, children);
        match self.extremes {
            None => {
                assert(it.remaining() =~= line);
                it
            },
            Some(extremes) => {
                assert(line.last() == extremes.1);
                it.followed_by(extremes.1)
            },
        }
    }
}

impl<S: Ord + Copy> SamplesTree<S> {
    /// Returns the least value recorded, if any.
    pub fn min_sample(&self) -> (m: Option<S>)
        ensures
            m == self.minimum(),
    {
        match &self.extremes {
            None => None,
            Some(extremes) => Some(extremes.0),
        }
    }

    /// Sets the least value of the tree, which must not be above any checkpoint of the
    /// tree. An empty tree stays as it is.
    pub fn restore_min_sample(&mut self, sample: S)
        requires
            old(self).wf(),
            bounded_below(sample, old(self).checkpoints()),
        ensures
            final(self).wf(),
            final(self).checkpoints() == old(self).checkpoints(),
            final(self).levels() == old(self).levels(),
            final(self).minimum() == (if old(self).minimum() is Some {
                Some(sample)
            } else {
                None
            }),
    {
        match &mut self.extremes {
            None => {},
            Some((min_sample, max_checkpoint)) => {
                *min_sample = sample;
            },
        }
    }

    /// Records a new sample into this tree, either by charging it to the first
    /// checkpoint above it, or by inserting a new checkpoint. The tree grows by one
    /// level where a checkpoint is inserted and every node on the way to its place is
    /// full, and only there.
    pub fn record_sample(&mut self, sample: S, maximal_gap: u64)
        requires
            lawful::<S>(),
            old(self).wf(),
            old(self).checkpoints().len() < u64::MAX,
        ensures
            final(self).wf(),
            final(self).checkpoints() == tree_recorded(
                old(self).checkpoints(),
                sample,
                maximal_gap,
            ),
            final(self).minimum() == Some(least(old(self).minimum(), sample)),
            final(self).levels() == old(self).levels() + (if deepens(
                old(self).checkpoints(),
                old(self).shape(),
                sample,
                maximal_gap,
            ) {
                1nat
            } else {
                0nat
            }),
    {
        proof {
            lemma_tree_recorded(self.checkpoints(), self.minimum(), sample, maximal_gap);
        }
        match &mut self.extremes {
            None => {
                self.extremes = Some((sample, Checkpoint::new_exact(sample)));
                self.num_checkpoints += 1;
                assert(self.checkpoints() =~= seq![Checkpoint::exact(sample)]);
            },
            Some((min_sample, max_checkpoint)) => {
                if !less(&sample, &max_checkpoint.sample) {
                    // A new greatest value.
                    proof {
                        let line = old(self).checkpoints();
                        assert(le(*min_sample, line[line.len() - 1].sample));
                        lemma_le_trans(
                            *min_sample,
                            max_checkpoint.sample,
                            sample,
                        );
                    }
                    if max_checkpoint.can_grow(maximal_gap) {
                        max_checkpoint.record_before();
                        max_checkpoint.swap_sample(sample);
                        assert(self.checkpoints() =~= tree_recorded(
                            old(self).checkpoints(),
                            sample,
                            maximal_gap,
                        ));
                    } else {
                        let prev_max_checkpoint = *max_checkpoint;
                        *max_checkpoint = Checkpoint::new_exact(sample);
                        self.root.insert_max_checkpoint(prev_max_checkpoint);
                        self.num_checkpoints += 1;
                        assert(self.checkpoints() =~= tree_recorded(
                            old(self).checkpoints(),
                            sample,
                            maximal_gap,
                        ));
                    }
                } else {
                    if less(&sample, min_sample) {
                        // A new least value: it is kept, so that the least rank can always
                        // be answered exactly.
                        *min_sample = sample;
                    }
                    proof {
                        let line = old(self).checkpoints();
                        let after = recorded(line, sample, maximal_gap);
                        lemma_first_greater(line, sample);
                        assert(after.len() == line.len() || after.len() == line.len() + 1);
                    }
                    if let RecordResult::Inserted(_) = self.root.record_sample(
                        sample,
                        maximal_gap,
                        max_checkpoint,
                    ) {
                        self.num_checkpoints += 1;
                    }
                }
            },
        }
    }

    /// Inserts a sample behind all the checkpoints of the tree, as the new greatest value.
    /// This fills a tree from a sorted stream of samples. The checkpoint of the greatest
    /// value so far goes into the last leaf, and the tree grows by one level where every
    /// node on the way there is full, and only there.
    pub fn insert_max_sample(&mut self, sample: Sample<S>)
        requires
            lawful::<S>(),
            old(self).wf(),
            old(self).checkpoints().len() < u64::MAX,
            sample.wf(),
            old(self).checkpoints().len() > 0 ==> le(
                old(self).checkpoints().last().sample,
                sample.value,
            ),
        ensures
            final(self).wf(),
            final(self).checkpoints() == old(self).checkpoints().push(sample.checkpoint()),
            final(self).minimum() == (if old(self).minimum() is Some {
                old(self).minimum()
            } else {
                Some(sample.value)
            }),
            final(self).levels() == old(self).levels() + (if old(self).checkpoints().len() > 0
                && old(self).shape().full_at(old(self).checkpoints().len() - 1) {
                1nat
            } else {
                0nat
            }),
    {
        let checkpoint = sample.into_checkpoint();
        let ghost before = self.checkpoints();
        let ghost after = before.push(checkpoint);
        proof {
            lemma_le_refl(sample.value);
            assert forall|i: int, j: int| 0 <= i < j < after.len() implies le(
                #[trigger] after[i].sample,
                #[trigger] after[j].sample,
            ) by {
                if j < before.len() {
                    assert(after[i] == before[i] && after[j] == before[j]);
                } else {
                    assert(after[i] == before[i]);
                    if i < before.len() - 1 {
                        assert(le(before[i].sample, before.last().sample));
                    } else {
                        lemma_le_refl(before[i].sample);
                    }
                    lemma_le_trans(
                        before[i].sample,
                        before.last().sample,
                        sample.value,
                    );
                }
            }
        }
        match &mut self.extremes {
            None => {
                self.extremes = Some((sample.value, checkpoint));
            },
            Some((min_sample, max_checkpoint)) => {
                let prev_max_checkpoint = *max_checkpoint;
                *max_checkpoint = checkpoint;
                self.root.insert_max_checkpoint(prev_max_checkpoint);
                proof {
                    let low = *min_sample;
                    assert forall|i: int| 0 <= i < after.len() implies le(
                        low,
                        (#[trigger] after[i]).sample,
                    ) by {
                        if i < before.len() {
                            assert(after[i] == before[i]);
                        } else {
                            assert(le(low, before.last().sample));
                            lemma_le_trans(
                                low,
                                before.last().sample,
                                sample.value,
                            );
                        }
                    }
                }
            },
        }
        self.num_checkpoints += 1;
        assert(self.checkpoints() =~= after);
    }
}

} // verus!
