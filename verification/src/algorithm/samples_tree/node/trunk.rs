//! Trunk nodes: the nodes that have children.

use vstd::arithmetic::power2::{lemma2_to64, lemma_pow2_unfold, pow2};
use vstd::prelude::*;
use crate::order::{lawful, lt};
use super::super::checkpoint::Checkpoint;
use super::super::checkpoints::{Checkpoints, NODE_CAPACITY};
use super::super::sequence::{
    all_wf, before, first_greater, held_in, join, lemma_ascend, lemma_descend, lemma_join_around,
    lemma_join_concat, lemma_join_held, lemma_join_insert, lemma_join_len, lemma_join_pair,
    lemma_join_update, lemma_span_before, recorded, sorted, span, successor,
};
use super::leaf::Leaf;
use super::{InsertResult, NodeRef, RecordResult, Root, Shape};

verus! {

/// The children of a trunk: all of them leafs, or all of them trunks.
#[derive(Debug)]
pub enum Children<S> {
    Leafs(Vec<Leaf<S>>),
    Trunks(Vec<Trunk<S>>),
}

/// A node of the tree that has children: one more child than it has checkpoints. The
/// checkpoints of child `i` come before checkpoint `i` of the trunk, which comes before
/// the checkpoints of child `i + 1`.
#[derive(Debug)]
pub struct Trunk<S> {
    checkpoints: Checkpoints<S>,
    children: Children<S>,
}

/// The checkpoints of each leaf of `leafs`.
pub open spec fn leaf_parts<S>(leafs: Seq<Leaf<S>>) -> Seq<Seq<Checkpoint<S>>> {
    Seq::new(leafs.len(), |i: int| leafs[i].flat())
}

/// The checkpoints of each trunk of `trunks`.
pub open spec fn trunk_parts<S>(trunks: Seq<Trunk<S>>) -> Seq<Seq<Checkpoint<S>>> {
    Seq::new(trunks.len(), |i: int| trunks[i].flat())
}

/// The outline of each leaf of `leafs`.
pub open spec fn leaf_shapes<S>(leafs: Seq<Leaf<S>>) -> Seq<Shape> {
    Seq::new(leafs.len(), |i: int| leafs[i].shape())
}

/// The outline of each trunk of `trunks`.
pub open spec fn trunk_shapes<S>(trunks: Seq<Trunk<S>>) -> Seq<Shape> {
    Seq::new(trunks.len(), |i: int| trunks[i].shape())
}

/// Each leaf of `leafs` is a valid node below the root.
pub open spec fn leafs_wf<S>(leafs: Seq<Leaf<S>>) -> bool {
    forall|i: int| 0 <= i < leafs.len() ==> (#[trigger] leafs[i]).wf() && leafs[i].filled()
}

/// Each trunk of `trunks` is a valid node below the root, of the given depth.
pub open spec fn trunks_wf<S>(trunks: Seq<Trunk<S>>, depth: nat) -> bool {
    forall|i: int|
        0 <= i < trunks.len() ==> (#[trigger] trunks[i]).wf() && trunks[i].filled()
            && trunks[i].levels() == depth
}

impl<S> Children<S> {
    /// The number of children.
    pub open spec fn count(self) -> nat {
        match self {
            Children::Leafs(leafs) => leafs@.len(),
            Children::Trunks(trunks) => trunks@.len(),
        }
    }

    /// The checkpoints of each child, in the order of the children.
    pub open spec fn parts(self) -> Seq<Seq<Checkpoint<S>>> {
        match self {
            Children::Leafs(leafs) => leaf_parts(leafs@),
            Children::Trunks(trunks) => trunk_parts(trunks@),
        }
    }

    /// The outline of each child, in the order of the children.
    pub open spec fn shapes(self) -> Seq<Shape> {
        match self {
            Children::Leafs(leafs) => leaf_shapes(leafs@),
            Children::Trunks(trunks) => trunk_shapes(trunks@),
        }
    }

    /// Each child is valid, with all the nodes below it.
    pub open spec fn valid(self) -> bool {
        match self {
            Children::Leafs(leafs) => forall|i: int|
                0 <= i < leafs@.len() ==> (#[trigger] leafs@[i]).wf(),
            Children::Trunks(trunks) => forall|i: int|
                0 <= i < trunks@.len() ==> (#[trigger] trunks@[i]).wf(),
        }
    }

    /// The number of levels of nodes from the first child down to the leafs, both
    /// counted. In a valid trunk it is that of every child.
    pub open spec fn levels(self) -> nat {
        match self {
            Children::Leafs(_) => 1,
            Children::Trunks(trunks) => if trunks@.len() > 0 {
                trunks@[0].levels()
            } else {
                1
            },
        }
    }
}

impl<S> Trunk<S> {
    /// The checkpoints of the trunk itself, in order.
    pub closed spec fn keys(self) -> Seq<Checkpoint<S>> {
        self.checkpoints@
    }

    /// The checkpoints of each child, in the order of the children.
    pub closed spec fn parts(self) -> Seq<Seq<Checkpoint<S>>>
        decreases self, 0int,
    {
        match self.children {
            Children::Leafs(leafs) => Seq::new(leafs@.len(), |i: int| leafs@[i].flat()),
            Children::Trunks(trunks) => Seq::new(
                trunks@.len(),
                |i: int|
                    if 0 <= i < trunks@.len() {
                        trunks@[i].flat()
                    } else {
                        Seq::empty()
                    },
            ),
        }
    }

    /// The checkpoints of the trunk and of all the nodes below it, in order.
    pub closed spec fn flat(self) -> Seq<Checkpoint<S>>
        decreases self,
    {
        join(self.parts(), self.checkpoints@)
    }

    /// The number of levels of nodes from this trunk down to the leafs, both counted.
    pub closed spec fn levels(self) -> nat
        decreases self,
    {
        match self.children {
            Children::Leafs(_) => 2,
            Children::Trunks(trunks) => if trunks@.len() > 0 {
                1 + trunks@[0].levels()
            } else {
                2
            },
        }
    }

    /// The trunk and all the nodes below it are valid: a trunk holds at least one
    /// checkpoint, at most as many as a node can take, and one more child than
    /// checkpoints; each node below it is at least half full; and all its children have
    /// the same depth, so that all the leafs below it are on one level.
    pub closed spec fn wf(self) -> bool
        decreases self,
    {
        &&& self.checkpoints.wf()
        &&& self.checkpoints@.len() >= 1
        &&& match self.children {
            Children::Leafs(leafs) => {
                &&& leafs@.len() == self.checkpoints@.len() + 1
                &&& forall|i: int|
                    0 <= i < leafs@.len() ==> (#[trigger] leafs@[i]).wf() && leafs@[i].filled()
            },
            Children::Trunks(trunks) => {
                &&& trunks@.len() == self.checkpoints@.len() + 1
                &&& forall|i: int|
                    0 <= i < trunks@.len() ==> (#[trigger] trunks@[i]).wf() && trunks@[i].filled()
                        && trunks@[i].levels() == trunks@[0].levels()
            },
        }
    }

    /// The trunk is at least half full, as every node but the root is.
    pub closed spec fn filled(self) -> bool {
        self.checkpoints@.len() >= NODE_CAPACITY / 2
    }

    /// The outline of the trunk and of the nodes below it.
    pub closed spec fn shape(self) -> Shape
        decreases self,
    {
        Shape::Trunk(
            self.checkpoints@.len(),
            match self.children {
                Children::Leafs(leafs) => Seq::new(leafs@.len(), |i: int| leafs@[i].shape()),
                Children::Trunks(trunks) => Seq::new(
                    trunks@.len(),
                    |i: int|
                        if 0 <= i < trunks@.len() {
                            trunks@[i].shape()
                        } else {
                            Shape::Leaf(0)
                        },
                ),
            },
        )
    }

    /// The shape of a valid trunk: all the leafs below it are on one level, which is
    /// the number of its levels, and every node below it is at least half full and
    /// holds no more than a node can take.
    pub proof fn lemma_shape(self)
        requires
            self.wf(),
        ensures
            self.shape().leafs_on_level(self.levels()),
            self.shape().occupied(true),
            self.filled() ==> self.shape().occupied(false),
            self.shape().held() == self.keys().len(),
        decreases self,
    {
        let shape = self.shape();
        let below = shape->Trunk_1;
        let depth = (self.levels() - 1) as nat;
        match self.children {
            Children::Leafs(leafs) => {
                assert(below.len() == leafs@.len());
                assert forall|i: int| 0 <= i < below.len() implies (
                #[trigger] below[i]).leafs_on_level(depth) && below[i].occupied(false) by {
                    leafs@[i].lemma_wf();
                    assert(below[i] == leafs@[i].shape());
                }
            },
            Children::Trunks(trunks) => {
                assert(below.len() == trunks@.len());
                assert forall|i: int| 0 <= i < below.len() implies (
                #[trigger] below[i]).leafs_on_level(depth) && below[i].occupied(false) by {
                    trunks@[i].lemma_shape();
                    assert(below[i] == trunks@[i].shape());
                }
            },
        }
        self.lemma_wf();
    }

    /// The outline of a valid trunk counts its checkpoints: what the trunk itself and
    /// its first `k` children hold, with all the nodes below them.
    proof fn lemma_counted(self, k: nat)
        requires
            self.wf(),
            k <= self.checkpoints@.len() + 1,
        ensures
            self.shape().count(k) == self.checkpoints@.len() + held_in(
                self.parts().take(k as int),
            ),
        decreases self, k,
    {
        self.lemma_parts();
        let parts = self.parts();
        let shape = self.shape();
        let below = self.children.shapes();
        assert(shape == Shape::Trunk(self.checkpoints@.len(), below));
        assert(below.len() == self.checkpoints@.len() + 1);
        if k == 0 {
            assert(held_in(parts.take(0)) == 0);
            assert(shape.count(0) == self.checkpoints@.len());
        } else {
            self.lemma_counted((k - 1) as nat);
            assert(parts.take(k as int).drop_last() =~= parts.take(k - 1));
            assert(parts.take(k as int).last() == parts[k - 1]);
            let child = below[k - 1];
            match self.children {
                Children::Leafs(leafs) => {
                    assert(child == leafs@[k - 1].shape());
                    assert(parts[k - 1] == leafs@[k - 1].flat());
                    assert(child.total() == parts[k - 1].len());
                },
                Children::Trunks(trunks) => {
                    trunks@[k - 1].lemma_total();
                    assert(child == trunks@[k - 1].shape());
                    assert(parts[k - 1] == trunks@[k - 1].flat());
                    assert(child.total() == parts[k - 1].len());
                },
            }
            assert(shape.count(k) == shape.count((k - 1) as nat) + child.count(child.arity()));
        }
    }

    /// The outline of a valid trunk counts the checkpoints of the trunk and of all the
    /// nodes below it.
    pub proof fn lemma_total(self)
        requires
            self.wf(),
        ensures
            self.shape().total() == self.flat().len(),
        decreases self, self.keys().len() + 2,
    {
        self.lemma_parts();
        let n = self.checkpoints@.len();
        self.lemma_counted(n + 1);
        assert(self.parts().take((n + 1) as int) =~= self.parts());
        lemma_join_held(self.parts(), self.checkpoints@);
    }

    /// The way from a valid trunk to a place in its child `pos` leads through that child:
    /// the place is `q` in what the child holds, and it is counted from the first
    /// checkpoint of the child `c`, which is not behind that child.
    proof fn lemma_full_from(self, pos: int, q: int, c: int)
        requires
            self.wf(),
            0 <= c <= pos <= self.checkpoints@.len(),
            0 <= q <= self.parts()[pos].len(),
        ensures
            self.shape().full_from(span(self.parts(), c, pos) + q, c as nat)
                == self.children.shapes()[pos].full_at(q),
        decreases pos - c,
    {
        self.lemma_parts();
        let parts = self.parts();
        let shape = self.shape();
        let below = self.children.shapes();
        assert(shape == Shape::Trunk(self.checkpoints@.len(), below));
        assert(below.len() == self.checkpoints@.len() + 1);
        match self.children {
            Children::Leafs(leafs) => {
                assert(below[c] == leafs@[c].shape());
                assert(parts[c] == leafs@[c].flat());
            },
            Children::Trunks(trunks) => {
                trunks@[c].lemma_total();
                assert(below[c] == trunks@[c].shape());
                assert(parts[c] == trunks@[c].flat());
            },
        }
        assert(below[c].total() == parts[c].len());
        if c < pos {
            self.lemma_full_from(pos, q, c + 1);
        }
    }

    /// Whether a checkpoint that is inserted at a place in the child `pos` of a valid
    /// trunk splits the trunk: the trunk is full, and so is every node on the way to the
    /// place in the child. The place is `q` in what the child holds.
    proof fn lemma_full_at(self, pos: int, q: int)
        requires
            self.wf(),
            0 <= pos <= self.checkpoints@.len(),
            0 <= q <= self.parts()[pos].len(),
        ensures
            self.shape().full_at(before(self.parts(), self.checkpoints@, pos).len() + q) == (
            self.checkpoints@.len() == NODE_CAPACITY && self.children.shapes()[pos].full_at(q)),
    {
        self.lemma_parts();
        lemma_span_before(self.parts(), self.checkpoints@, pos);
        self.lemma_full_from(pos, q, 0);
        assert(self.shape() == Shape::Trunk(self.checkpoints@.len(), self.children.shapes()));
    }

    /// The checkpoints of a trunk and of what was split off from it by an insertion.
    pub open spec fn insert_outcome(self, r: InsertResult<S, Trunk<S>>) -> Seq<Checkpoint<S>> {
        match r {
            InsertResult::Done => self.flat(),
            InsertResult::Pending(median, right) => self.flat() + seq![median] + right.flat(),
        }
    }

    /// The checkpoints of a trunk and of what was split off from it by recording a sample.
    pub open spec fn record_outcome(self, r: RecordResult<S, Trunk<S>>) -> Seq<Checkpoint<S>> {
        match r {
            RecordResult::UpdatedInPlace => self.flat(),
            RecordResult::Inserted(inserted) => self.insert_outcome(inserted),
        }
    }

    /// What holds of the two halves and the median of a trunk that was split.
    pub open spec fn split_wf(self, r: InsertResult<S, Trunk<S>>) -> bool {
        match r {
            InsertResult::Done => true,
            InsertResult::Pending(median, right) => {
                &&& median.wf()
                &&& right.wf()
                &&& right.filled()
                &&& self.filled()
                &&& right.levels() == self.levels()
            },
        }
    }

    /// The checkpoints of the children are those of each child, for either kind of
    /// children.
    proof fn lemma_parts(self)
        ensures
            self.children matches Children::Leafs(leafs) ==> self.parts() == leaf_parts(leafs@),
            self.children matches Children::Trunks(trunks) ==> self.parts() == trunk_parts(
                trunks@,
            ),
            self.parts() == self.children.parts(),
            self.shape() == Shape::Trunk(self.checkpoints@.len(), self.children.shapes()),
    {
        match self.children {
            Children::Leafs(leafs) => {
                assert(self.parts() =~= leaf_parts(leafs@));
                assert(self.shape()->Trunk_1 =~= leaf_shapes(leafs@));
            },
            Children::Trunks(trunks) => {
                assert(self.parts() =~= trunk_parts(trunks@));
                assert(self.shape()->Trunk_1 =~= trunk_shapes(trunks@));
            },
        }
    }

    /// What validity says of the content of a trunk.
    pub proof fn lemma_wf(self)
        requires
            self.wf(),
        ensures
            1 <= self.keys().len() <= NODE_CAPACITY,
            self.parts().len() == self.keys().len() + 1,
            self.flat() == join(self.parts(), self.keys()),
            self.levels() >= 2,
            all_wf(self.keys()),
    {
        self.lemma_parts();
        match self.children {
            Children::Leafs(_) => {},
            Children::Trunks(trunks) => {
                assert(trunks@[0].levels() >= 1);
            },
        }
    }

    /// Takes the root out, which must be a trunk, and leaves an empty leaf in its place.
    pub fn take_from_root(root: &mut Root<S>) -> (taken: Self)
        requires
            *old(root) is Trunk,
        ensures
            Root::Trunk(taken) == *old(root),
            final(root).wf(),
    {
        match Root::take_from_root(root) {
            Root::Trunk(trunk) => trunk,
            _ => vstd::pervasive::unreached(),
        }
    }

    /// Takes the trunk apart: returns its own checkpoints, and its children.
    pub fn into_parts(self) -> (r: (Checkpoints<S>, Children<S>))
        requires
            self.wf(),
        ensures
            r.0.wf(),
            r.0@ == self.keys(),
            r.1.parts() == self.parts(),
            r.1.count() == self.keys().len() + 1,
            r.1.valid(),
            r.1.levels() + 1 == self.levels(),
    {
        proof {
            self.lemma_parts();
        }
        (self.checkpoints, self.children)
    }

    /// A valid trunk holds at least two to the power of one less than its levels
    /// checkpoints: each trunk has two children or more.
    pub proof fn lemma_crowded(self)
        requires
            self.wf(),
        ensures
            pow2((self.levels() - 1) as nat) <= self.flat().len(),
        decreases self,
    {
        self.lemma_parts();
        lemma_join_len(self.parts(), self.checkpoints@);
        lemma2_to64();
        match self.children {
            Children::Leafs(leafs) => {
                assert(leafs@[0].filled() && leafs@[1].filled());
            },
            Children::Trunks(trunks) => {
                trunks@[0].lemma_crowded();
                trunks@[1].lemma_crowded();
                assert(trunks@[1].levels() == trunks@[0].levels());
                trunks@[0].lemma_wf();
                lemma_pow2_unfold((self.levels() - 1) as nat);
            },
        }
    }

    /// Returns the number of checkpoints of the trunk itself.
    pub fn len(&self) -> (n: usize)
        ensures
            n == self.keys().len(),
    {
        self.checkpoints.len()
    }

    /// Returns the checkpoint of the trunk itself at `index`.
    pub fn get(&self, index: usize) -> (c: &Checkpoint<S>)
        requires
            index < self.keys().len(),
        ensures
            *c == self.keys()[index as int],
    {
        self.checkpoints.get(index)
    }

    /// Returns the child at `index`.
    pub fn child(&self, index: usize) -> (node: NodeRef<'_, S>)
        requires
            self.wf(),
            index <= self.keys().len(),
        ensures
            node.wf(),
            node.flat() == self.parts()[index as int],
            node.levels() + 1 == self.levels(),
    {
        proof {
            self.lemma_parts();
        }
        match &self.children {
            Children::Leafs(leafs) => NodeRef::Leaf(&leafs[index]),
            Children::Trunks(trunks) => NodeRef::Trunk(&trunks[index]),
        }
    }

    /// Inserts a new checkpoint into a node at `pos`, and the child `right_node` behind
    /// the child at `pos`. A node that is full is split: it keeps the lower half of its
    /// checkpoints and of its children, and the median checkpoint and the upper halves
    /// are returned.
    fn generic_insert_checkpoint<N>(
        checkpoints: &mut Checkpoints<S>,
        nodes: &mut Vec<N>,
        med_checkpoint: Checkpoint<S>,
        right_node: N,
        pos: usize,
    ) -> (r: InsertResult<S, (Checkpoints<S>, Vec<N>)>)
        requires
            old(checkpoints).wf(),
            med_checkpoint.wf(),
            pos <= old(checkpoints)@.len(),
            old(nodes)@.len() == old(checkpoints)@.len() + 1,
        ensures
            final(checkpoints).wf(),
            r is Done <==> old(checkpoints)@.len() < NODE_CAPACITY,
            match r {
                InsertResult::Done => {
                    &&& final(checkpoints)@ == old(checkpoints)@.insert(pos as int, med_checkpoint)
                    &&& final(nodes)@ == old(nodes)@.insert(pos + 1, right_node)
                },
                InsertResult::Pending(median, upper) => {
                    &&& median.wf()
                    &&& upper.0.wf()
                    &&& final(checkpoints)@.len() == NODE_CAPACITY / 2
                    &&& upper.0@.len() == NODE_CAPACITY / 2
                    &&& final(nodes)@.len() == NODE_CAPACITY / 2 + 1
                    &&& upper.1@.len() == NODE_CAPACITY / 2 + 1
                    &&& final(checkpoints)@ + seq![median] + upper.0@ == old(checkpoints)@.insert(
                        pos as int,
                        med_checkpoint,
                    )
                    &&& final(nodes)@ + upper.1@ == old(nodes)@.insert(pos + 1, right_node)
                },
            },
    {
        let ghost all = nodes@.insert(pos + 1, right_node);
        match checkpoints.insert_checkpoint(med_checkpoint, pos) {
            InsertResult::Done => {
                nodes.insert(pos + 1, right_node);
                InsertResult::Done
            },
            InsertResult::Pending(new_med_checkpoint, right_checkpoints) => {
                let med_pos = nodes.len() / 2;
                let mut right_children;
                if pos < med_pos {
                    right_children = nodes.split_off(med_pos);
                    nodes.insert(pos + 1, right_node);
                } else {
                    right_children = nodes.split_off(med_pos + 1);
                    right_children.insert(pos - med_pos, right_node);
                }
                assert(nodes@ + right_children@ =~= all);
                InsertResult::Pending(new_med_checkpoint, (right_checkpoints, right_children))
            },
        }
    }

    /// Returns the number of levels of nodes from this trunk down to the leafs.
    pub fn depth(&self) -> (d: usize)
        requires
            self.wf(),
            self.levels() <= 64,
        ensures
            d == self.levels(),
        decreases self.levels(),
    {
        match &self.children {
            Children::Leafs(_) => 2,
            Children::Trunks(trunks) => 1 + trunks[0].depth(),
        }
    }
}

impl<S> Trunk<S> {
    /// Builds the trunk that holds the given checkpoints and children.
    pub fn with_children(checkpoints: Checkpoints<S>, children: Children<S>) -> (trunk: Self)
        requires
            checkpoints.wf(),
            checkpoints@.len() >= 1,
            match children {
                Children::Leafs(leafs) => leafs@.len() == checkpoints@.len() + 1 && leafs_wf(
                    leafs@,
                ),
                Children::Trunks(trunks) => trunks@.len() == checkpoints@.len() + 1 && trunks_wf(
                    trunks@,
                    trunks@[0].levels(),
                ),
            },
        ensures
            trunk.wf(),
            trunk.keys() == checkpoints@,
            trunk.flat() == join(trunk.parts(), checkpoints@),
            trunk.parts() == children.parts(),
            trunk.shape() == Shape::Trunk(checkpoints@.len(), children.shapes()),
            match children {
                Children::Leafs(leafs) => trunk.parts() == leaf_parts(leafs@) && trunk.levels()
                    == 2,
                Children::Trunks(trunks) => trunk.parts() == trunk_parts(trunks@)
                    && trunk.levels() == 1 + trunks@[0].levels(),
            },
    {
        let trunk = Trunk { checkpoints, children };
        proof {
            trunk.lemma_parts();
        }
        trunk
    }

    /// Builds the trunk that holds the one checkpoint `med_checkpoint`, with the two
    /// leafs as its only children: `left_node` before the checkpoint, and `right_node`
    /// behind it.
    pub fn with_median_leafs(left_node: Leaf<S>, med_checkpoint: Checkpoint<S>, right_node: Leaf<
        S,
    >) -> (trunk: Self)
        requires
            left_node.wf(),
            left_node.filled(),
            right_node.wf(),
            right_node.filled(),
            med_checkpoint.wf(),
        ensures
            trunk.wf(),
            trunk.levels() == 2,
            trunk.keys() == seq![med_checkpoint],
            trunk.parts() == seq![left_node.flat(), right_node.flat()],
            trunk.shape() == Shape::Trunk(1, seq![left_node.shape(), right_node.shape()]),
            trunk.flat() == left_node.flat() + seq![med_checkpoint] + right_node.flat(),
    {
        let ghost parts = seq![left_node.flat(), right_node.flat()];
        let mut nodes: Vec<Leaf<S>> = Vec::new();
        nodes.push(left_node);
        nodes.push(right_node);
        let mut checkpoints = Checkpoints::new();
        let inserted = checkpoints.insert_checkpoint(med_checkpoint, 0);
        proof {
            assert(checkpoints@ =~= seq![med_checkpoint]);
            assert(leaf_parts(nodes@) =~= parts);
            assert(leaf_shapes(nodes@) =~= seq![left_node.shape(), right_node.shape()]);
            lemma_join_pair(left_node.flat(), med_checkpoint, right_node.flat());
        }
        Self::with_children(checkpoints, Children::Leafs(nodes))
    }

    /// Builds the trunk that holds the one checkpoint `med_checkpoint`, with the two
    /// trunks as its only children: `left_node` before the checkpoint, and `right_node`
    /// behind it.
    pub fn with_median_trunks(
        left_node: Trunk<S>,
        med_checkpoint: Checkpoint<S>,
        right_node: Trunk<S>,
    ) -> (trunk: Self)
        requires
            left_node.wf(),
            left_node.filled(),
            right_node.wf(),
            right_node.filled(),
            left_node.levels() == right_node.levels(),
            med_checkpoint.wf(),
        ensures
            trunk.wf(),
            trunk.levels() == left_node.levels() + 1,
            trunk.keys() == seq![med_checkpoint],
            trunk.parts() == seq![left_node.flat(), right_node.flat()],
            trunk.shape() == Shape::Trunk(1, seq![left_node.shape(), right_node.shape()]),
            trunk.flat() == left_node.flat() + seq![med_checkpoint] + right_node.flat(),
    {
        let ghost parts = seq![left_node.flat(), right_node.flat()];
        let mut nodes: Vec<Trunk<S>> = Vec::new();
        nodes.push(left_node);
        nodes.push(right_node);
        let mut checkpoints = Checkpoints::new();
        let inserted = checkpoints.insert_checkpoint(med_checkpoint, 0);
        proof {
            assert(checkpoints@ =~= seq![med_checkpoint]);
            assert(trunk_parts(nodes@) =~= parts);
            assert(trunk_shapes(nodes@) =~= seq![left_node.shape(), right_node.shape()]);
            lemma_join_pair(left_node.flat(), med_checkpoint, right_node.flat());
        }
        Self::with_children(checkpoints, Children::Trunks(nodes))
    }
}

impl<S> Trunk<S> {
    /// Takes in what a split of the child at `pos` has handed up: the median checkpoint,
    /// and the new leaf, which becomes the child behind the one at `pos`. A trunk that is
    /// full is split in turn.
    fn adopt_leaf(
        &mut self,
        med_checkpoint: Checkpoint<S>,
        right_node: Leaf<S>,
        pos: usize,
    ) -> (r: InsertResult<S, Self>)
        requires
            old(self).wf(),
            old(self).children is Leafs,
            med_checkpoint.wf(),
            right_node.wf(),
            right_node.filled(),
            pos <= old(self).keys().len(),
        ensures
            final(self).wf(),
            final(self).levels() == old(self).levels(),
            final(self).insert_outcome(r) == join(
                old(self).parts().insert(pos + 1, right_node.flat()),
                old(self).keys().insert(pos as int, med_checkpoint),
            ),
            final(self).split_wf(r),
            old(self).filled() ==> final(self).filled(),
            r is Pending <==> old(self).keys().len() == NODE_CAPACITY,
    {
        proof {
            self.lemma_parts();
        }
        let ghost parts2 = self.parts().insert(pos + 1, right_node.flat());
        let ghost keys2 = self.keys().insert(pos as int, med_checkpoint);
        let ghost levels = self.levels();
        match &mut self.children {
            Children::Leafs(nodes) => {
                let ghost below = nodes@[0].flat().len();
                let inserted = Self::generic_insert_checkpoint(
                    &mut self.checkpoints,
                    nodes,
                    med_checkpoint,
                    right_node,
                    pos,
                );
                match inserted {
                    InsertResult::Done => {
                        proof {
                            assert(leaf_parts(nodes@) =~= parts2);
                            self.lemma_parts();
                        }
                        InsertResult::Done
                    },
                    InsertResult::Pending(median, upper) => {
                        let ghost lower_parts = leaf_parts(nodes@);
                        let ghost upper_parts = leaf_parts(upper.1@);
                        let ghost all = nodes@ + upper.1@;
                        proof {
                            assert(leaf_parts(all) =~= parts2);
                            assert(lower_parts + upper_parts =~= leaf_parts(all));
                            lemma_join_concat(
                                lower_parts,
                                self.checkpoints@,
                                median,
                                upper_parts,
                                upper.0@,
                            );
                            assert forall|i: int| 0 <= i < nodes@.len() implies (
                            #[trigger] nodes@[i]).wf() && nodes@[i].filled()  by {
                                assert(nodes@[i] == all[i]);
                            }
                            assert forall|i: int| 0 <= i < upper.1@.len() implies (
                            #[trigger] upper.1@[i]).wf() && upper.1@[i].filled()  by {
                                assert(upper.1@[i] == all[i + nodes@.len()]);
                            }
                        }
                        let right_trunk = Self::with_children(upper.0, Children::Leafs(upper.1));
                        proof {
                            self.lemma_parts();
                        }
                        InsertResult::Pending(median, right_trunk)
                    },
                }
            },
            _ => {
                proof {
                    assert(false);
                }
                InsertResult::Done
            },
        }
    }

    /// Takes in what a split of the child at `pos` has handed up: the median checkpoint,
    /// and the new trunk, which becomes the child behind the one at `pos`. A trunk that is
    /// full is split in turn.
    fn adopt_trunk(
        &mut self,
        med_checkpoint: Checkpoint<S>,
        right_node: Trunk<S>,
        pos: usize,
    ) -> (r: InsertResult<S, Self>)
        requires
            old(self).wf(),
            old(self).children is Trunks,
            med_checkpoint.wf(),
            right_node.wf(),
            right_node.filled(),
            right_node.levels() + 1 == old(self).levels(),
            pos <= old(self).keys().len(),
        ensures
            final(self).wf(),
            final(self).levels() == old(self).levels(),
            final(self).insert_outcome(r) == join(
                old(self).parts().insert(pos + 1, right_node.flat()),
                old(self).keys().insert(pos as int, med_checkpoint),
            ),
            final(self).split_wf(r),
            old(self).filled() ==> final(self).filled(),
            r is Pending <==> old(self).keys().len() == NODE_CAPACITY,
    {
        proof {
            self.lemma_parts();
        }
        let ghost parts2 = self.parts().insert(pos + 1, right_node.flat());
        let ghost keys2 = self.keys().insert(pos as int, med_checkpoint);
        let ghost levels = self.levels();
        match &mut self.children {
            Children::Trunks(nodes) => {
                let ghost below = nodes@[0].levels();
                let inserted = Self::generic_insert_checkpoint(
                    &mut self.checkpoints,
                    nodes,
                    med_checkpoint,
                    right_node,
                    pos,
                );
                match inserted {
                    InsertResult::Done => {
                        proof {
                            assert(trunk_parts(nodes@) =~= parts2);
                            self.lemma_parts();
                        }
                        InsertResult::Done
                    },
                    InsertResult::Pending(median, upper) => {
                        let ghost lower_parts = trunk_parts(nodes@);
                        let ghost upper_parts = trunk_parts(upper.1@);
                        let ghost all = nodes@ + upper.1@;
                        proof {
                            assert(trunk_parts(all) =~= parts2);
                            assert(lower_parts + upper_parts =~= trunk_parts(all));
                            lemma_join_concat(
                                lower_parts,
                                self.checkpoints@,
                                median,
                                upper_parts,
                                upper.0@,
                            );
                            assert forall|i: int| 0 <= i < nodes@.len() implies (
                            #[trigger] nodes@[i]).wf() && nodes@[i].filled()
                                && nodes@[i].levels() == below by {
                                assert(nodes@[i] == all[i]);
                            }
                            assert forall|i: int| 0 <= i < upper.1@.len() implies (
                            #[trigger] upper.1@[i]).wf() && upper.1@[i].filled()
                                && upper.1@[i].levels() == below by {
                                assert(upper.1@[i] == all[i + nodes@.len()]);
                            }
                        }
                        let right_trunk = Self::with_children(upper.0, Children::Trunks(upper.1));
                        proof {
                            self.lemma_parts();
                        }
                        InsertResult::Pending(median, right_trunk)
                    },
                }
            },
            _ => {
                proof {
                    assert(false);
                }
                InsertResult::Done
            },
        }
    }
}

impl<S> Trunk<S> {
    /// Inserts a checkpoint behind all the checkpoints of this trunk and of the nodes
    /// below it. It is meant for a checkpoint that is not below any of them.
    pub fn insert_max_checkpoint(&mut self, checkpoint: Checkpoint<S>) -> (r: InsertResult<
        S,
        Self,
    >)
        requires
            old(self).wf(),
            checkpoint.wf(),
        ensures
            final(self).wf(),
            final(self).levels() == old(self).levels(),
            final(self).insert_outcome(r) == old(self).flat().push(checkpoint),
            final(self).split_wf(r),
            old(self).filled() ==> final(self).filled(),
            r is Pending <==> old(self).shape().full_at(old(self).flat().len() as int),
        decreases old(self).levels(),
    {
        let ghost parts0 = self.parts();
        let ghost keys0 = self.keys();
        let ghost line = self.flat().push(checkpoint);
        proof {
            self.lemma_parts();
            lemma_join_around(parts0, keys0, keys0.len() as int);
            self.lemma_full_at(keys0.len() as int, parts0[keys0.len() as int].len() as int);
        }
        match &mut self.children {
            Children::Leafs(nodes) => {
                let last = nodes.len() - 1;
                proof {
                    assert(leaf_shapes(nodes@)[last as int] == nodes@[last as int].shape());
                }
                let result = nodes[last].insert_max_checkpoint(checkpoint);
                let ghost child = nodes@[last as int];
                proof {
                    assert(leaf_parts(nodes@) =~= parts0.update(last as int, child.flat()));
                    self.lemma_parts();
                }
                match result {
                    InsertResult::Done => {
                        proof {
                            lemma_join_update(parts0, keys0, last as int, child.flat());
                            assert(self.flat() =~= line);
                        }
                        InsertResult::Done
                    },
                    InsertResult::Pending(med_checkpoint, right_node) => {
                        proof {
                            lemma_join_insert(
                                parts0,
                                keys0,
                                last as int,
                                child.flat(),
                                med_checkpoint,
                                right_node.flat(),
                            );
                        }
                        let adopted = self.adopt_leaf(med_checkpoint, right_node, last);
                        proof {
                            assert(self.insert_outcome(adopted) =~= line);
                        }
                        adopted
                    },
                }
            },
            Children::Trunks(nodes) => {
                let last = nodes.len() - 1;
                proof {
                    assert(trunk_shapes(nodes@)[last as int] == nodes@[last as int].shape());
                }
                let result = nodes[last].insert_max_checkpoint(checkpoint);
                let ghost child = nodes@[last as int];
                proof {
                    assert(trunk_parts(nodes@) =~= parts0.update(last as int, child.flat()));
                    self.lemma_parts();
                }
                match result {
                    InsertResult::Done => {
                        proof {
                            lemma_join_update(parts0, keys0, last as int, child.flat());
                            assert(self.flat() =~= line);
                        }
                        InsertResult::Done
                    },
                    InsertResult::Pending(med_checkpoint, right_node) => {
                        proof {
                            lemma_join_insert(
                                parts0,
                                keys0,
                                last as int,
                                child.flat(),
                                med_checkpoint,
                                right_node.flat(),
                            );
                        }
                        let adopted = self.adopt_trunk(med_checkpoint, right_node, last);
                        proof {
                            assert(self.insert_outcome(adopted) =~= line);
                        }
                        adopted
                    },
                }
            },
        }
    }
}

impl<S: Ord> Trunk<S> {
    /// Records a new sample into this trunk. `following` is the checkpoint that follows
    /// the trunk in the tree, and it is above the sample. The sample goes down into the
    /// child before the first checkpoint of the trunk that is above it, or into the last
    /// child where there is none, and that checkpoint, or else `following`, goes down with
    /// it as the one that follows the child: so the leaf at the end of the descent has the
    /// first checkpoint above the sample at hand, wherever in the tree it stands. A child
    /// that was split hands its median and its new half up to this trunk, which may be
    /// split in turn.
    pub fn record_sample(
        &mut self,
        sample: S,
        maximal_gap: u64,
        following: &mut Checkpoint<S>,
    ) -> (r: RecordResult<S, Self>)
        requires
            lawful::<S>(),
            old(self).wf(),
            old(following).wf(),
            lt(sample, old(following).sample),
            sorted(old(self).flat() + seq![*old(following)]),
        ensures
            final(self).wf(),
            final(following).wf(),
            final(self).levels() == old(self).levels(),
            final(self).record_outcome(r) + seq![*final(following)] == recorded(
                old(self).flat() + seq![*old(following)],
                sample,
                maximal_gap,
            ),
            r is Inserted ==> final(self).split_wf(r->Inserted_0),
            r is Inserted <==> recorded(
                old(self).flat() + seq![*old(following)],
                sample,
                maximal_gap,
            ).len() == old(self).flat().len() + 2,
            old(self).filled() ==> final(self).filled(),
            r matches RecordResult::Inserted(InsertResult::Pending(_, _)) <==> r is Inserted
                && old(self).shape().full_at(
                first_greater(old(self).flat() + seq![*old(following)], sample),
            ),
        decreases old(self).levels(),
    {
        let ghost this = *self;
        let ghost parts0 = self.parts();
        let ghost keys0 = self.keys();
        let ghost f0 = *following;
        proof {
            self.lemma_parts();
        }
        let (pos, next_following) = self.checkpoints.find_insertion_pos(&sample, following);
        proof {
            lemma_descend(parts0, keys0, f0, pos as int, sample, maximal_gap);
            assert(*next_following == successor(keys0, f0, pos as int));
            this.lemma_full_at(
                pos as int,
                first_greater(parts0[pos as int] + seq![*next_following], sample),
            );
        }
        match &mut self.children {
            Children::Leafs(nodes) => {
                let ghost nodes0 = nodes@;
                proof {
                    assert(this.children.shapes()[pos as int] == nodes0[pos as int].shape());
                }
                let result = nodes[pos].record_sample(sample, maximal_gap, next_following);
                let ghost child = nodes@[pos as int];
                let ghost succ = if pos < keys0.len() {
                    self.checkpoints@[pos as int]
                } else {
                    *following
                };
                proof {
                    assert(leaf_parts(nodes@) =~= parts0.update(pos as int, child.flat()));
                    self.lemma_parts();
                }
                match result {
                    RecordResult::UpdatedInPlace => {
                        proof {
                            lemma_ascend(parts0, keys0, f0, pos as int, succ, child.flat(), None);
                        }
                        RecordResult::UpdatedInPlace
                    },
                    RecordResult::Inserted(InsertResult::Done) => {
                        proof {
                            lemma_ascend(parts0, keys0, f0, pos as int, succ, child.flat(), None);
                        }
                        RecordResult::Inserted(InsertResult::Done)
                    },
                    RecordResult::Inserted(InsertResult::Pending(med_checkpoint, right_node)) => {
                        proof {
                            lemma_ascend(
                                parts0,
                                keys0,
                                f0,
                                pos as int,
                                succ,
                                child.flat(),
                                Some((med_checkpoint, right_node.flat())),
                            );
                        }
                        RecordResult::Inserted(self.adopt_leaf(med_checkpoint, right_node, pos))
                    },
                }
            },
            Children::Trunks(nodes) => {
                let ghost nodes0 = nodes@;
                proof {
                    assert(this.children.shapes()[pos as int] == nodes0[pos as int].shape());
                }
                let result = nodes[pos].record_sample(sample, maximal_gap, next_following);
                let ghost child = nodes@[pos as int];
                let ghost succ = if pos < keys0.len() {
                    self.checkpoints@[pos as int]
                } else {
                    *following
                };
                proof {
                    assert(trunk_parts(nodes@) =~= parts0.update(pos as int, child.flat()));
                    self.lemma_parts();
                }
                match result {
                    RecordResult::UpdatedInPlace => {
                        proof {
                            lemma_ascend(parts0, keys0, f0, pos as int, succ, child.flat(), None);
                        }
                        RecordResult::UpdatedInPlace
                    },
                    RecordResult::Inserted(InsertResult::Done) => {
                        proof {
                            lemma_ascend(parts0, keys0, f0, pos as int, succ, child.flat(), None);
                        }
                        RecordResult::Inserted(InsertResult::Done)
                    },
                    RecordResult::Inserted(InsertResult::Pending(med_checkpoint, right_node)) => {
                        proof {
                            lemma_ascend(
                                parts0,
                                keys0,
                                f0,
                                pos as int,
                                succ,
                                child.flat(),
                                Some((med_checkpoint, right_node.flat())),
                            );
                        }
                        RecordResult::Inserted(self.adopt_trunk(med_checkpoint, right_node, pos))
                    },
                }
            },
        }
    }
}

} // verus!
