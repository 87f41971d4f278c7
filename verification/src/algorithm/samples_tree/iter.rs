//! Walks over the checkpoints of a tree, in order.

use vstd::prelude::*;
use super::checkpoint::Checkpoint;
use super::checkpoints::Checkpoints;
use super::node::{leaf_parts, trunk_parts, Children, NodeRef, Root};
use super::sample::Sample;
use super::sequence::{after, join, lemma_join_around, lemma_tail_unfold};

verus! {

/// One step of a walk that has `before` to hand out: where a checkpoint is left, the
/// step hands out the sample of the first one, and leaves the rest as `after`; where none
/// is left, the step hands out nothing, and nothing is left.
pub open spec fn stepped<S: Ord>(
    before: Seq<Checkpoint<S>>,
    handed: Option<Sample<S>>,
    after: Seq<Checkpoint<S>>,
) -> bool {
    match handed {
        Some(sample) => {
            &&& before.len() > 0
            &&& before[0].wf()
            &&& sample == Sample::of(before[0])
            &&& after == before.skip(1)
        },
        None => before.len() == 0 && after.len() == 0,
    }
}

/// The walks agree step by step. A step of a walk by reference and a step of a walk by
/// value that have the same checkpoints to hand out hand out the same sample, or both
/// nothing, and leave the same checkpoints to hand out.
pub proof fn lemma_steps_agree<S: Ord>(
    before: Seq<Checkpoint<S>>,
    by_reference: Option<Sample<S>>,
    left_by_reference: Seq<Checkpoint<S>>,
    by_value: Option<Sample<S>>,
    left_by_value: Seq<Checkpoint<S>>,
)
    requires
        stepped(before, by_reference, left_by_reference),
        stepped(before, by_value, left_by_value),
    ensures
        by_reference == by_value,
        left_by_reference == left_by_value,
        by_reference is Some <==> before.len() > 0,
{
    if before.len() == 0 {
        assert(left_by_reference =~= left_by_value);
    }
}

/// The walks agree as a whole. What a walk hands out from a state on, step by step, is
/// the samples of the checkpoints that it has to hand out in that state, in order:
/// `handed` holds the results of the steps, and `left` what each step leaves.
pub proof fn lemma_walk_hands_out<S: Ord>(
    before: Seq<Checkpoint<S>>,
    handed: Seq<Option<Sample<S>>>,
    left: Seq<Seq<Checkpoint<S>>>,
)
    requires
        handed.len() == before.len() + 1,
        left.len() == handed.len(),
        stepped(before, handed[0], left[0]),
        forall|k: int| 0 < k < handed.len() ==> stepped(left[k - 1], #[trigger] handed[k], left[k]),
    ensures
        forall|k: int|
            0 <= k < before.len() ==> #[trigger] handed[k] == Some(Sample::of(before[k])),
        handed[before.len() as int] is None,
        forall|k: int| 0 <= k < before.len() ==> #[trigger] left[k] == before.skip(k + 1),
    decreases before.len(),
{
    if before.len() > 0 {
        let rest = before.skip(1);
        let handed2 = handed.skip(1);
        let left2 = left.skip(1);
        assert(stepped(left[0], handed[1], left[1]));
        assert forall|k: int| 0 < k < handed2.len() implies stepped(
            left2[k - 1],
            #[trigger] handed2[k],
            left2[k],
        ) by {
            assert(stepped(left[k], handed[k + 1], left[k + 1]));
        }
        lemma_walk_hands_out(rest, handed2, left2);
        assert forall|k: int| 0 <= k < before.len() implies #[trigger] handed[k] == Some(
            Sample::of(before[k]),
        ) by {
            if k > 0 {
                assert(handed2[k - 1] == handed[k]);
                assert(rest[k - 1] == before[k]);
            }
        }
        assert(handed2[rest.len() as int] == handed[before.len() as int]);
        assert forall|k: int| 0 <= k < before.len() implies #[trigger] left[k] == before.skip(
            k + 1,
        ) by {
            if k > 0 {
                assert(left2[k - 1] == left[k]);
                assert(rest.skip(k) =~= before.skip(k + 1));
            }
        }
    }
}

/// What a level of a walk still has to hand out, once the levels below it are done. A
/// level is a node, and how many of its own checkpoints have been handed out; for a
/// trunk, the children up to the one behind the last checkpoint that was handed out have
/// been entered.
pub open spec fn pending<S>(frame: (NodeRef<S>, usize)) -> Seq<Checkpoint<S>> {
    match frame.0 {
        NodeRef::Leaf(leaf) => leaf.flat().skip(frame.1 as int),
        NodeRef::Trunk(trunk) => after(trunk.parts(), trunk.keys(), frame.1 as int),
    }
}

/// The node of a level is valid, and the level has not gone beyond its checkpoints.
pub open spec fn frame_wf<S>(frame: (NodeRef<S>, usize)) -> bool {
    &&& frame.0.wf()
    &&& match frame.0 {
        NodeRef::Leaf(leaf) => frame.1 <= leaf.flat().len(),
        NodeRef::Trunk(trunk) => frame.1 <= trunk.keys().len(),
    }
}

/// What the levels of a walk still have to hand out: the deepest level, which is the
/// last, comes first.
pub open spec fn pending_all<S>(frames: Seq<(NodeRef<S>, usize)>) -> Seq<Checkpoint<S>>
    decreases frames.len(),
{
    if frames.len() == 0 {
        Seq::empty()
    } else {
        pending(frames.last()) + pending_all(frames.drop_last())
    }
}

/// The deepest level of a walk comes first in what the walk has to hand out.
proof fn lemma_pending_push<S>(frames: Seq<(NodeRef<S>, usize)>, frame: (NodeRef<S>, usize))
    ensures
        pending_all(frames.push(frame)) == pending(frame) + pending_all(frames),
{
    assert(frames.push(frame).drop_last() =~= frames);
}

/// A walk over the checkpoints of a tree by reference, in order. It keeps one level for
/// each node on the way from the root to the node that it is in.
pub struct Iter<'a, S> {
    /// The levels of the walk, the deepest last.
    stack: Vec<(NodeRef<'a, S>, usize)>,
    /// A checkpoint to hand out when the tree is done.
    following: Option<&'a Checkpoint<S>>,
}

impl<'a, S> Iter<'a, S> {
    /// The checkpoints that the walk has yet to hand out, in order.
    pub closed spec fn remaining(self) -> Seq<Checkpoint<S>> {
        pending_all(self.stack@) + match self.following {
            Some(checkpoint) => seq![*checkpoint],
            None => Seq::empty(),
        }
    }

    /// The levels of the walk are valid, and so is the checkpoint that follows the tree.
    pub closed spec fn wf(self) -> bool {
        &&& forall|i: int| 0 <= i < self.stack@.len() ==> frame_wf(#[trigger] self.stack@[i])
        &&& match self.following {
            Some(checkpoint) => checkpoint.wf(),
            None => true,
        }
    }

    /// Starts a walk over the tree below `node`, which is `tree_depth` levels deep.
    pub fn new(node: &'a Root<S>, tree_depth: usize) -> (it: Self)
        requires
            node.wf(),
        ensures
            it.wf(),
            it.remaining() == node.flat(),
            it.last_one() is None,
    {
        let stack = Vec::with_capacity(tree_depth);
        let mut it = Iter { stack, following: None };
        it.descend(node.as_node());
        it
    }

    /// Makes the walk hand out `checkpoint` at its end.
    pub fn followed_by(self, checkpoint: &'a Checkpoint<S>) -> (it: Self)
        requires
            self.wf(),
            checkpoint.wf(),
            self.last_one() is None,
        ensures
            it.wf(),
            it.remaining() == self.remaining().push(*checkpoint),
    {
        let it = Iter { stack: self.stack, following: Some(checkpoint) };
        assert(it.remaining() =~= self.remaining().push(*checkpoint));
        it
    }

    /// The checkpoint that the walk hands out at its end, if one was given.
    pub closed spec fn last_one(self) -> Option<Checkpoint<S>> {
        match self.following {
            Some(checkpoint) => Some(*checkpoint),
            None => None,
        }
    }

    /// Enters `node`, and its first child, and so on down to a leaf.
    fn descend(&mut self, node: NodeRef<'a, S>)
        requires
            old(self).wf(),
            node.wf(),
        ensures
            final(self).wf(),
            final(self).following == old(self).following,
            pending_all(final(self).stack@) == node.flat() + pending_all(old(self).stack@),
    {
        let ghost target = node.flat() + pending_all(self.stack@);
        let mut node = node;
        loop
            invariant_except_break
                self.wf(),
                node.wf(),
                self.following == old(self).following,
                node.flat() + pending_all(self.stack@) == target,
            ensures
                self.wf(),
                self.following == old(self).following,
                pending_all(self.stack@) == target,
            decreases node.levels(),
        {
            let ghost below = pending_all(self.stack@);
            proof {
                lemma_pending_push(self.stack@, (node, 0));
            }
            self.stack.push((node, 0));
            match node {
                NodeRef::Leaf(leaf) => {
                    proof {
                        assert(leaf.flat().skip(0) =~= leaf.flat());
                    }
                    break ;
                },
                NodeRef::Trunk(trunk) => {
                    proof {
                        trunk.lemma_wf();
                        lemma_join_around(trunk.parts(), trunk.keys(), 0);
                        assert(trunk.flat() + below =~= trunk.parts()[0] + (after(
                            trunk.parts(),
                            trunk.keys(),
                            0,
                        ) + below));
                    }
                    node = trunk.child(0);
                },
            }
        }
    }
}

impl<'a, S: Ord + Copy> Iter<'a, S> {
    /// Hands out the next sample of the walk, or `None` when the walk is done.
    pub fn next(&mut self) -> (r: Option<Sample<S>>)
        requires
            old(self).wf(),
        ensures
            final(self).wf(),
            stepped(old(self).remaining(), r, final(self).remaining()),
    {
        loop
            invariant
                self.wf(),
                self.remaining() == old(self).remaining(),
            decreases self.stack@.len(),
        {
            let ghost frames = self.stack@;
            let ghost line = self.remaining();
            match self.stack.pop() {
                None => {
                    match self.following {
                        Some(checkpoint) => {
                            self.following = None;
                            proof {
                                assert(line =~= seq![*checkpoint]);
                                assert(self.remaining() =~= line.skip(1));
                            }
                            return Some(Sample::from_checkpoint(*checkpoint));
                        },
                        None => {
                            return None;
                        },
                    }
                },
                Some(frame) => {
                    let ghost below = pending_all(self.stack@);
                    let ghost last = match self.following {
                        Some(checkpoint) => seq![*checkpoint],
                        None => Seq::empty(),
                    };
                    proof {
                        assert(frame == frames.last());
                        assert(self.stack@ =~= frames.drop_last());
                        assert(frame_wf(frames[frames.len() - 1]));
                        assert(line == pending(frame) + below + last);
                    }
                    let pos = frame.1;
                    match frame.0 {
                        NodeRef::Leaf(leaf) => {
                            if pos < leaf.len() {
                                let checkpoint = *leaf.get(pos);
                                proof {
                                    leaf.lemma_wf();
                                    lemma_pending_push(self.stack@, (frame.0, (pos + 1) as usize));
                                }
                                self.stack.push((frame.0, pos + 1));
                                proof {
                                    assert(leaf.flat().skip(pos as int) =~= seq![checkpoint]
                                        + leaf.flat().skip(pos + 1));
                                    assert(self.remaining() =~= line.skip(1));
                                }
                                return Some(Sample::from_checkpoint(checkpoint));
                            }
                            proof {
                                assert(self.remaining() =~= line);
                            }
                        },
                        NodeRef::Trunk(trunk) => {
                            proof {
                                trunk.lemma_wf();
                            }
                            if pos < trunk.len() {
                                let checkpoint = *trunk.get(pos);
                                proof {
                                    lemma_pending_push(self.stack@, (frame.0, (pos + 1) as usize));
                                    lemma_tail_unfold(trunk.parts(), trunk.keys(), pos as int);
                                }
                                self.stack.push((frame.0, pos + 1));
                                self.descend(trunk.child(pos + 1));
                                proof {
                                    assert(self.remaining() =~= line.skip(1));
                                }
                                return Some(Sample::from_checkpoint(checkpoint));
                            }
                            proof {
                                assert(self.remaining() =~= line);
                            }
                        },
                    }
                },
            }
        }
    }
}

/// Where a walk by value takes its next sample from.
enum NextSource<S> {
    /// From the checkpoints of the node itself.
    Sample,
    /// From the walk over the child that has been entered.
    Child(Box<IntoIter<S>>),
}

/// A walk over the checkpoints of a tree by value, in order. It takes the nodes apart as
/// it goes: the checkpoints of a node and its children are taken from the front, and the
/// child that has been entered has a walk of its own.
pub struct IntoIter<S> {
    /// The checkpoints of the node that have not been handed out.
    checkpoints: Checkpoints<S>,
    /// The children of the node that have not been entered.
    children: Option<Children<S>>,
    next_source: NextSource<S>,
    /// A checkpoint to hand out when the node is done.
    following: Option<Checkpoint<S>>,
}

/// The number of levels of nodes in the children of a node.
pub open spec fn levels_below<S>(children: Option<Children<S>>) -> nat {
    match children {
        None => 0,
        Some(nodes) => nodes.levels() + 1,
    }
}

impl<S> IntoIter<S> {
    /// The checkpoints that the walk has yet to hand out, in order.
    pub closed spec fn remaining(self) -> Seq<Checkpoint<S>>
        decreases self,
    {
        (match self.next_source {
            NextSource::Child(child_iter) => child_iter.remaining(),
            NextSource::Sample => Seq::empty(),
        }) + self.rest() + match self.following {
            Some(checkpoint) => seq![checkpoint],
            None => Seq::empty(),
        }
    }

    /// What the node itself and the children that have not been entered hold.
    spec fn rest(self) -> Seq<Checkpoint<S>> {
        match self.children {
            None => self.checkpoints@,
            Some(nodes) => join(seq![Seq::empty()] + nodes.parts(), self.checkpoints@),
        }
    }

    /// The checkpoint that the walk hands out at its end, if one was given.
    pub closed spec fn last_one(self) -> Option<Checkpoint<S>> {
        self.following
    }

    /// What is left of the node is valid: there is one checkpoint before each child that
    /// has not been entered.
    pub closed spec fn wf(self) -> bool
        decreases self,
    {
        &&& self.checkpoints.wf()
        &&& match self.following {
            Some(checkpoint) => checkpoint.wf(),
            None => true,
        }
        &&& match self.children {
            None => true,
            Some(nodes) => nodes.count() == self.checkpoints@.len() && nodes.count() >= 1
                && nodes.valid(),
        }
        &&& match self.next_source {
            NextSource::Child(child_iter) => child_iter.wf(),
            NextSource::Sample => true,
        }
    }

    /// Starts a walk over a node that holds the given checkpoints and children.
    pub fn new(checkpoints: Checkpoints<S>, children: Option<Children<S>>) -> (it: Self)
        requires
            checkpoints.wf(),
            children matches Some(nodes) ==> nodes.count() == checkpoints@.len() + 1
                && nodes.valid(),
        ensures
            it.wf(),
            it.last_one() is None,
            it.remaining() == match children {
                None => checkpoints@,
                Some(nodes) => join(nodes.parts(), checkpoints@),
            },
        decreases levels_below(children), 1int,
    {
        let mut children = children;
        let ghost before = children;
        let next_source = Self::prepare_next_child(&mut children);
        let it = IntoIter { checkpoints, children, next_source, following: None };
        proof {
            match before {
                None => {
                    assert(it.remaining() =~= checkpoints@);
                },
                Some(nodes) => {
                    lemma_join_around(nodes.parts(), checkpoints@, 0);
                    if checkpoints@.len() > 0 {
                        let shifted = seq![Seq::empty()] + children->0.parts();
                        lemma_join_around(shifted, checkpoints@, 0);
                        assert(shifted.subrange(1, shifted.len() as int) =~= nodes.parts().subrange(
                            1,
                            nodes.parts().len() as int,
                        ));
                    }
                    assert(it.remaining() =~= join(nodes.parts(), checkpoints@));
                },
            }
        }
        it
    }

    /// Makes the walk hand out `checkpoint` at its end.
    pub fn followed_by(self, checkpoint: Checkpoint<S>) -> (it: Self)
        requires
            self.wf(),
            checkpoint.wf(),
            self.last_one() is None,
        ensures
            it.wf(),
            it.remaining() == self.remaining().push(checkpoint),
    {
        let it = IntoIter {
            checkpoints: self.checkpoints,
            children: self.children,
            next_source: self.next_source,
            following: Some(checkpoint),
        };
        assert(it.remaining() =~= self.remaining().push(checkpoint));
        it
    }

    /// Enters the first child that has not been entered, if there is one: takes it out
    /// and starts a walk over it.
    fn prepare_next_child(children: &mut Option<Children<S>>) -> (source: NextSource<S>)
        requires
            *old(children) matches Some(nodes) ==> nodes.count() >= 1 && nodes.valid(),
        ensures
            match *old(children) {
                None => source is Sample && *final(children) is None,
                Some(nodes) => {
                    &&& source matches NextSource::Child(child_iter) && child_iter.wf()
                        && child_iter.last_one() is None && child_iter.remaining()
                        == nodes.parts()[0]
                    &&& nodes.count() == 1 ==> *final(children) is None
                    &&& nodes.count() > 1 ==> (*final(children) matches Some(others)
                        && others.parts() == nodes.parts().skip(1) && others.count()
                        == nodes.count() - 1 && others.valid())
                },
            },
        decreases levels_below(*old(children)), 0int,
    {
        match children.take() {
            None => NextSource::Sample,
            Some(Children::Leafs(leafs)) => {
                let mut leafs = leafs;
                let ghost all = leafs@;
                let leaf = leafs.remove(0);
                if leafs.len() > 0 {
                    proof {
                        assert(leaf_parts(leafs@) =~= leaf_parts(all).skip(1));
                        assert forall|i: int| 0 <= i < leafs@.len() implies (
                        #[trigger] leafs@[i]).wf() by {
                            assert(leafs@[i] == all[i + 1]);
                        }
                    }
                    *children = Some(Children::Leafs(leafs));
                }
                let checkpoints = leaf.into_checkpoints();
                NextSource::Child(Box::new(IntoIter::new(checkpoints, None)))
            },
            Some(Children::Trunks(trunks)) => {
                let mut trunks = trunks;
                let ghost all = trunks@;
                let trunk = trunks.remove(0);
                if trunks.len() > 0 {
                    proof {
                        assert(trunk_parts(trunks@) =~= trunk_parts(all).skip(1));
                        assert forall|i: int| 0 <= i < trunks@.len() implies (
                        #[trigger] trunks@[i]).wf() by {
                            assert(trunks@[i] == all[i + 1]);
                        }
                    }
                    *children = Some(Children::Trunks(trunks));
                }
                proof {
                    trunk.lemma_wf();
                }
                let (checkpoints, below) = trunk.into_parts();
                NextSource::Child(Box::new(IntoIter::new(checkpoints, Some(below))))
            },
        }
    }
}

impl<S: Ord + Copy> IntoIter<S> {
    /// Hands out the next sample of the walk, or `None` when the walk is done.
    pub fn next(&mut self) -> (r: Option<Sample<S>>)
        requires
            old(self).wf(),
        ensures
            final(self).wf(),
            stepped(old(self).remaining(), r, final(self).remaining()),
        decreases *old(self),
    {
        let ghost line = self.remaining();
        match &mut self.next_source {
            NextSource::Child(child_iter) => {
                match child_iter.next() {
                    Some(sample) => {
                        proof {
                            assert(self.remaining() =~= line.skip(1));
                        }
                        return Some(sample);
                    },
                    None => {},
                }
            },
            NextSource::Sample => {},
        }
        // The child that was entered is done, or none was entered.
        self.next_source = NextSource::Sample;
        proof {
            assert(self.remaining() =~= line);
        }
        if self.checkpoints.len() == 0 {
            match self.following {
                Some(checkpoint) => {
                    self.following = None;
                    proof {
                        assert(line =~= seq![checkpoint]);
                        assert(self.remaining() =~= line.skip(1));
                    }
                    return Some(Sample::from_checkpoint(checkpoint));
                },
                None => {
                    return None;
                },
            }
        }
        let ghost keys = self.checkpoints@;
        let ghost nodes = self.children;
        let ghost last = match self.following {
            Some(checkpoint) => seq![checkpoint],
            None => Seq::empty(),
        };
        let next = self.checkpoints.pop_front();
        self.next_source = Self::prepare_next_child(&mut self.children);
        proof {
            assert(keys[0].wf());
            match nodes {
                None => {
                    assert(self.remaining() =~= line.skip(1));
                },
                Some(nodes) => {
                    let shifted = seq![Seq::empty()] + nodes.parts();
                    lemma_join_around(shifted, keys, 0);
                    assert(shifted.subrange(1, shifted.len() as int) =~= nodes.parts());
                    assert(keys.subrange(1, keys.len() as int) =~= keys.skip(1));
                    // What is left behind the first key is the content of a node with the
                    // children that had not been entered.
                    lemma_join_around(nodes.parts(), keys.skip(1), 0);
                    if keys.len() > 1 {
                        let others = self.children->0;
                        let shifted2 = seq![Seq::empty()] + others.parts();
                        lemma_join_around(shifted2, keys.skip(1), 0);
                        assert(shifted2.subrange(1, shifted2.len() as int)
                            =~= nodes.parts().subrange(1, nodes.parts().len() as int));
                    }
                    assert(self.remaining() =~= line.skip(1));
                },
            }
        }
        Some(Sample::from_checkpoint(next))
    }
}

} // verus!
