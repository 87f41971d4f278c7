//! The nodes of the tree, and what an insertion into a node reports to the node above.

pub mod leaf;
pub mod root;
pub mod trunk;

use vstd::prelude::*;
use super::checkpoint::Checkpoint;
use super::checkpoints::NODE_CAPACITY;

pub use leaf::Leaf;
pub use root::Root;
pub use trunk::{
    leaf_parts, leaf_shapes, leafs_wf, trunk_parts, trunk_shapes, trunks_wf, Children, Trunk,
};

verus! {

/// How recording a sample into a node ended.
#[derive(Debug)]
pub enum RecordResult<S, N> {
    /// The sample was charged to the checkpoint that follows it.
    UpdatedInPlace,
    /// A new checkpoint was inserted for the sample.
    Inserted(InsertResult<S, N>),
}

/// How inserting a checkpoint into a node ended.
#[derive(Debug)]
pub enum InsertResult<S, N> {
    /// The node had room for the checkpoint.
    Done,
    /// The node was full and has been split: it keeps the lower half, and the median
    /// checkpoint and the upper half are handed up to be placed in the node above.
    Pending(Checkpoint<S>, N),
}

/// A node of the tree below or at the root, by reference.
#[derive(Debug)]
pub enum NodeRef<'a, S> {
    Leaf(&'a Leaf<S>),
    Trunk(&'a Trunk<S>),
}

impl<'a, S> Clone for NodeRef<'a, S> {
    fn clone(&self) -> (node: Self)
        ensures
            node == *self,
    {
        *self
    }
}

impl<'a, S> Copy for NodeRef<'a, S> {

}

impl<'a, S> NodeRef<'a, S> {
    /// The checkpoints of the node and of all the nodes below it, in order.
    pub open spec fn flat(self) -> Seq<Checkpoint<S>> {
        match self {
            NodeRef::Leaf(leaf) => leaf.flat(),
            NodeRef::Trunk(trunk) => trunk.flat(),
        }
    }

    /// The node and all the nodes below it are valid.
    pub open spec fn wf(self) -> bool {
        match self {
            NodeRef::Leaf(leaf) => leaf.wf(),
            NodeRef::Trunk(trunk) => trunk.wf(),
        }
    }

    /// The number of levels of nodes from this node down to the leafs, both counted.
    pub open spec fn levels(self) -> nat {
        match self {
            NodeRef::Leaf(_) => 1,
            NodeRef::Trunk(trunk) => trunk.levels(),
        }
    }
}

/// The outline of a node and of the nodes below it: how many checkpoints each node
/// holds, and which nodes are its children.
pub ghost enum Shape {
    Leaf(nat),
    Trunk(nat, Seq<Shape>),
}

impl Shape {
    /// The number of checkpoints that the node itself holds.
    pub open spec fn held(self) -> nat {
        match self {
            Shape::Leaf(held) => held,
            Shape::Trunk(held, _) => held,
        }
    }

    /// The number of children of the node.
    pub open spec fn arity(self) -> nat {
        match self {
            Shape::Leaf(_) => 0,
            Shape::Trunk(_, children) => children.len(),
        }
    }

    /// The number of checkpoints that the node itself holds, and its first `k` children
    /// with all the nodes below them.
    pub open spec fn count(self, k: nat) -> nat
        decreases self, k,
    {
        match self {
            Shape::Leaf(held) => held,
            Shape::Trunk(held, children) => if k == 0 || k > children.len() {
                held
            } else {
                self.count((k - 1) as nat) + children[k - 1].count(children[k - 1].arity())
            },
        }
    }

    /// The number of checkpoints that the node holds with all the nodes below it.
    pub open spec fn total(self) -> nat {
        self.count(self.arity())
    }

    /// Whether every node on the way to the place `p` is full, from this node down to
    /// a leaf: a checkpoint that is inserted there splits them all. `p` is a place among
    /// the checkpoints of the outline, counted from 0: that of a checkpoint, or the place
    /// behind the last one.
    pub open spec fn full_at(self, p: int) -> bool
        decreases self, self.arity() + 2,
    {
        match self {
            Shape::Leaf(held) => held == NODE_CAPACITY,
            Shape::Trunk(held, children) => held == NODE_CAPACITY && self.full_from(p, 0),
        }
    }

    /// Whether every node on the way to the place `p` is full, from the child that holds
    /// the place down to a leaf, where `p` is counted from the first checkpoint of the
    /// child `c`, and the place is not in a child before that one. The place before a
    /// checkpoint of the node itself is the place behind the child before the checkpoint.
    pub open spec fn full_from(self, p: int, c: nat) -> bool
        decreases self, self.arity() - c + 1,
    {
        match self {
            Shape::Leaf(_) => false,
            Shape::Trunk(_, children) => if c >= children.len() {
                false
            } else if c + 1 == children.len() || p <= children[c as int].total() {
                children[c as int].full_at(p)
            } else {
                self.full_from(p - children[c as int].total() - 1, c + 1)
            },
        }
    }

    /// The greatest number of checkpoints in a tree of `depth` levels.
    pub open spec fn most(depth: nat) -> nat
        decreases depth,
    {
        if depth <= 1 {
            NODE_CAPACITY as nat
        } else {
            NODE_CAPACITY as nat + (NODE_CAPACITY as nat + 1) * Self::most((depth - 1) as nat)
        }
    }

    /// The least number of checkpoints in `depth` levels of a tree: in the whole tree,
    /// if `is_root` says so, and else in a node below the root with all below it.
    pub open spec fn least(depth: nat, is_root: bool) -> nat
        decreases depth,
    {
        if depth <= 1 {
            if is_root {
                0
            } else {
                NODE_CAPACITY as nat / 2
            }
        } else if is_root {
            1 + 2 * Self::least((depth - 1) as nat, false)
        } else {
            NODE_CAPACITY as nat / 2 + (NODE_CAPACITY as nat / 2 + 1) * Self::least(
                (depth - 1) as nat,
                false,
            )
        }
    }

    /// How many checkpoints a tree of one to four levels holds at the least and at the
    /// most, for nodes of 16 checkpoints.
    pub proof fn lemma_small_trees()
        ensures
            Self::least(1, true) == 0 && Self::most(1) == 16,
            Self::least(2, true) == 17 && Self::most(2) == 288,
            Self::least(3, true) == 161 && Self::most(3) == 4912,
            Self::least(4, true) == 1457 && Self::most(4) == 83520,
    {
        assert(NODE_CAPACITY == 16);
        assert(Self::least(1, false) == 8);
        assert(Self::most(1) == 16);
        assert(Self::least(2, false) == 8 + 9 * Self::least(1, false));
        assert(Self::least(3, false) == 8 + 9 * Self::least(2, false));
        assert(Self::most(2) == 16 + 17 * Self::most(1));
        assert(Self::most(3) == 16 + 17 * Self::most(2));
        assert(Self::most(4) == 16 + 17 * Self::most(3));
        assert(Self::least(2, true) == 1 + 2 * Self::least(1, false));
        assert(Self::least(3, true) == 1 + 2 * Self::least(2, false));
        assert(Self::least(4, true) == 1 + 2 * Self::least(3, false));
    }

    /// One level more takes more checkpoints at the least.
    pub proof fn lemma_least_step(depth: nat)
        requires
            1 <= depth,
        ensures
            Self::least(depth, false) <= Self::least(depth + 1, false),
            Self::least(depth, true) <= Self::least(depth + 1, true),
            Self::least(depth, false) >= NODE_CAPACITY / 2,
        decreases depth,
    {
        let half = NODE_CAPACITY as nat / 2;
        let this = Self::least(depth, false);
        assert((half + 1) * this >= this) by (nonlinear_arith);
        if depth >= 2 {
            Self::lemma_least_step((depth - 1) as nat);
            let below = Self::least((depth - 1) as nat, false);
            assert((half + 1) * below >= 0) by (nonlinear_arith);
        }
    }

    /// The more levels, the more checkpoints at the least.
    pub proof fn lemma_least_grows(low: nat, high: nat, is_root: bool)
        requires
            1 <= low <= high,
        ensures
            Self::least(low, is_root) <= Self::least(high, is_root),
        decreases high,
    {
        if low < high {
            Self::lemma_least_grows(low, (high - 1) as nat, is_root);
            Self::lemma_least_step((high - 1) as nat);
        }
    }

    /// The first `k` children of an outline whose leafs are on one level, and whose
    /// nodes are filled as they must be, hold between the least and the most that so
    /// many nodes of their depth can hold.
    pub proof fn lemma_count_bounds(self, depth: nat, is_root: bool, k: nat)
        requires
            self.occupied(is_root),
            self.leafs_on_level(depth),
            k <= self.arity(),
        ensures
            self.held() + k * Self::least((depth - 1) as nat, false) <= self.count(k),
            self.count(k) <= self.held() + k * Self::most((depth - 1) as nat),
        decreases self, k,
    {
        let least_below = Self::least((depth - 1) as nat, false);
        let most_below = Self::most((depth - 1) as nat);
        if k == 0 {
            assert(k * least_below == 0 && k * most_below == 0) by (nonlinear_arith)
                requires
                    k == 0,
            ;
        }
        match self {
            Shape::Leaf(_) => {},
            Shape::Trunk(held, children) => {
                if k > 0 {
                    let child = children[k - 1];
                    self.lemma_count_bounds(depth, is_root, (k - 1) as nat);
                    child.lemma_total_bounds((depth - 1) as nat, false);
                    let low = Self::least((depth - 1) as nat, false);
                    let high = Self::most((depth - 1) as nat);
                    assert((k - 1) * low + low == k * low) by (nonlinear_arith);
                    assert((k - 1) * high + high == k * high) by (nonlinear_arith);
                }
            },
        }
    }

    /// An outline whose leafs are on the level `depth`, and whose nodes are filled as
    /// they must be, holds between the least and the most that a tree of that depth can
    /// hold.
    pub proof fn lemma_total_bounds(self, depth: nat, is_root: bool)
        requires
            self.occupied(is_root),
            self.leafs_on_level(depth),
        ensures
            Self::least(depth, is_root) <= self.total() <= Self::most(depth),
        decreases self, self.arity() + 1,
    {
        match self {
            Shape::Leaf(_) => {},
            Shape::Trunk(held, children) => {
                self.lemma_count_bounds(depth, is_root, children.len());
                let n = children.len();
                let low = Self::least((depth - 1) as nat, false);
                let high = Self::most((depth - 1) as nat);
                assert(n * high <= (NODE_CAPACITY as nat + 1) * high) by (nonlinear_arith)
                    requires
                        n <= NODE_CAPACITY as nat + 1,
                ;
                if is_root {
                    assert(2 * low <= n * low) by (nonlinear_arith)
                        requires
                            n >= 2,
                    ;
                } else {
                    assert((NODE_CAPACITY as nat / 2 + 1) * low <= n * low) by (nonlinear_arith)
                        requires
                            n >= NODE_CAPACITY as nat / 2 + 1,
                    ;
                }
            },
        }
    }

    /// Every leaf of the outline is on the level `depth`, where the node itself is on
    /// the first level.
    pub open spec fn leafs_on_level(self, depth: nat) -> bool
        decreases self,
    {
        match self {
            Shape::Leaf(_) => depth == 1,
            Shape::Trunk(_, children) => depth >= 2 && forall|i: int|
                0 <= i < children.len() ==> (#[trigger] children[i]).leafs_on_level(
                    (depth - 1) as nat,
                ),
        }
    }

    /// Every node of the outline holds no more checkpoints than a node can take; every
    /// node but the first, which is the root if `is_root` says so, holds at least half
    /// as many; and every trunk holds at least one, and has one more child than
    /// checkpoints.
    pub open spec fn occupied(self, is_root: bool) -> bool
        decreases self,
    {
        &&& self.held() <= NODE_CAPACITY
        &&& !is_root ==> self.held() >= NODE_CAPACITY / 2
        &&& match self {
            Shape::Leaf(_) => true,
            Shape::Trunk(held, children) => {
                &&& held >= 1
                &&& children.len() == held + 1
                &&& forall|i: int|
                    0 <= i < children.len() ==> (#[trigger] children[i]).occupied(false)
            },
        }
    }
}

} // verus!
