//! The checkpoints of one node: an ordered buffer of fixed capacity.

use vstd::prelude::*;
use crate::order::{lawful, less, lt};
use super::checkpoint::Checkpoint;
use super::node::InsertResult;
use super::sequence::{all_wf, is_first_greater};

verus! {

/// The greatest number of checkpoints in one node. It is even, so that a full node that
/// takes one more checkpoint splits into two halves of equal size around a median.
pub const NODE_CAPACITY: usize = 16;

/// The checkpoints of one node, in order. At most [`NODE_CAPACITY`] are held.
#[derive(Debug)]
pub struct Checkpoints<S> {
    items: Vec<Checkpoint<S>>,
}

impl<S> View for Checkpoints<S> {
    type V = Seq<Checkpoint<S>>;

    closed spec fn view(&self) -> Seq<Checkpoint<S>> {
        self.items@
    }
}

impl<S> Checkpoints<S> {
    /// The buffer respects its capacity and holds consistent checkpoints.
    pub open spec fn wf(self) -> bool {
        &&& self@.len() <= NODE_CAPACITY
        &&& all_wf(self@)
    }

    /// Creates a new empty list of checkpoints.
    pub fn new() -> (c: Self)
        ensures
            c@ == Seq::<Checkpoint<S>>::empty(),
            c.wf(),
    {
        Checkpoints { items: Vec::new() }
    }

    /// Returns the number of checkpoints held.
    pub fn len(&self) -> (n: usize)
        ensures
            n == self@.len(),
    {
        self.items.len()
    }

    /// Returns whether no further checkpoint fits.
    pub fn is_full(&self) -> (b: bool)
        ensures
            b == (self@.len() >= NODE_CAPACITY),
    {
        self.items.len() >= NODE_CAPACITY
    }

    /// Returns the checkpoint at `index`.
    pub fn get(&self, index: usize) -> (c: &Checkpoint<S>)
        requires
            index < self@.len(),
        ensures
            *c == self@[index as int],
    {
        &self.items[index]
    }

    /// Takes out the first checkpoint and returns it.
    pub fn pop_front(&mut self) -> (c: Checkpoint<S>)
        requires
            old(self)@.len() > 0,
        ensures
            c == old(self)@[0],
            final(self)@ == old(self)@.skip(1),
    {
        let c = self.items.remove(0);
        assert(self.items@ =~= old(self).items@.skip(1));
        c
    }

    /// Splits the list in two at the given index: the checkpoints from `at` on are
    /// returned, those before `at` stay.
    pub fn split_off(&mut self, at: usize) -> (upper: Self)
        requires
            at <= old(self)@.len(),
        ensures
            final(self)@ == old(self)@.subrange(0, at as int),
            upper@ == old(self)@.subrange(at as int, old(self)@.len() as int),
    {
        Checkpoints { items: self.items.split_off(at) }
    }

    /// Inserts a new checkpoint at `pos`. A list that is full is split around its median
    /// into two halves of equal size: the lower half stays, and the median and the
    /// upper half are returned.
    pub fn insert_checkpoint(&mut self, checkpoint: Checkpoint<S>, pos: usize) -> (r: InsertResult<
        S,
        Self,
    >)
        requires
            old(self).wf(),
            checkpoint.wf(),
            pos <= old(self)@.len(),
        ensures
            final(self).wf(),
            old(self)@.len() < NODE_CAPACITY ==> r is Done && final(self)@ == old(self)@.insert(
                pos as int,
                checkpoint,
            ),
            old(self)@.len() == NODE_CAPACITY ==> r is Pending && r->Pending_1.wf()
                && final(self)@.len() == NODE_CAPACITY / 2 && r->Pending_1@.len() == NODE_CAPACITY
                / 2 && r->Pending_0.wf() && final(self)@ + seq![r->Pending_0] + r->Pending_1@
                == old(self)@.insert(pos as int, checkpoint),
    {
        if !self.is_full() {
            self.items.insert(pos, checkpoint);
            return InsertResult::Done;
        }
        let ghost all = self@.insert(pos as int, checkpoint);
        let med_pos = self.items.len() / 2;
        let med_checkpoint;
        let mut right_checkpoints;
        if pos < med_pos {
            right_checkpoints = self.split_off(med_pos);
            med_checkpoint = self.items.pop().unwrap();
            self.items.insert(pos, checkpoint);
        } else if pos == med_pos {
            right_checkpoints = self.split_off(med_pos);
            med_checkpoint = checkpoint;
        } else {
            right_checkpoints = self.split_off(med_pos + 1);
            med_checkpoint = self.items.pop().unwrap();
            right_checkpoints.items.insert(pos - med_pos - 1, checkpoint);
        }
        proof {
            assert(self@ + seq![med_checkpoint] + right_checkpoints@ =~= all);
            assert(forall|i: int| 0 <= i < self@.len() ==> (#[trigger] self@[i]) == all[i]);
            assert(forall|i: int|
                0 <= i < right_checkpoints@.len() ==> (#[trigger] right_checkpoints@[i]) == all[i
                    + NODE_CAPACITY / 2 + 1]);
            assert(med_checkpoint == all[NODE_CAPACITY as int / 2]);
        }
        InsertResult::Pending(med_checkpoint, right_checkpoints)
    }
}

impl<S: Ord> Checkpoints<S> {
    /// Finds where `sample` belongs: returns the index of the first checkpoint that is
    /// strictly greater than it, and that checkpoint. Where no checkpoint of the list is
    /// greater, the index is the length of the list, and the checkpoint is `following`,
    /// the one that follows the whole list.
    pub fn find_insertion_pos<'a>(
        &'a mut self,
        sample: &S,
        following: &'a mut Checkpoint<S>,
    ) -> ((pos, neighbour): (usize, &'a mut Checkpoint<S>))
        requires
            lawful::<S>(),
        ensures
            is_first_greater(old(self)@, *sample, pos as int),
            pos < old(self)@.len() ==> *neighbour == old(self)@[pos as int]
                && final(self)@ == old(self)@.update(pos as int, *final(neighbour))
                && *final(following) == *old(following),
            pos == old(self)@.len() ==> *neighbour == *old(following)
                && *final(following) == *final(neighbour)
                && final(self)@ == old(self)@,
    {
        let len = self.items.len();
        let mut i: usize = 0;
        while i < len && !less(sample, &self.items[i].sample)
            invariant
                lawful::<S>(),
                len == self.items@.len(),
                self.items@ == old(self).items@,
                0 <= i <= len,
                forall|j: int| 0 <= j < i ==> !lt(*sample, (#[trigger] self.items@[j]).sample),
            decreases len - i,
        {
            i += 1;
        }
        if i < len {
            (i, &mut self.items[i])
        } else {
            (len, following)
        }
    }
}

} // verus!
