//! A queue kept in a ring buffer.

use crate::order::Order;
use crate::queues::Queue;
use std::collections::VecDeque;
use vstd::prelude::*;

verus! {

/// Resting orders in a double-ended ring buffer, the front of the queue at its
/// front.
pub struct VecDequeQueue<D>(VecDeque<Order<D>>);

impl<D> Clone for VecDequeQueue<D> {
    fn clone(&self) -> (copy: Self)
        ensures
            copy@ == self@,
    {
        let copy = VecDequeQueue(self.0.clone());
        assert(copy.0@ =~= self.0@);
        copy
    }
}

impl<D> Default for VecDequeQueue<D> {
    fn default() -> (queue: Self)
        ensures
            queue@ == Seq::<Order<D>>::empty(),
    {
        VecDequeQueue(VecDeque::new())
    }
}

/// `VecDeque`'s `IndexMut::index_mut`: a mutable borrow of the item at `index`;
/// what is written through it is what the deque holds at that position afterwards.
#[verifier::external_body]
fn deque_index_mut<T>(deque: &mut VecDeque<T>, index: usize) -> (item: &mut T)
    requires
        index < old(deque)@.len(),
    ensures
        *item == old(deque)@[index as int],
        final(deque)@ == old(deque)@.update(index as int, *final(item)),
{
    &mut deque[index]
}

impl<D> Queue<Order<D>> for VecDequeQueue<D> {
    closed spec fn view(&self) -> Seq<Order<D>> {
        self.0@
    }

    fn new() -> (queue: Self) {
        VecDequeQueue(VecDeque::new())
    }

    fn insert_position<P: Fn(&Order<D>) -> bool>(&self, predicate: P) -> (position: Option<usize>) {
        let mut i: usize = 0;
        while i < self.0.len()
            invariant
                i <= self.0@.len(),
                forall|j: int| 0 <= j < self@.len() ==> call_requires(predicate, (&#[trigger] self@[j],)),
                forall|j: int| 0 <= j < i ==> call_ensures(predicate, (&#[trigger] self@[j],), false),
            decreases self.0@.len() - i,
        {
            assert(call_requires(predicate, (&self@[i as int],)));
            if predicate(&self.0[i]) {
                return Some(i);
            }
            i += 1;
        }
        None
    }

    fn push_back(&mut self, item: Order<D>) {
        self.0.push_back(item)
    }

    fn insert_at(&mut self, index: usize, item: Order<D>) {
        if index == 0 {
            self.0.push_front(item);
            assert(old(self)@.insert(0, item) =~= seq![item] + old(self)@);
        } else {
            self.0.insert(index, item)
        }
    }

    fn drop_first_n(&mut self, count: usize) {
        let mut i: usize = 0;
        while i < count
            invariant
                i <= count <= old(self)@.len(),
                self@ == old(self)@.skip(i as int),
            decreases count - i,
        {
            let _ = self.0.pop_front();
            i += 1;
        }
    }

    fn get(&self, index: usize) -> (item: &Order<D>) {
        &self.0[index]
    }

    fn get_mut(&mut self, index: usize) -> (item: &mut Order<D>) {
        deque_index_mut(&mut self.0, index)
    }

    fn len(&self) -> (n: usize) {
        self.0.len()
    }
}

} // verus!
