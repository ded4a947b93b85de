//! A queue kept in a vector, front first.

use crate::order::Order;
use crate::queues::Queue;
use vstd::prelude::*;

verus! {

/// Resting orders in a vector, the front of the queue at its start.
pub struct SimpleVecQueue<D>(Vec<Order<D>>);

impl<D> Clone for SimpleVecQueue<D> {
    fn clone(&self) -> (copy: Self)
        ensures
            copy@ == self@,
    {
        let copy = SimpleVecQueue(self.0.clone());
        assert(copy.0@ =~= self.0@);
        copy
    }
}

impl<D> Default for SimpleVecQueue<D> {
    fn default() -> (queue: Self)
        ensures
            queue@ == Seq::<Order<D>>::empty(),
    {
        SimpleVecQueue(Vec::new())
    }
}

impl<D> Queue<Order<D>> for SimpleVecQueue<D> {
    closed spec fn view(&self) -> Seq<Order<D>> {
        self.0@
    }

    fn new() -> (queue: Self) {
        SimpleVecQueue(Vec::new())
    }

    fn insert_position<P: Fn(&Order<D>) -> bool>(&self, predicate: P) -> (position: Option<usize>) {
        let mut i: usize = 0;
        while i < self.0.len()
            invariant
                i <= self@.len(),
                forall|j: int|
                    0 <= j < self@.len() ==> call_requires(predicate, (&#[trigger] self@[j],)),
                forall|j: int| 0 <= j < i ==> call_ensures(predicate, (&#[trigger] self@[j],), false),
            decreases self@.len() - i,
        {
            assert(call_requires(predicate, (&self@[i as int],)));
            if predicate(&self.0[i]) {
                return Some(i);
            }
            i += 1;
        }
        None
    }

    fn push_back(&mut self, item: Order<D>) {
        self.0.push(item)
    }

    fn insert_at(&mut self, index: usize, item: Order<D>) {
        self.0.insert(index, item)
    }

    fn drop_first_n(&mut self, count: usize) {
        let kept = self.0.split_off(count);
        self.0 = kept;
    }

    fn get(&self, index: usize) -> (item: &Order<D>) {
        &self.0[index]
    }

    fn get_mut(&mut self, index: usize) -> (item: &mut Order<D>) {
        &mut self.0[index]
    }

    fn len(&self) -> (n: usize) {
        self.0.len()
    }
}

} // verus!
