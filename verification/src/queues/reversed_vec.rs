//! A queue kept in a vector, front last.

use crate::order::Order;
use crate::queues::Queue;
use vstd::prelude::*;

verus! {

/// Resting orders in a vector in reverse: the front of the queue is the last
/// item of the vector, so that the front can be cut off without moving the rest.
pub struct ReversedVec<D>(Vec<Order<D>>);

impl<D> Clone for ReversedVec<D> {
    fn clone(&self) -> (copy: Self)
        ensures
            copy@ == self@,
    {
        let copy = ReversedVec(self.0.clone());
        assert(copy.0@ =~= self.0@);
        copy
    }
}

impl<D> Default for ReversedVec<D> {
    fn default() -> (queue: Self)
        ensures
            queue@ == Seq::<Order<D>>::empty(),
    {
        ReversedVec(Vec::new())
    }
}

impl<D> Queue<Order<D>> for ReversedVec<D> {
    closed spec fn view(&self) -> Seq<Order<D>> {
        self.0@.reverse()
    }

    fn new() -> (queue: Self) {
        ReversedVec(Vec::new())
    }

    fn insert_position<P: Fn(&Order<D>) -> bool>(&self, predicate: P) -> (position: Option<usize>) {
        let count = self.0.len();
        let mut i: usize = 0;
        while i < count
            invariant
                count == self.0@.len(),
                i <= count,
                forall|j: int|
                    0 <= j < self@.len() ==> call_requires(predicate, (&#[trigger] self@[j],)),
                forall|j: int| 0 <= j < i ==> call_ensures(predicate, (&#[trigger] self@[j],), false),
            decreases count - i,
        {
            assert(call_requires(predicate, (&self@[i as int],)));
            if predicate(&self.0[count - 1 - i]) {
                return Some(i);
            }
            i += 1;
        }
        None
    }

    fn push_back(&mut self, item: Order<D>) {
        self.0.insert(0, item);
        assert(self.0@.reverse() =~= old(self).0@.reverse().push(item));
    }

    fn insert_at(&mut self, index: usize, item: Order<D>) {
        if index == 0 {
            self.0.push(item)
        } else {
            let count = self.0.len();
            self.0.insert(count - index, item);
        }
        assert(self.0@.reverse() =~= old(self).0@.reverse().insert(index as int, item));
    }

    fn drop_first_n(&mut self, count: usize) {
        let kept = self.0.len() - count;
        self.0.truncate(kept);
        assert(self.0@.reverse() =~= old(self).0@.reverse().skip(count as int));
    }

    fn get(&self, index: usize) -> (item: &Order<D>) {
        &self.0[self.0.len() - 1 - index]
    }

    fn get_mut(&mut self, index: usize) -> (item: &mut Order<D>) {
        let count = self.0.len();
        let item = &mut self.0[count - 1 - index];
        proof {
            let before = old(self).0@;
            let at = count - 1 - index;
            assert(before.update(at, *final(item)).reverse() =~= before.reverse().update(
                index as int,
                *final(item),
            ));
        }
        item
    }

    fn len(&self) -> (n: usize) {
        self.0.len()
    }
}

} // verus!
