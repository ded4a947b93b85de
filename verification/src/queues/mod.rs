//! Containers that can hold one side of the book.

use vstd::prelude::*;

pub mod reversed_vec;
pub mod simple_vec_queue;
pub mod vec_deque_queue;

pub use self::reversed_vec::ReversedVec;
pub use self::simple_vec_queue::SimpleVecQueue;
pub use self::vec_deque_queue::VecDequeQueue;

verus! {

/// A sequence of items with position 0 at the front.
pub trait Queue<T>: Sized {
    /// The items, front first.
    spec fn view(&self) -> Seq<T>;

    /// An empty queue.
    fn new() -> (queue: Self)
        ensures
            queue@ == Seq::<T>::empty(),
    ;

    /// The first position whose item satisfies `predicate`.
    fn insert_position<P: Fn(&T) -> bool>(&self, predicate: P) -> (position: Option<usize>)
        requires
            forall|i: int| 0 <= i < self@.len() ==> call_requires(predicate, (&#[trigger] self@[i],)),
        ensures
            match position {
                Some(k) => {
                    &&& k < self@.len()
                    &&& call_ensures(predicate, (&self@[k as int],), true)
                    &&& forall|i: int| 0 <= i < k ==> call_ensures(predicate, (&#[trigger] self@[i],), false)
                },
                None => forall|i: int| 0 <= i < self@.len() ==> call_ensures(predicate, (&#[trigger] self@[i],), false),
            },
    ;

    /// Puts `item` behind all others.
    fn push_back(&mut self, item: T)
        ensures
            final(self)@ == old(self)@.push(item),
    ;

    /// Puts `item` in front of all others.
    fn push_front(&mut self, item: T)
        ensures
            final(self)@ == seq![item] + old(self)@,
    {
        self.insert_at(0, item);
        assert(old(self)@.insert(0, item) =~= seq![item] + old(self)@);
    }

    /// Puts `item` at `index`; what was there or behind it moves back by one.
    fn insert_at(&mut self, index: usize, item: T)
        requires
            index <= old(self)@.len(),
        ensures
            final(self)@ == old(self)@.insert(index as int, item),
    ;

    /// Removes the first `count` items.
    fn drop_first_n(&mut self, count: usize)
        requires
            count <= old(self)@.len(),
        ensures
            final(self)@ == old(self)@.skip(count as int),
    ;

    /// The item at `index`.
    fn get(&self, index: usize) -> (item: &T)
        requires
            index < self@.len(),
        ensures
            *item == self@[index as int],
    ;

    /// The item at `index`, to be changed in place.
    fn get_mut(&mut self, index: usize) -> (item: &mut T)
        requires
            index < old(self)@.len(),
        ensures
            *item == old(self)@[index as int],
            final(self)@ == old(self)@.update(index as int, *final(item)),
    ;

    /// The number of items.
    fn len(&self) -> (n: usize)
        ensures
            n == self@.len(),
    ;

    /// Whether the queue holds nothing.
    fn is_empty(&self) -> (empty: bool)
        ensures
            empty == (self@.len() == 0),
    {
        self.len() == 0
    }
}

} // verus!
