//! Price-time priority: the order in which one side of the book rests.

use crate::order::{Direction, Order, OrderSide};
use vstd::prelude::*;

verus! {

/// Whether `price` is strictly worse than `than` on `side`: lower for a bid,
/// higher for an ask.
pub open spec fn worse(side: OrderSide, price: u64, than: u64) -> bool {
    match side {
        OrderSide::Buy => price < than,
        OrderSide::Sell => price > than,
    }
}

/// Best price first: no order is strictly worse than one behind it.
pub open spec fn ordered<D: Direction>(queue: Seq<Order<D>>) -> bool {
    forall|i: int, j: int|
        #![trigger queue[i], queue[j]]
        0 <= i < j < queue.len() ==> !worse(D::SIDE, queue[i].price_limit, queue[j].price_limit)
}

/// Every order has something left to trade.
pub open spec fn positive<D>(queue: Seq<Order<D>>) -> bool {
    forall|i: int| 0 <= i < queue.len() ==> (#[trigger] queue[i]).size > 0
}

/// Where an order with `price` goes: the first position that holds a strictly
/// worse price, or the end of the queue where there is none. It is behind every
/// order of the same price.
pub open spec fn insert_index<D: Direction>(queue: Seq<Order<D>>, price: u64) -> int
    decreases queue.len(),
{
    if queue.len() == 0 || worse(D::SIDE, queue[0].price_limit, price) {
        0
    } else {
        1 + insert_index(queue.drop_first(), price)
    }
}

/// The queue with `order` at its place.
pub open spec fn inserted<D: Direction>(queue: Seq<Order<D>>, order: Order<D>) -> Seq<Order<D>> {
    queue.insert(insert_index(queue, order.price_limit), order)
}

/// `insert_index` is the one position with no strictly worse price before it
/// and a strictly worse price at it.
pub proof fn lemma_insert_index<D: Direction>(queue: Seq<Order<D>>, price: u64)
    ensures
        0 <= insert_index(queue, price) <= queue.len(),
        forall|i: int|
            0 <= i < insert_index(queue, price) ==> !worse(
                D::SIDE,
                (#[trigger] queue[i]).price_limit,
                price,
            ),
        insert_index(queue, price) < queue.len() ==> worse(
            D::SIDE,
            queue[insert_index(queue, price)].price_limit,
            price,
        ),
    decreases queue.len(),
{
    if queue.len() == 0 || worse(D::SIDE, queue[0].price_limit, price) {
    } else {
        let rest = queue.drop_first();
        lemma_insert_index(rest, price);
        assert forall|i: int| 0 <= i < insert_index(queue, price) implies !worse(
            D::SIDE,
            (#[trigger] queue[i]).price_limit,
            price,
        ) by {
            if i > 0 {
                assert(queue[i] == rest[i - 1]);
            }
        }
        assert(insert_index(queue, price) < queue.len() ==> queue[insert_index(queue, price)]
            == rest[insert_index(rest, price)]);
    }
}

/// A position with no strictly worse price before it and a strictly worse
/// price at it is `insert_index`.
pub proof fn lemma_insert_index_unique<D: Direction>(queue: Seq<Order<D>>, price: u64, k: int)
    requires
        0 <= k <= queue.len(),
        forall|i: int| 0 <= i < k ==> !worse(D::SIDE, (#[trigger] queue[i]).price_limit, price),
        k < queue.len() ==> worse(D::SIDE, queue[k].price_limit, price),
    ensures
        insert_index(queue, price) == k,
{
    lemma_insert_index(queue, price);
    let found = insert_index(queue, price);
    if found < k {
        assert(!worse(D::SIDE, queue[found].price_limit, price));
    } else if k < found {
        assert(!worse(D::SIDE, queue[k].price_limit, price));
    }
}

/// Inserting keeps the best price first.
pub proof fn lemma_inserted_ordered<D: Direction>(queue: Seq<Order<D>>, order: Order<D>)
    requires
        ordered(queue),
    ensures
        ordered(inserted(queue, order)),
{
    let k = insert_index(queue, order.price_limit);
    let after = inserted(queue, order);
    lemma_insert_index(queue, order.price_limit);
    assert forall|i: int, j: int| 0 <= i < j < after.len() implies !worse(
        D::SIDE,
        after[i].price_limit,
        after[j].price_limit,
    ) by {
        if j == k {
            assert(after[i] == queue[i]);
        } else if i == k {
            assert(after[j] == queue[j - 1]);
            if k < j - 1 {
                assert(!worse(D::SIDE, queue[k].price_limit, queue[j - 1].price_limit));
            }
        } else {
            let a = if i < k { i } else { i - 1 };
            let b = if j < k { j } else { j - 1 };
            assert(after[i] == queue[a]);
            assert(after[j] == queue[b]);
        }
    }
}

/// Inserting an order that has something to trade keeps every size positive.
pub proof fn lemma_inserted_positive<D: Direction>(queue: Seq<Order<D>>, order: Order<D>)
    requires
        positive(queue),
        order.size > 0,
    ensures
        positive(inserted(queue, order)),
{
    let k = insert_index(queue, order.price_limit);
    let after = inserted(queue, order);
    lemma_insert_index(queue, order.price_limit);
    assert forall|i: int| 0 <= i < after.len() implies (#[trigger] after[i]).size > 0 by {
        if i < k {
            assert(after[i] == queue[i]);
        } else if i > k {
            assert(after[i] == queue[i - 1]);
        }
    }
}

/// Whether, with `arrival[i]` the time at which `queue[i]` came to rest, no
/// order arrived later than an order of the same price behind it.
pub open spec fn first_come_first<D>(queue: Seq<Order<D>>, arrival: Seq<nat>) -> bool {
    &&& arrival.len() == queue.len()
    &&& forall|i: int, j: int|
        #![trigger queue[i], queue[j]]
        0 <= i < j < queue.len() && queue[i].price_limit == queue[j].price_limit ==> arrival[i]
            <= arrival[j]
}

/// Whether none of the times in `arrival` is after `now`.
pub open spec fn not_after(arrival: Seq<nat>, now: nat) -> bool {
    forall|i: int| 0 <= i < arrival.len() ==> #[trigger] arrival[i] <= now
}

/// An order that comes to rest no earlier than the others arrived is put
/// behind those of its price: the queue stays in order of arrival.
pub proof fn lemma_inserted_first_come_first<D: Direction>(
    queue: Seq<Order<D>>,
    arrival: Seq<nat>,
    order: Order<D>,
    now: nat,
)
    requires
        ordered(queue),
        first_come_first(queue, arrival),
        not_after(arrival, now),
    ensures
        first_come_first(
            inserted(queue, order),
            arrival.insert(insert_index(queue, order.price_limit), now),
        ),
        not_after(arrival.insert(insert_index(queue, order.price_limit), now), now),
{
    let k = insert_index(queue, order.price_limit);
    let after = inserted(queue, order);
    let times = arrival.insert(k, now);
    lemma_insert_index(queue, order.price_limit);
    assert forall|i: int, j: int|
        #![trigger after[i], after[j]]
        0 <= i < j < after.len() && after[i].price_limit == after[j].price_limit implies times[i]
        <= times[j] by {
        if j == k {
            assert(times[i] == arrival[i]);
        } else if i == k {
            assert(after[j] == queue[j - 1]);
            if k < j - 1 {
                assert(!worse(D::SIDE, queue[k].price_limit, queue[j - 1].price_limit));
            }
        } else {
            let a = if i < k { i } else { i - 1 };
            let b = if j < k { j } else { j - 1 };
            assert(after[i] == queue[a]);
            assert(after[j] == queue[b]);
            assert(times[i] == arrival[a]);
            assert(times[j] == arrival[b]);
        }
    }
    assert forall|i: int| 0 <= i < times.len() implies #[trigger] times[i] <= now by {
        if i < k {
            assert(times[i] == arrival[i]);
        } else if i > k {
            assert(times[i] == arrival[i - 1]);
        }
    }
}

} // verus!
