//! What matching an incoming order against the resting orders of the other side
//! comes to.
//!
//! The resting orders are taken best price first. One that the incoming order's
//! price does not reach ends the matching, and so does the trade that fills the
//! incoming order. A resting order of the incoming order's own user is passed
//! over and stays; any other trades as much as both sides have.

use crate::log::LogItem;
use crate::order::{Direction, Order};
use crate::priority::{first_come_first, not_after, ordered, positive, worse};
use vstd::prelude::*;

verus! {

/// What `taker` and the resting order `maker` trade with each other.
pub open spec fn trade<D: Direction>(maker: Order<D>, taker: Order<D::Other>) -> LogItem {
    LogItem::Fulfilled {
        size: if taker.size <= maker.size {
            taker.size
        } else {
            maker.size
        },
        price: maker.price_limit,
        user_id: maker.user_id,
    }
}

/// The trades of `taker` with the resting orders in `queue`, in the order in
/// which they happen.
pub open spec fn fills<D: Direction>(queue: Seq<Order<D>>, taker: Order<D::Other>) -> Seq<LogItem>
    decreases queue.len(),
{
    if queue.len() == 0 || !queue[0].accepts(taker.price_limit) {
        Seq::empty()
    } else if queue[0].user_id == taker.user_id {
        fills(queue.drop_first(), taker)
    } else if taker.size <= queue[0].size {
        seq![trade(queue[0], taker)]
    } else {
        seq![trade(queue[0], taker)] + fills(
            queue.drop_first(),
            taker.with_size((taker.size - queue[0].size) as u64),
        )
    }
}

/// What is left of `taker` after its trades with the resting orders in `queue`.
pub open spec fn left_over<D: Direction>(queue: Seq<Order<D>>, taker: Order<D::Other>) -> u64
    decreases queue.len(),
{
    if queue.len() == 0 || !queue[0].accepts(taker.price_limit) {
        taker.size
    } else if queue[0].user_id == taker.user_id {
        left_over(queue.drop_first(), taker)
    } else if taker.size <= queue[0].size {
        0
    } else {
        left_over(queue.drop_first(), taker.with_size((taker.size - queue[0].size) as u64))
    }
}

/// The resting orders of `taker`'s own user that the matching passes over, in
/// their order in `queue`.
pub open spec fn passed_over<D: Direction>(queue: Seq<Order<D>>, taker: Order<D::Other>) -> Seq<
    Order<D>,
>
    decreases queue.len(),
{
    if queue.len() == 0 || !queue[0].accepts(taker.price_limit) {
        Seq::empty()
    } else if queue[0].user_id == taker.user_id {
        seq![queue[0]] + passed_over(queue.drop_first(), taker)
    } else if taker.size <= queue[0].size {
        Seq::empty()
    } else {
        passed_over(queue.drop_first(), taker.with_size((taker.size - queue[0].size) as u64))
    }
}

/// The queue after the trades of `taker`: the orders that were passed over stay
/// in front, an order that traded in full is gone, the one that traded in part
/// has less to trade, and what the matching did not come to is untouched.
pub open spec fn survivors<D: Direction>(queue: Seq<Order<D>>, taker: Order<D::Other>) -> Seq<
    Order<D>,
>
    decreases queue.len(),
{
    if queue.len() == 0 || !queue[0].accepts(taker.price_limit) {
        queue
    } else if queue[0].user_id == taker.user_id {
        seq![queue[0]] + survivors(queue.drop_first(), taker)
    } else if taker.size == queue[0].size {
        queue.drop_first()
    } else if taker.size < queue[0].size {
        queue.update(0, queue[0].with_size((queue[0].size - taker.size) as u64))
    } else {
        survivors(queue.drop_first(), taker.with_size((taker.size - queue[0].size) as u64))
    }
}

/// Whether `taker`, an order of `kind`, is withdrawn with nothing traded: a
/// fill-or-kill order that the resting orders cannot fill.
pub open spec fn killed<D: Direction>(
    queue: Seq<Order<D>>,
    taker: Order<D::Other>,
    kind: crate::order::OrderKind,
) -> bool {
    kind == crate::order::OrderKind::FillOrKill && left_over(queue, taker) != 0
}

/// The places in `queue` of the orders that stay after the trades of `taker`,
/// in the order in which they stay.
pub open spec fn staying<D: Direction>(queue: Seq<Order<D>>, taker: Order<D::Other>) -> Seq<int>
    decreases queue.len(),
{
    if queue.len() == 0 || !queue[0].accepts(taker.price_limit) {
        Seq::new(queue.len(), |i: int| i)
    } else if queue[0].user_id == taker.user_id {
        seq![0int] + staying(queue.drop_first(), taker).map_values(|i: int| i + 1)
    } else if taker.size == queue[0].size {
        Seq::new((queue.len() - 1) as nat, |i: int| i + 1)
    } else if taker.size < queue[0].size {
        Seq::new(queue.len(), |i: int| i)
    } else {
        staying(
            queue.drop_first(),
            taker.with_size((taker.size - queue[0].size) as u64),
        ).map_values(|i: int| i + 1)
    }
}

/// The sizes of the orders in `queue`, added up.
pub open spec fn total_size<D>(queue: Seq<Order<D>>) -> nat
    decreases queue.len(),
{
    if queue.len() == 0 {
        0
    } else {
        queue[0].size as nat + total_size(queue.drop_first())
    }
}

/// The sizes of the trades among `items`, added up.
pub open spec fn traded(items: Seq<LogItem>) -> nat
    decreases items.len(),
{
    if items.len() == 0 {
        0
    } else {
        (match items[0] {
            LogItem::Fulfilled { size, .. } => size as nat,
            _ => 0,
        }) + traded(items.drop_first())
    }
}

/// The orders that stay are orders of the queue, in the order that they had
/// there: each has the price and the user of the order at its old place, and no
/// more to trade than that order had.
pub proof fn lemma_staying<D: Direction>(queue: Seq<Order<D>>, taker: Order<D::Other>)
    ensures
        staying(queue, taker).len() == survivors(queue, taker).len(),
        forall|k: int|
            0 <= k < staying(queue, taker).len() ==> 0 <= #[trigger] staying(queue, taker)[k]
                < queue.len(),
        forall|k: int, l: int|
            0 <= k < l < staying(queue, taker).len() ==> #[trigger] staying(queue, taker)[k]
                < #[trigger] staying(queue, taker)[l],
        forall|k: int|
            #![trigger survivors(queue, taker)[k]]
            0 <= k < survivors(queue, taker).len() ==> {
                let now = survivors(queue, taker)[k];
                let was = queue[staying(queue, taker)[k]];
                &&& now.price_limit == was.price_limit
                &&& now.user_id == was.user_id
                &&& now.size <= was.size
                &&& was.size > 0 ==> now.size > 0
            },
    decreases queue.len(),
{
    let places = staying(queue, taker);
    let stay = survivors(queue, taker);
    if queue.len() == 0 || !queue[0].accepts(taker.price_limit) {
    } else {
        let rest = queue.drop_first();
        if queue[0].user_id == taker.user_id {
            lemma_staying(rest, taker);
            let inner = staying(rest, taker);
            let inner_stay = survivors(rest, taker);
            assert forall|k: int| 0 <= k < places.len() implies 0 <= #[trigger] places[k]
                < queue.len() by {
                if k > 0 {
                    assert(places[k] == inner[k - 1] + 1);
                }
            }
            assert forall|k: int, l: int| 0 <= k < l < places.len() implies #[trigger] places[k]
                < #[trigger] places[l] by {
                assert(places[l] == inner[l - 1] + 1);
                if k > 0 {
                    assert(places[k] == inner[k - 1] + 1);
                }
            }
            assert forall|k: int| 0 <= k < stay.len() implies ({
                let now = #[trigger] stay[k];
                let was = queue[places[k]];
                &&& now.price_limit == was.price_limit
                &&& now.user_id == was.user_id
                &&& now.size <= was.size
                &&& was.size > 0 ==> now.size > 0
            }) by {
                if k > 0 {
                    assert(places[k] == inner[k - 1] + 1);
                    assert(stay[k] == inner_stay[k - 1]);
                    assert(queue[places[k]] == rest[inner[k - 1]]);
                }
            }
        } else if taker.size == queue[0].size {
        } else if taker.size < queue[0].size {
        } else {
            let less = taker.with_size((taker.size - queue[0].size) as u64);
            lemma_staying(rest, less);
            let inner = staying(rest, less);
            assert forall|k: int| 0 <= k < stay.len() implies ({
                let now = #[trigger] stay[k];
                let was = queue[places[k]];
                &&& now.price_limit == was.price_limit
                &&& now.user_id == was.user_id
                &&& now.size <= was.size
                &&& was.size > 0 ==> now.size > 0
            }) by {
                assert(places[k] == inner[k] + 1);
                assert(queue[places[k]] == rest[inner[k]]);
            }
        }
    }
}

/// Matching keeps the best price first.
pub proof fn lemma_survivors_ordered<D: Direction>(queue: Seq<Order<D>>, taker: Order<D::Other>)
    requires
        ordered(queue),
    ensures
        ordered(survivors(queue, taker)),
{
    let stay = survivors(queue, taker);
    let places = staying(queue, taker);
    lemma_staying(queue, taker);
    assert forall|i: int, j: int| 0 <= i < j < stay.len() implies !worse(
        D::SIDE,
        stay[i].price_limit,
        stay[j].price_limit,
    ) by {
        assert(places[i] < places[j]);
        assert(!worse(D::SIDE, queue[places[i]].price_limit, queue[places[j]].price_limit));
    }
}

/// Matching leaves no order with nothing to trade.
pub proof fn lemma_survivors_positive<D: Direction>(queue: Seq<Order<D>>, taker: Order<D::Other>)
    requires
        positive(queue),
    ensures
        positive(survivors(queue, taker)),
{
    let stay = survivors(queue, taker);
    let places = staying(queue, taker);
    lemma_staying(queue, taker);
    assert forall|i: int| 0 <= i < stay.len() implies (#[trigger] stay[i]).size > 0 by {
        assert(queue[places[i]].size > 0);
    }
}

/// The total of a queue is the size of its first order and the total of the
/// rest.
pub proof fn lemma_total_size_front<D>(first: Order<D>, rest: Seq<Order<D>>)
    ensures
        total_size(seq![first] + rest) == first.size + total_size(rest),
{
    let all = seq![first] + rest;
    assert(all.len() > 0);
    assert(all[0] == first);
    assert(all.drop_first() =~= rest);
}

/// A trade in front of `rest` adds its size to what `rest` trades.
pub proof fn lemma_traded_front(size: u64, price: u64, user_id: u64, rest: Seq<LogItem>)
    ensures
        traded(seq![LogItem::Fulfilled { size, price, user_id }] + rest) == size + traded(rest),
{
    let all = seq![LogItem::Fulfilled { size, price, user_id }] + rest;
    assert(all.len() > 0);
    assert(all[0] == LogItem::Fulfilled { size, price, user_id });
    assert(all.drop_first() =~= rest);
}

/// What is traded is taken from the incoming order and from the queue alike:
/// the trades and what is left of the incoming order add up to its size, and the
/// trades and what stays in the queue add up to what the queue held.
pub proof fn lemma_conservation<D: Direction>(queue: Seq<Order<D>>, taker: Order<D::Other>)
    ensures
        traded(fills(queue, taker)) + left_over(queue, taker) == taker.size,
        traded(fills(queue, taker)) + total_size(survivors(queue, taker)) == total_size(queue),
    decreases queue.len(),
{
    let none = Seq::<LogItem>::empty();
    assert(traded(none) == 0);
    if queue.len() == 0 || !queue[0].accepts(taker.price_limit) {
        assert(fills(queue, taker) == none);
    } else {
        let rest = queue.drop_first();
        let size = if taker.size <= queue[0].size {
            taker.size
        } else {
            queue[0].size
        };
        assert(total_size(queue) == queue[0].size + total_size(rest));
        if queue[0].user_id == taker.user_id {
            lemma_conservation(rest, taker);
            lemma_total_size_front(queue[0], survivors(rest, taker));
        } else if taker.size <= queue[0].size {
            lemma_traded_front(size, queue[0].price_limit, queue[0].user_id, none);
            assert(seq![trade(queue[0], taker)] + none =~= seq![trade(queue[0], taker)]);
            assert(traded(fills(queue, taker)) == taker.size);
            if taker.size < queue[0].size {
                let less = queue[0].with_size((queue[0].size - taker.size) as u64);
                lemma_total_size_front(less, rest);
                assert(queue.update(0, less) =~= seq![less] + rest);
            }
        } else {
            let less = taker.with_size((taker.size - queue[0].size) as u64);
            lemma_conservation(rest, less);
            lemma_traded_front(size, queue[0].price_limit, queue[0].user_id, fills(rest, less));
        }
    }
}

/// No trade is with an order of the incoming order's own user.
pub proof fn lemma_no_self_trade<D: Direction>(queue: Seq<Order<D>>, taker: Order<D::Other>)
    ensures
        forall|i: int|
            0 <= i < fills(queue, taker).len() ==> {
                &&& #[trigger] fills(queue, taker)[i] is Fulfilled
                &&& fills(queue, taker)[i]->Fulfilled_user_id != taker.user_id
            },
    decreases queue.len(),
{
    if queue.len() == 0 || !queue[0].accepts(taker.price_limit) {
    } else {
        let rest = queue.drop_first();
        if queue[0].user_id == taker.user_id {
            lemma_no_self_trade(rest, taker);
        } else if taker.size <= queue[0].size {
        } else {
            let less = taker.with_size((taker.size - queue[0].size) as u64);
            lemma_no_self_trade(rest, less);
            assert forall|i: int| 0 <= i < fills(queue, taker).len() implies {
                &&& #[trigger] fills(queue, taker)[i] is Fulfilled
                &&& fills(queue, taker)[i]->Fulfilled_user_id != taker.user_id
            } by {
                if i > 0 {
                    assert(fills(queue, taker)[i] == fills(rest, less)[i - 1]);
                }
            }
        }
    }
}

/// Where nothing is traded, the queue stays as it is.
pub proof fn lemma_no_trade_no_change<D: Direction>(queue: Seq<Order<D>>, taker: Order<D::Other>)
    requires
        fills(queue, taker).len() == 0,
    ensures
        survivors(queue, taker) == queue,
        left_over(queue, taker) == taker.size,
    decreases queue.len(),
{
    if queue.len() == 0 || !queue[0].accepts(taker.price_limit) {
    } else if queue[0].user_id == taker.user_id {
        lemma_no_trade_no_change(queue.drop_first(), taker);
        assert(seq![queue[0]] + queue.drop_first() =~= queue);
    } else {
    }
}

/// Where every resting order that the incoming order's price reaches is of its
/// own user, nothing is traded.
pub proof fn lemma_only_own_no_trade<D: Direction>(queue: Seq<Order<D>>, taker: Order<D::Other>)
    requires
        forall|i: int|
            0 <= i < queue.len() && (#[trigger] queue[i]).accepts(taker.price_limit)
                ==> queue[i].user_id == taker.user_id,
    ensures
        fills(queue, taker).len() == 0,
    decreases queue.len(),
{
    if queue.len() == 0 || !queue[0].accepts(taker.price_limit) {
    } else {
        let rest = queue.drop_first();
        assert(queue[0].user_id == taker.user_id);
        assert forall|i: int| 0 <= i < rest.len() && (#[trigger] rest[i]).accepts(
            taker.price_limit,
        ) implies rest[i].user_id == taker.user_id by {
            assert(rest[i] == queue[i + 1]);
        }
        lemma_only_own_no_trade(rest, taker);
    }
}

/// In a queue with the best price first, an order that the incoming order's
/// price does not reach has none behind it that the price reaches.
pub proof fn lemma_out_of_reach<D: Direction>(queue: Seq<Order<D>>, price: u64)
    requires
        ordered(queue),
        queue.len() > 0,
        !queue[0].accepts(price),
    ensures
        forall|i: int| 0 <= i < queue.len() ==> !(#[trigger] queue[i]).accepts(price),
{
    assert forall|i: int| 0 <= i < queue.len() implies !(#[trigger] queue[i]).accepts(price) by {
        if i > 0 {
            assert(!worse(D::SIDE, queue[0].price_limit, queue[i].price_limit));
        }
    }
}

/// Where something is left of the incoming order, every order that stays within
/// reach of its price is one of its own user that was passed over.
pub proof fn lemma_left_over_reaches_own<D: Direction>(
    queue: Seq<Order<D>>,
    taker: Order<D::Other>,
)
    requires
        ordered(queue),
        left_over(queue, taker) > 0,
    ensures
        forall|k: int|
            0 <= k < survivors(queue, taker).len() && (#[trigger] survivors(
                queue,
                taker,
            )[k]).accepts(taker.price_limit) ==> {
                &&& survivors(queue, taker)[k].user_id == taker.user_id
                &&& passed_over(queue, taker).len() > 0
            },
    decreases queue.len(),
{
    let stay = survivors(queue, taker);
    if queue.len() == 0 {
    } else if !queue[0].accepts(taker.price_limit) {
        lemma_out_of_reach(queue, taker.price_limit);
    } else {
        let rest = queue.drop_first();
        assert forall|i: int, j: int| 0 <= i < j < rest.len() implies !worse(
            D::SIDE,
            rest[i].price_limit,
            rest[j].price_limit,
        ) by {
            assert(rest[i] == queue[i + 1]);
            assert(rest[j] == queue[j + 1]);
        }
        if queue[0].user_id == taker.user_id {
            lemma_left_over_reaches_own(rest, taker);
            assert forall|k: int| 0 <= k < stay.len() && (#[trigger] stay[k]).accepts(
                taker.price_limit,
            ) implies stay[k].user_id == taker.user_id && passed_over(queue, taker).len()
                > 0 by {
                if k > 0 {
                    assert(stay[k] == survivors(rest, taker)[k - 1]);
                }
            }
        } else if taker.size <= queue[0].size {
        } else {
            let less = taker.with_size((taker.size - queue[0].size) as u64);
            lemma_left_over_reaches_own(rest, less);
        }
    }
}

/// An order that was passed over stays in front, within reach of the incoming
/// order's price.
pub proof fn lemma_passed_over_stays<D: Direction>(queue: Seq<Order<D>>, taker: Order<D::Other>)
    requires
        passed_over(queue, taker).len() > 0,
    ensures
        survivors(queue, taker).len() > 0,
        survivors(queue, taker)[0].accepts(taker.price_limit),
        survivors(queue, taker)[0].user_id == taker.user_id,
    decreases queue.len(),
{
    if queue.len() == 0 || !queue[0].accepts(taker.price_limit) {
    } else if queue[0].user_id == taker.user_id {
    } else if taker.size <= queue[0].size {
    } else {
        let less = taker.with_size((taker.size - queue[0].size) as u64);
        lemma_passed_over_stays(queue.drop_first(), less);
    }
}

/// The times of arrival of the orders that stay after the trades of `taker`,
/// where `arrival` holds those of the orders in `queue`.
pub open spec fn arrival_of_staying<D: Direction>(
    queue: Seq<Order<D>>,
    arrival: Seq<nat>,
    taker: Order<D::Other>,
) -> Seq<nat> {
    staying(queue, taker).map_values(|i: int| arrival[i])
}

/// The orders that stay after the matching stay in order of arrival.
pub proof fn lemma_survivors_first_come_first<D: Direction>(
    queue: Seq<Order<D>>,
    arrival: Seq<nat>,
    taker: Order<D::Other>,
    now: nat,
)
    requires
        first_come_first(queue, arrival),
        not_after(arrival, now),
    ensures
        first_come_first(survivors(queue, taker), arrival_of_staying(queue, arrival, taker)),
        not_after(arrival_of_staying(queue, arrival, taker), now),
{
    let stay = survivors(queue, taker);
    let places = staying(queue, taker);
    let times = arrival_of_staying(queue, arrival, taker);
    lemma_staying(queue, taker);
    assert forall|i: int, j: int|
        #![trigger stay[i], stay[j]]
        0 <= i < j < stay.len() && stay[i].price_limit == stay[j].price_limit implies times[i]
        <= times[j] by {
        assert(places[i] < places[j]);
        assert(queue[places[i]].price_limit == queue[places[j]].price_limit);
    }
    assert forall|i: int| 0 <= i < times.len() implies #[trigger] times[i] <= now by {
        assert(0 <= places[i] < queue.len());
    }
}

} // verus!
