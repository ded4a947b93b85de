//! What holds of every execution.

use crate::log::{lemma_vector_logger_keeps, LogItem, VectorLogger};
use crate::matching::{
    arrival_of_staying, killed, left_over, lemma_conservation, lemma_left_over_reaches_own,
    lemma_no_self_trade, lemma_no_trade_no_change, lemma_only_own_no_trade,
    lemma_passed_over_stays, lemma_staying, lemma_survivors_first_come_first,
    lemma_survivors_ordered, lemma_survivors_positive, passed_over, staying, survivors,
    total_size, traded,
};
use crate::order::{lemma_sides, Buy, Direction, IncomingOrder, Order, OrderKind, OrderSide, Sell};
use crate::priority::{
    first_come_first, insert_index, inserted, lemma_insert_index, lemma_insert_index_unique,
    lemma_inserted_first_come_first, lemma_inserted_ordered, lemma_inserted_positive, not_after,
    ordered, positive, worse,
};
use crate::BookView;
use vstd::prelude::*;

verus! {

/// Whether every order in `makers` that could trade with an order in `others`,
/// a queue of the other side, is of the same user as that order.
pub open spec fn reach_only_own<M: Direction, T>(
    makers: Seq<Order<M>>,
    others: Seq<Order<T>>,
) -> bool {
    forall|i: int, j: int|
        #![trigger makers[i], others[j]]
        0 <= i < makers.len() && 0 <= j < others.len() && makers[i].accepts(others[j].price_limit)
            ==> makers[i].user_id == others[j].user_id
}

/// The queue that `taker` was matched against, after the execution.
pub open spec fn makers_after<M: Direction>(
    makers: Seq<Order<M>>,
    taker: Order<M::Other>,
    kind: OrderKind,
) -> Seq<Order<M>> {
    if killed(makers, taker, kind) {
        makers
    } else {
        survivors(makers, taker)
    }
}

/// The queue of `taker`'s own side after the execution.
pub open spec fn own_after<M: Direction<Other = T>, T: Direction>(
    makers: Seq<Order<M>>,
    own: Seq<Order<T>>,
    taker: Order<T>,
    kind: OrderKind,
) -> Seq<Order<T>> {
    if kind == OrderKind::Limit && left_over(makers, taker) > 0 {
        inserted(own, taker.with_size(left_over(makers, taker)))
    } else {
        own
    }
}

/// An execution keeps both queues in order and every size positive, and leaves
/// no order within reach of an order of another user.
pub proof fn lemma_execution_keeps_queues<M: Direction<Other = T>, T: Direction>(
    makers: Seq<Order<M>>,
    own: Seq<Order<T>>,
    taker: Order<T>,
    kind: OrderKind,
)
    requires
        ordered(makers),
        ordered(own),
        positive(makers),
        positive(own),
        reach_only_own(makers, own),
    ensures
        ordered(makers_after(makers, taker, kind)),
        ordered(own_after(makers, own, taker, kind)),
        positive(makers_after(makers, taker, kind)),
        positive(own_after(makers, own, taker, kind)),
        reach_only_own(makers_after(makers, taker, kind), own_after(makers, own, taker, kind)),
{
    let left = taker.with_size(left_over(makers, taker));
    let makers_now = makers_after(makers, taker, kind);
    let own_now = own_after(makers, own, taker, kind);
    lemma_survivors_ordered(makers, taker);
    lemma_survivors_positive(makers, taker);
    lemma_staying(makers, taker);
    if kind == OrderKind::Limit && left_over(makers, taker) > 0 {
        lemma_inserted_ordered(own, left);
        lemma_inserted_positive(own, left);
        lemma_insert_index(own, left.price_limit);
        lemma_left_over_reaches_own(makers, taker);
    }
    assert forall|i: int, j: int|
        0 <= i < makers_now.len() && 0 <= j < own_now.len() && (#[trigger] makers_now[i]).accepts(
            (#[trigger] own_now[j]).price_limit,
        ) implies makers_now[i].user_id == own_now[j].user_id by {
        let was = if killed(makers, taker, kind) {
            i
        } else {
            staying(makers, taker)[i]
        };
        assert(makers[was].price_limit == makers_now[i].price_limit);
        assert(makers[was].user_id == makers_now[i].user_id);
        if kind == OrderKind::Limit && left_over(makers, taker) > 0 {
            let k = insert_index(own, left.price_limit);
            if j < k {
                assert(own_now[j] == own[j]);
                assert(makers[was].accepts(own[j].price_limit));
            } else if j > k {
                assert(own_now[j] == own[j - 1]);
                assert(makers[was].accepts(own[j - 1].price_limit));
            }
        } else {
            assert(makers[was].accepts(own[j].price_limit));
        }
    }
}

/// What holds of a book between executions holds after every execution: on
/// each side no order has a better price than one in front of it, every resting
/// order has something to trade, and a bid and an ask that could trade with
/// each other are of one user.
pub proof fn lemma_execution_keeps_book(book: BookView, order: IncomingOrder)
    requires
        book.wf(),
    ensures
        book.after(order).wf(),
{
    lemma_sides();
    let after = book.after(order);
    match order.side {
        OrderSide::Buy => {
            let taker = order.on_side::<Buy>();
            assert(reach_only_own(book.ask, book.bid));
            lemma_execution_keeps_queues(book.ask, book.bid, taker, order.kind);
            assert(after.ask == makers_after(book.ask, taker, order.kind));
            assert(after.bid == own_after(book.ask, book.bid, taker, order.kind));
            assert forall|i: int, j: int|
                #![trigger after.bid[i], after.ask[j]]
                0 <= i < after.bid.len() && 0 <= j < after.ask.len() && after.bid[i].price_limit
                    >= after.ask[j].price_limit implies after.bid[i].user_id
                == after.ask[j].user_id by {
                assert(after.ask[j].accepts(after.bid[i].price_limit));
            }
        },
        OrderSide::Sell => {
            let taker = order.on_side::<Sell>();
            assert(reach_only_own(book.bid, book.ask));
            lemma_execution_keeps_queues(book.bid, book.ask, taker, order.kind);
            assert(after.bid == makers_after(book.bid, taker, order.kind));
            assert(after.ask == own_after(book.bid, book.ask, taker, order.kind));
            assert forall|i: int, j: int|
                #![trigger after.bid[i], after.ask[j]]
                0 <= i < after.bid.len() && 0 <= j < after.ask.len() && after.bid[i].price_limit
                    >= after.ask[j].price_limit implies after.bid[i].user_id
                == after.ask[j].user_id by {
                assert(after.bid[i].accepts(after.ask[j].price_limit));
            }
        },
    }
}

/// Bids rest with the highest price first: of two bids next to each other, the
/// one in front has the price that is no lower.
pub proof fn lemma_bid_ordering(book: BookView, order: IncomingOrder)
    requires
        book.wf(),
    ensures
        forall|i: int, j: int|
            #![trigger book.after(order).bid[i], book.after(order).bid[j]]
            0 <= i && j == i + 1 && j < book.after(order).bid.len() ==> book.after(
                order,
            ).bid[i].price_limit >= book.after(order).bid[j].price_limit,
{
    lemma_sides();
    lemma_execution_keeps_book(book, order);
    let bid = book.after(order).bid;
    assert(ordered(bid));
    assert forall|i: int, j: int|
        #![trigger bid[i], bid[j]]
        0 <= i && j == i + 1 && j < bid.len() implies bid[i].price_limit
        >= bid[j].price_limit by {
        assert(!worse(OrderSide::Buy, bid[i].price_limit, bid[j].price_limit));
    }
}

/// Asks rest with the lowest price first: of two asks next to each other, the
/// one in front has the price that is no higher.
pub proof fn lemma_ask_ordering(book: BookView, order: IncomingOrder)
    requires
        book.wf(),
    ensures
        forall|i: int, j: int|
            #![trigger book.after(order).ask[i], book.after(order).ask[j]]
            0 <= i && j == i + 1 && j < book.after(order).ask.len() ==> book.after(
                order,
            ).ask[i].price_limit <= book.after(order).ask[j].price_limit,
{
    lemma_sides();
    lemma_execution_keeps_book(book, order);
    let ask = book.after(order).ask;
    assert(ordered(ask));
    assert forall|i: int, j: int|
        #![trigger ask[i], ask[j]]
        0 <= i && j == i + 1 && j < ask.len() implies ask[i].price_limit
        <= ask[j].price_limit by {
        assert(!worse(OrderSide::Sell, ask[i].price_limit, ask[j].price_limit));
    }
}

/// Whether the best order in `makers` is out of reach of the best order in
/// `own`, a queue of the other side, where there are both.
pub open spec fn best_apart<M: Direction, T>(makers: Seq<Order<M>>, own: Seq<Order<T>>) -> bool {
    makers.len() > 0 && own.len() > 0 ==> !makers[0].accepts(own[0].price_limit)
}

/// Where what is left of the incoming order comes to rest while orders of its
/// own user that it passed over stay on the other side, the best prices of the
/// two sides are within reach of each other.
proof fn lemma_rests_behind_own<M: Direction<Other = T>, T: Direction>(
    makers: Seq<Order<M>>,
    own: Seq<Order<T>>,
    taker: Order<T>,
)
    requires
        M::SIDE != T::SIDE,
        left_over(makers, taker) > 0,
        passed_over(makers, taker).len() > 0,
    ensures
        !best_apart(
            survivors(makers, taker),
            inserted(own, taker.with_size(left_over(makers, taker))),
        ),
{
    let left = taker.with_size(left_over(makers, taker));
    let makers_now = survivors(makers, taker);
    let own_now = inserted(own, left);
    let k = insert_index(own, left.price_limit);
    lemma_insert_index(own, left.price_limit);
    lemma_passed_over_stays(makers, taker);
    assert(own_now.len() > 0);
    if k > 0 {
        assert(own_now[0] == own[0]);
        assert(!worse(T::SIDE, own[0].price_limit, taker.price_limit));
    } else {
        assert(own_now[0] == left);
    }
    assert(makers_now[0].accepts(own_now[0].price_limit));
}

/// An order that stays after the matching is out of reach of every price that
/// the best order of the queue was out of reach of.
proof fn lemma_survivors_out_of_reach<M: Direction>(
    makers: Seq<Order<M>>,
    taker: Order<M::Other>,
    price: u64,
)
    requires
        ordered(makers),
        makers.len() > 0,
        !makers[0].accepts(price),
    ensures
        forall|i: int|
            0 <= i < survivors(makers, taker).len() ==> !(#[trigger] survivors(
                makers,
                taker,
            )[i]).accepts(price),
{
    let stay = survivors(makers, taker);
    lemma_staying(makers, taker);
    crate::matching::lemma_out_of_reach(makers, price);
    assert forall|i: int| 0 <= i < stay.len() implies !(#[trigger] stay[i]).accepts(price) by {
        let was = staying(makers, taker)[i];
        assert(!makers[was].accepts(price));
        assert(stay[i].price_limit == makers[was].price_limit);
    }
}

/// Where the best prices of the two sides were apart before an execution, they
/// are apart after it unless what is left of the incoming order comes to rest
/// while orders of its own user that it passed over stay on the other side.
pub proof fn lemma_best_stay_apart<M: Direction<Other = T>, T: Direction>(
    makers: Seq<Order<M>>,
    own: Seq<Order<T>>,
    taker: Order<T>,
    kind: OrderKind,
)
    requires
        ordered(makers),
        ordered(own),
        M::SIDE != T::SIDE,
        best_apart(makers, own),
    ensures
        best_apart(makers_after(makers, taker, kind), own_after(makers, own, taker, kind)) <==> !(
        kind == OrderKind::Limit && left_over(makers, taker) > 0 && passed_over(
            makers,
            taker,
        ).len() > 0),
{
    let left = taker.with_size(left_over(makers, taker));
    let makers_now = makers_after(makers, taker, kind);
    let own_now = own_after(makers, own, taker, kind);
    let rests = kind == OrderKind::Limit && left_over(makers, taker) > 0;
    if rests && passed_over(makers, taker).len() > 0 {
        lemma_rests_behind_own(makers, own, taker);
    } else if makers_now.len() > 0 && own_now.len() > 0 {
        if killed(makers, taker, kind) {
            assert(own_now == own);
        } else if rests {
            let k = insert_index(own, left.price_limit);
            lemma_insert_index(own, left.price_limit);
            if k == 0 {
                lemma_left_over_reaches_own(makers, taker);
                assert(own_now[0] == left);
                assert(!makers_now[0].accepts(taker.price_limit));
            } else {
                assert(own_now[0] == own[0]);
                assert(makers.len() > 0) by {
                    lemma_staying(makers, taker);
                }
                lemma_survivors_out_of_reach(makers, taker, own[0].price_limit);
            }
        } else {
            assert(own_now == own);
            assert(makers.len() > 0) by {
                lemma_staying(makers, taker);
            }
            lemma_survivors_out_of_reach(makers, taker, own[0].price_limit);
        }
    }
}

/// Where the best bid was below the best ask before an execution, it is below
/// it afterwards too, unless what is left of the order comes to rest while
/// orders of its own user that it passed over stay on the other side: then, and
/// only then, the book is left crossed.
pub proof fn lemma_non_crossing(book: BookView, order: IncomingOrder)
    requires
        book.wf(),
        book.non_crossing(),
    ensures
        book.after(order).non_crossing() <==> !(book.rests(order) && book.skips(order) > 0),
{
    lemma_sides();
    let after = book.after(order);
    match order.side {
        OrderSide::Buy => {
            let taker = order.on_side::<Buy>();
            lemma_best_stay_apart(book.ask, book.bid, taker, order.kind);
            assert(after.ask == makers_after(book.ask, taker, order.kind));
            assert(after.bid == own_after(book.ask, book.bid, taker, order.kind));
        },
        OrderSide::Sell => {
            let taker = order.on_side::<Sell>();
            lemma_best_stay_apart(book.bid, book.ask, taker, order.kind);
            assert(after.bid == makers_after(book.bid, taker, order.kind));
            assert(after.ask == own_after(book.bid, book.ask, taker, order.kind));
        },
    }
}

/// Every resting order has something to trade after an execution.
pub proof fn lemma_positive_size(book: BookView, order: IncomingOrder)
    requires
        book.wf(),
    ensures
        forall|i: int|
            0 <= i < book.after(order).bid.len() ==> (#[trigger] book.after(order).bid[i]).size
                > 0,
        forall|i: int|
            0 <= i < book.after(order).ask.len() ==> (#[trigger] book.after(order).ask[i]).size
                > 0,
{
    lemma_execution_keeps_book(book, order);
}

/// The resting orders of the side that `order` is matched against, added up.
pub open spec fn resting_against(book: BookView, order: IncomingOrder) -> nat {
    match order.side {
        OrderSide::Buy => total_size(book.ask),
        OrderSide::Sell => total_size(book.bid),
    }
}

/// In an execution that does not kill the order, the sizes of the trades add up
/// to what the order loses and to what the other side of the book loses.
pub proof fn lemma_conservation_of_size(book: BookView, order: IncomingOrder)
    requires
        !book.kills(order),
    ensures
        traded(book.trades(order)) == order.size - book.remainder(order),
        traded(book.trades(order)) == resting_against(book, order) - resting_against(
            book.after(order),
            order,
        ),
{
    match order.side {
        OrderSide::Buy => {
            lemma_conservation(book.ask, order.on_side::<Buy>());
        },
        OrderSide::Sell => {
            lemma_conservation(book.bid, order.on_side::<Sell>());
        },
    }
}

/// Whether `items` holds no report of a trade.
pub open spec fn no_trades(items: Seq<LogItem>) -> bool {
    forall|i: int| 0 <= i < items.len() ==> !(#[trigger] items[i] is Fulfilled)
}

/// Where a fill-or-kill order leaves no trade in a log that was empty before
/// and keeps what it is given, the book is as it was before the execution.
pub proof fn lemma_fill_or_kill_atomic(book: BookView, order: IncomingOrder)
    requires
        order.kind == OrderKind::FillOrKill,
        no_trades(book.reports::<VectorLogger>(order, Seq::empty())),
    ensures
        book.after(order) == book,
{
    let trades = book.trades(order);
    let log = book.reports::<VectorLogger>(order, Seq::empty());
    if !book.kills(order) {
        lemma_vector_logger_keeps(Seq::empty(), trades);
        assert(Seq::<LogItem>::empty() + trades =~= trades);
        if trades.len() > 0 {
            match order.side {
                OrderSide::Buy => lemma_no_self_trade(book.ask, order.on_side::<Buy>()),
                OrderSide::Sell => lemma_no_self_trade(book.bid, order.on_side::<Sell>()),
            }
            assert(log[0] == trades[0]);
            assert(trades[0] is Fulfilled);
        }
        match order.side {
            OrderSide::Buy => lemma_no_trade_no_change(book.ask, order.on_side::<Buy>()),
            OrderSide::Sell => lemma_no_trade_no_change(book.bid, order.on_side::<Sell>()),
        }
    }
}

/// A killed order leaves the book as it was, and of the reports of its
/// execution a log that keeps what it is given holds the cancellation alone.
pub proof fn lemma_killed_leaves_no_trace(book: BookView, order: IncomingOrder, before: Seq<LogItem>)
    requires
        book.kills(order),
    ensures
        book.after(order) == book,
        book.reports::<VectorLogger>(order, before) == seq![
            LogItem::Cancelled { size: order.size },
        ],
{
    match order.side {
        OrderSide::Buy => lemma_conservation(book.ask, order.on_side::<Buy>()),
        OrderSide::Sell => lemma_conservation(book.bid, order.on_side::<Sell>()),
    }
    assert(book.closing(order) == Some(LogItem::Cancelled { size: order.size }));
    assert(Seq::<LogItem>::empty().push(LogItem::Cancelled { size: order.size }) =~= seq![
        LogItem::Cancelled { size: order.size },
    ]);
}

/// No trade of an order is with a resting order of its own user.
pub proof fn lemma_self_trade_avoidance(book: BookView, order: IncomingOrder)
    ensures
        forall|i: int|
            0 <= i < book.trades(order).len() ==> {
                &&& #[trigger] book.trades(order)[i] is Fulfilled
                &&& book.trades(order)[i]->Fulfilled_user_id != order.user_id
            },
{
    match order.side {
        OrderSide::Buy => lemma_no_self_trade(book.ask, order.on_side::<Buy>()),
        OrderSide::Sell => lemma_no_self_trade(book.bid, order.on_side::<Sell>()),
    }
}

/// The reports of an execution in a log that was empty before and keeps what
/// it is given: the trades, unless the order was killed, and then the closing
/// report. None of them is a trade with the order's own user.
pub proof fn lemma_reports_kept(book: BookView, order: IncomingOrder)
    ensures
        book.reports::<VectorLogger>(order, Seq::empty()) == (if book.kills(order) {
            Seq::<LogItem>::empty()
        } else {
            book.trades(order)
        }) + (match book.closing(order) {
            Some(item) => seq![item],
            None => Seq::<LogItem>::empty(),
        }),
        forall|i: int|
            0 <= i < book.reports::<VectorLogger>(order, Seq::empty()).len() && (
            #[trigger] book.reports::<VectorLogger>(order, Seq::empty())[i]) is Fulfilled
                ==> book.reports::<VectorLogger>(
                order,
                Seq::empty(),
            )[i]->Fulfilled_user_id != order.user_id,
{
    let trades = book.trades(order);
    let log = book.reports::<VectorLogger>(order, Seq::empty());
    let matched = if book.kills(order) {
        Seq::<LogItem>::empty()
    } else {
        trades
    };
    let last = match book.closing(order) {
        Some(item) => seq![item],
        None => Seq::<LogItem>::empty(),
    };
    lemma_vector_logger_keeps(Seq::empty(), trades);
    assert(Seq::<LogItem>::empty() + trades =~= trades);
    assert(log =~= matched + last);
    lemma_self_trade_avoidance(book, order);
    assert forall|i: int| 0 <= i < log.len() && (#[trigger] log[i]) is Fulfilled implies log[i]->Fulfilled_user_id
        != order.user_id by {
        if i < matched.len() {
            assert(log[i] == trades[i]);
        } else {
            assert(log[i] == last[i - matched.len()]);
        }
    }
}

/// The time at which each resting order of a book came to rest.
pub struct Arrivals {
    pub bid: Seq<nat>,
    pub ask: Seq<nat>,
}

/// Whether each side of `book` rests in order of arrival among equal prices,
/// and nothing in it arrived after `now`.
pub open spec fn in_arrival_order(book: BookView, arrivals: Arrivals, now: nat) -> bool {
    &&& first_come_first(book.bid, arrivals.bid)
    &&& first_come_first(book.ask, arrivals.ask)
    &&& not_after(arrivals.bid, now)
    &&& not_after(arrivals.ask, now)
}

/// The times of arrival after `order` was executed at the time `now`: an order
/// that stays keeps its time, and what comes to rest of `order` arrived `now`.
pub open spec fn arrivals_after(
    book: BookView,
    arrivals: Arrivals,
    order: IncomingOrder,
    now: nat,
) -> Arrivals {
    match order.side {
        OrderSide::Buy => Arrivals {
            bid: if book.rests(order) {
                arrivals.bid.insert(insert_index(book.bid, order.price_limit), now)
            } else {
                arrivals.bid
            },
            ask: if book.kills(order) {
                arrivals.ask
            } else {
                arrival_of_staying(book.ask, arrivals.ask, order.on_side::<Buy>())
            },
        },
        OrderSide::Sell => Arrivals {
            bid: if book.kills(order) {
                arrivals.bid
            } else {
                arrival_of_staying(book.bid, arrivals.bid, order.on_side::<Sell>())
            },
            ask: if book.rests(order) {
                arrivals.ask.insert(insert_index(book.ask, order.price_limit), now)
            } else {
                arrivals.ask
            },
        },
    }
}

/// First come, first served: where the resting orders of each price were in
/// order of arrival before an execution, they are so after it.
pub proof fn lemma_fifo_on_ties(
    book: BookView,
    arrivals: Arrivals,
    order: IncomingOrder,
    now: nat,
)
    requires
        book.wf(),
        in_arrival_order(book, arrivals, now),
    ensures
        in_arrival_order(book.after(order), arrivals_after(book, arrivals, order, now), now),
{
    let left = order.with_size(book.remainder(order));
    match order.side {
        OrderSide::Buy => {
            lemma_survivors_first_come_first(
                book.ask,
                arrivals.ask,
                order.on_side::<Buy>(),
                now,
            );
            lemma_inserted_first_come_first(book.bid, arrivals.bid, left.on_side::<Buy>(), now);
        },
        OrderSide::Sell => {
            lemma_survivors_first_come_first(
                book.bid,
                arrivals.bid,
                order.on_side::<Sell>(),
                now,
            );
            lemma_inserted_first_come_first(book.ask, arrivals.ask, left.on_side::<Sell>(), now);
        },
    }
}

/// The book that the first `count` orders of the listing of `book` make of an
/// empty book: the bids come first, then the asks.
pub open spec fn replayed(book: BookView, count: int) -> BookView {
    if count <= book.bid.len() {
        BookView { bid: book.bid.take(count), ask: Seq::empty() }
    } else {
        BookView { bid: book.bid, ask: book.ask.take(count - book.bid.len()) }
    }
}

/// A resting order that is executed again as a limit order behind those in
/// front of it, with nothing on the other side that it could trade with, comes
/// to rest behind them.
proof fn lemma_rests_at_end<M: Direction<Other = T>, T: Direction>(
    makers: Seq<Order<M>>,
    own: Seq<Order<T>>,
    done: int,
)
    requires
        ordered(own),
        positive(own),
        0 <= done < own.len(),
        forall|i: int|
            0 <= i < makers.len() && (#[trigger] makers[i]).accepts(own[done].price_limit)
                ==> makers[i].user_id == own[done].user_id,
    ensures
        makers_after(makers, own[done], OrderKind::Limit) == makers,
        own_after(makers, own.take(done), own[done], OrderKind::Limit) == own.take(done + 1),
{
    let taker = own[done];
    let front = own.take(done);
    lemma_only_own_no_trade(makers, taker);
    lemma_no_trade_no_change(makers, taker);
    assert(taker.size > 0);
    assert(taker.with_size(taker.size) == taker);
    assert forall|i: int| 0 <= i < done implies !worse(
        T::SIDE,
        (#[trigger] front[i]).price_limit,
        taker.price_limit,
    ) by {
        assert(front[i] == own[i]);
    }
    lemma_insert_index_unique(front, taker.price_limit, done);
    assert(front.insert(done, taker) =~= own.take(done + 1));
}

/// Executing one more order of the listing puts one more order to rest.
proof fn lemma_replay_step(book: BookView, done: int)
    requires
        book.wf(),
        0 <= done < book.listing().len(),
    ensures
        replayed(book, done).after(book.listing()[done]) == replayed(book, done + 1),
{
    lemma_sides();
    let before = replayed(book, done);
    let order = book.listing()[done];
    let after = before.after(order);
    let bids = book.bid.len() as int;
    if done < bids {
        let taker = book.bid[done];
        assert(order == taker.to_incoming());
        assert(order.on_side::<Buy>() == taker);
        assert(before.ask.len() == 0);
        lemma_rests_at_end::<Sell, Buy>(before.ask, book.bid, done);
        assert(after.ask == makers_after(before.ask, taker, OrderKind::Limit));
        assert(after.bid == own_after(before.ask, before.bid, taker, OrderKind::Limit));
        assert(after.ask =~= replayed(book, done + 1).ask);
        assert(after.bid =~= replayed(book, done + 1).bid);
    } else {
        let place = done - bids;
        let taker = book.ask[place];
        assert(order == taker.to_incoming());
        assert(order.on_side::<Sell>() == taker);
        assert(before.bid =~= book.bid);
        assert(before.ask =~= book.ask.take(place));
        assert forall|i: int|
            0 <= i < book.bid.len() && (#[trigger] book.bid[i]).accepts(
                taker.price_limit,
            ) implies book.bid[i].user_id == taker.user_id by {
            assert(book.bid[i].price_limit >= book.ask[place].price_limit);
        }
        lemma_rests_at_end::<Buy, Sell>(book.bid, book.ask, place);
        assert(after.bid == makers_after(before.bid, taker, OrderKind::Limit));
        assert(after.ask == own_after(before.bid, before.ask, taker, OrderKind::Limit));
        assert(after.bid =~= replayed(book, done + 1).bid);
        assert(after.ask =~= replayed(book, done + 1).ask);
    }
}

/// The first `count` orders of the listing, executed on an empty book, put the
/// first `count` resting orders to rest.
proof fn lemma_replay(book: BookView, count: int)
    requires
        book.wf(),
        0 <= count <= book.listing().len(),
    ensures
        BookView::empty().after_all(book.listing().take(count)) == replayed(book, count),
    decreases count,
{
    let listing = book.listing();
    if count == 0 {
        assert(listing.take(0) =~= Seq::<IncomingOrder>::empty());
        assert(replayed(book, 0).bid =~= BookView::empty().bid);
    } else {
        lemma_replay(book, count - 1);
        lemma_replay_step(book, count - 1);
        assert(listing.take(count).drop_last() =~= listing.take(count - 1));
        assert(listing.take(count).last() == listing[count - 1]);
    }
}

/// The listing of a book, executed on an empty book, gives the book again.
pub proof fn lemma_round_trip(book: BookView)
    requires
        book.wf(),
    ensures
        BookView::empty().after_all(book.listing()) == book,
{
    let listing = book.listing();
    let count = listing.len() as int;
    lemma_replay(book, count);
    assert(listing.take(count) =~= listing);
    assert(replayed(book, count).bid =~= book.bid);
    assert(replayed(book, count).ask =~= book.ask);
}

} // verus!
