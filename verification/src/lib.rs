//! Order matching for a single-instrument limit order book.
//!
//! An [`OrderBook`] holds the resting bids and asks, each side best price first
//! and, among equal prices, first come first. [`OrderBook::execute_order`] matches
//! an incoming order against the other side and reports what happened to an
//! [`ExecutionLogger`](log::ExecutionLogger).

use crate::laws::lemma_execution_keeps_book;
use crate::log::{after_logging, DummyLogger, ExecutionLogger, LogItem};
use crate::matching::{fills, killed, left_over, passed_over, survivors};
use crate::order::{Buy, Direction, IncomingOrder, Order, OrderKind, OrderSide, Sell, TaggedOrder};
use crate::priority::{inserted, lemma_insert_index_unique, ordered, positive};
use crate::queues::{Queue, VecDequeQueue};
use vstd::prelude::*;

pub mod laws;
pub mod log;
pub mod matching;
pub mod order;
pub mod priority;
pub mod queues;
pub mod text;

verus! {

/// A queue that can take a new resting order.
pub trait OrderQueueInsert<D: Direction>: Queue<Order<D>> {
    /// Puts `order` behind every order whose price is as good as its own or
    /// better, and in front of the others.
    fn insert(&mut self, order: Order<D>)
        ensures
            final(self)@ == inserted(old(self)@, order),
    ;
}

impl<D: Direction, Q: Queue<Order<D>>> OrderQueueInsert<D> for Q {
    fn insert(&mut self, order: Order<D>) {
        let price = order.price_limit;
        match D::SIDE {
            OrderSide::Buy => {
                let is_lower = |resting: &Order<D>| -> (lower: bool)
                    ensures
                        lower == (price > resting.price_limit),
                    { price > resting.price_limit };
                let index = self.insert_position(is_lower);
                if let Some(index) = index {
                    proof {
                        lemma_insert_index_unique(self@, price, index as int);
                    }
                    self.insert_at(index, order);
                } else {
                    proof {
                        lemma_insert_index_unique(self@, price, self@.len() as int);
                    }
                    self.push_back(order);
                    assert(old(self)@.push(order) =~= old(self)@.insert(
                        old(self)@.len() as int,
                        order,
                    ));
                }
            },
            OrderSide::Sell => {
                let is_higher = |resting: &Order<D>| -> (higher: bool)
                    ensures
                        higher == (resting.price_limit > price),
                    { resting.price_limit > price };
                let index = self.insert_position(is_higher);
                if let Some(index) = index {
                    proof {
                        lemma_insert_index_unique(self@, price, index as int);
                    }
                    self.insert_at(index, order);
                } else {
                    proof {
                        lemma_insert_index_unique(self@, price, self@.len() as int);
                    }
                    self.push_back(order);
                    assert(old(self)@.push(order) =~= old(self)@.insert(
                        old(self)@.len() as int,
                        order,
                    ));
                }
            },
        }
    }
}

/// A queue whose resting orders an incoming order of the other side can be
/// matched against.
pub trait OrderQueueMatch<D: Direction>: Queue<Order<D>> {
    /// Trades `order` with the resting orders, best price first, and logs each
    /// trade. A fill-or-kill order that cannot be filled is withdrawn instead: the
    /// queue and the order stay as they were and the logger is told to cancel.
    fn match_order<L: ExecutionLogger>(
        &mut self,
        order: &mut Order<D::Other>,
        kind: OrderKind,
        logger: &mut L,
    )
        ensures
            final(self)@ == (if killed(old(self)@, *old(order), kind) {
                old(self)@
            } else {
                survivors(old(self)@, *old(order))
            }),
            *final(order) == (if killed(old(self)@, *old(order), kind) {
                *old(order)
            } else {
                (*old(order)).with_size(left_over(old(self)@, *old(order)))
            }),
            final(logger)@ == (if killed(old(self)@, *old(order), kind) {
                L::cancelled(after_logging::<L>(old(logger)@, fills(old(self)@, *old(order))))
            } else {
                after_logging::<L>(old(logger)@, fills(old(self)@, *old(order)))
            }),
    ;
}

impl<D: Direction, Q: Queue<Order<D>>> OrderQueueMatch<D> for Q {
    fn match_order<L: ExecutionLogger>(
        &mut self,
        order: &mut Order<D::Other>,
        kind: OrderKind,
        logger: &mut L,
    ) {
        let initial_size = order.size;
        let ghost taker = *order;
        let ghost queue = self@;
        let ghost before = logger@;
        let ghost mut emitted: Seq<LogItem> = Seq::empty();
        let mut retained: Vec<Order<D>> = Vec::new();
        let mut drop_first: usize = 0;
        let mut index: usize = 0;
        let mut walking = true;
        let count = self.len();
        assert(queue.skip(0) =~= queue);
        while walking && index < count
            invariant
                count == queue.len(),
                self@.len() == count,
                index <= count,
                drop_first <= count,
                *order == taker.with_size(order.size),
                logger@ == after_logging::<L>(before, emitted),
                walking ==> {
                    &&& self@ == queue
                    &&& drop_first == index
                    &&& survivors(queue, taker) == retained@ + survivors(queue.skip(index as int), *order)
                    &&& left_over(queue, taker) == left_over(queue.skip(index as int), *order)
                    &&& fills(queue, taker) == emitted + fills(queue.skip(index as int), *order)
                },
                !walking ==> {
                    &&& survivors(queue, taker) == retained@ + self@.skip(drop_first as int)
                    &&& left_over(queue, taker) == order.size
                    &&& fills(queue, taker) == emitted
                    &&& order.size != 0 ==> self@ == queue
                },
            decreases count - index, walking as int,
        {
            let ghost rest = queue.skip(index as int);
            assert(rest[0] == queue[index as int]);
            assert(rest.drop_first() =~= queue.skip(index + 1));
            let passive = self.get(index);
            if !passive.price_matches(order) {
                walking = false;
            } else if passive.user_id == order.user_id {
                let ghost held = retained@;
                retained.push(passive.clone());
                assert(retained@ + survivors(queue.skip(index + 1), *order) =~= held + (seq![
                    queue[index as int],
                ] + survivors(queue.skip(index + 1), *order)));
                drop_first = index + 1;
                index += 1;
            } else {
                let price = passive.price_limit;
                let user_id = passive.user_id;
                let passive_size = passive.size;
                let size = if order.size <= passive_size {
                    order.size
                } else {
                    passive_size
                };
                order.size = order.size - size;
                logger.log(LogItem::Fulfilled { size, price, user_id });
                proof {
                    let logged = emitted;
                    emitted = logged.push(LogItem::Fulfilled { size, price, user_id });
                    assert(emitted.drop_last() =~= logged);
                }
                if passive_size == size {
                    drop_first = index + 1;
                } else {
                    drop_first = index;
                }
                if order.size == 0 {
                    let passive = self.get_mut(index);
                    passive.size = passive.size - size;
                    walking = false;
                } else {
                    index += 1;
                }
            }
        }
        if kind == OrderKind::FillOrKill && order.size != 0 {
            logger.cancel();
            order.size = initial_size;
            return ;
        }
        if drop_first > 0 {
            self.drop_first_n(drop_first);
        }
        let ghost rest = self@;
        let ghost passed = retained@;
        let mut left: usize = retained.len();
        while left > 0
            invariant
                left == retained@.len(),
                left <= passed.len(),
                retained@ == passed.take(left as int),
                self@ == passed.skip(left as int) + rest,
            decreases left,
        {
            if let Some(order) = retained.pop() {
                self.push_front(order);
            }
            left -= 1;
            assert(retained@ =~= passed.take(left as int));
            assert(self@ =~= passed.skip(left as int) + rest);
        }
        assert(self@ =~= passed + rest);
    }
}

/// A queue that can hold one side of an order book: it starts empty, takes new
/// resting orders and can be matched against. Its length is `Queue::len`.
pub trait GoodEnoughQueue<D: Direction>: Default + OrderQueueInsert<D> + OrderQueueMatch<D> {

}

impl<D: Direction, Q: Queue<Order<D>> + Default> GoodEnoughQueue<D> for Q {

}

/// The resting orders of a book, each side best price first.
pub struct BookView {
    pub bid: Seq<Order<Buy>>,
    pub ask: Seq<Order<Sell>>,
}

impl BookView {
    /// The book in which nothing rests.
    pub open spec fn empty() -> BookView {
        BookView { bid: Seq::empty(), ask: Seq::empty() }
    }

    /// Whether a bid and an ask whose prices allow a trade between them are
    /// always of one user: such a pair is left where an order passes over the
    /// resting orders of its own user, and nowhere else.
    pub open spec fn crossings_own(self) -> bool {
        forall|i: int, j: int|
            #![trigger self.bid[i], self.ask[j]]
            0 <= i < self.bid.len() && 0 <= j < self.ask.len() && self.bid[i].price_limit
                >= self.ask[j].price_limit ==> self.bid[i].user_id == self.ask[j].user_id
    }

    /// What holds of a book between executions: each side has its best price
    /// first, every resting order has something to trade, and no bid could
    /// trade with an ask of another user.
    pub open spec fn wf(self) -> bool {
        &&& ordered(self.bid)
        &&& ordered(self.ask)
        &&& positive(self.bid)
        &&& positive(self.ask)
        &&& self.crossings_own()
    }

    /// Whether the best bid is below the best ask, where there are both.
    pub open spec fn non_crossing(self) -> bool {
        self.bid.len() > 0 && self.ask.len() > 0 ==> self.bid[0].price_limit
            < self.ask[0].price_limit
    }

    /// The resting orders of `order`'s own user that its matching passes over.
    pub open spec fn skips(self, order: IncomingOrder) -> nat {
        match order.side {
            OrderSide::Buy => passed_over(self.ask, order.on_side::<Buy>()).len(),
            OrderSide::Sell => passed_over(self.bid, order.on_side::<Sell>()).len(),
        }
    }

    /// The trades of `order` with the resting orders of the other side.
    pub open spec fn trades(self, order: IncomingOrder) -> Seq<LogItem> {
        match order.side {
            OrderSide::Buy => fills(self.ask, order.on_side::<Buy>()),
            OrderSide::Sell => fills(self.bid, order.on_side::<Sell>()),
        }
    }

    /// What those trades leave of `order`.
    pub open spec fn unfilled(self, order: IncomingOrder) -> u64 {
        match order.side {
            OrderSide::Buy => left_over(self.ask, order.on_side::<Buy>()),
            OrderSide::Sell => left_over(self.bid, order.on_side::<Sell>()),
        }
    }

    /// Whether `order` is a fill-or-kill order that the book cannot fill.
    pub open spec fn kills(self, order: IncomingOrder) -> bool {
        order.kind == OrderKind::FillOrKill && self.unfilled(order) != 0
    }

    /// The part of `order` that is not traded: all of it where it is killed.
    pub open spec fn remainder(self, order: IncomingOrder) -> u64 {
        if self.kills(order) {
            order.size
        } else {
            self.unfilled(order)
        }
    }

    /// Whether what is left of `order` comes to rest in the book.
    pub open spec fn rests(self, order: IncomingOrder) -> bool {
        order.kind == OrderKind::Limit && self.remainder(order) > 0
    }

    /// The report on the part of `order` that is not traded, where there is one.
    pub open spec fn closing(self, order: IncomingOrder) -> Option<LogItem> {
        if self.remainder(order) == 0 {
            None
        } else if order.kind == OrderKind::Limit {
            Some(LogItem::Enqueued { size: self.remainder(order) })
        } else {
            Some(LogItem::Cancelled { size: self.remainder(order) })
        }
    }

    /// The book after `order` was executed.
    pub open spec fn after(self, order: IncomingOrder) -> BookView {
        let left = order.with_size(self.remainder(order));
        match order.side {
            OrderSide::Buy => BookView {
                bid: if self.rests(order) {
                    inserted(self.bid, left.on_side::<Buy>())
                } else {
                    self.bid
                },
                ask: if self.kills(order) {
                    self.ask
                } else {
                    survivors(self.ask, order.on_side::<Buy>())
                },
            },
            OrderSide::Sell => BookView {
                bid: if self.kills(order) {
                    self.bid
                } else {
                    survivors(self.bid, order.on_side::<Sell>())
                },
                ask: if self.rests(order) {
                    inserted(self.ask, left.on_side::<Sell>())
                } else {
                    self.ask
                },
            },
        }
    }

    /// What a logger of type `L` that held `before` holds after `order` was
    /// executed: the trades, forgotten again where the order is killed, and then
    /// the closing report.
    pub open spec fn reports<L: ExecutionLogger>(
        self,
        order: IncomingOrder,
        before: Seq<LogItem>,
    ) -> Seq<LogItem> {
        let traded = after_logging::<L>(before, self.trades(order));
        let matched = if self.kills(order) {
            L::cancelled(traded)
        } else {
            traded
        };
        match self.closing(order) {
            Some(item) => L::logged(matched, item),
            None => matched,
        }
    }

    /// The book after `orders` were executed one after the other.
    pub open spec fn after_all(self, orders: Seq<IncomingOrder>) -> BookView
        decreases orders.len(),
    {
        if orders.len() == 0 {
            self
        } else {
            self.after_all(orders.drop_last()).after(orders.last())
        }
    }

    /// The resting orders as limit orders: the bids, best first, then the asks,
    /// best first.
    pub open spec fn listing(self) -> Seq<IncomingOrder> {
        self.bid.map_values(|order: Order<Buy>| order.to_incoming()) + self.ask.map_values(
            |order: Order<Sell>| order.to_incoming(),
        )
    }
}

/// An order book: the resting bids and the resting asks of one instrument.
pub struct OrderBook {
    bid: VecDequeQueue<Buy>,
    ask: VecDequeQueue<Sell>,
}

impl Clone for OrderBook {
    fn clone(&self) -> (copy: Self)
        ensures
            copy@ == self@,
    {
        OrderBook { bid: self.bid.clone(), ask: self.ask.clone() }
    }
}

impl View for OrderBook {
    type V = BookView;

    closed spec fn view(&self) -> BookView {
        BookView { bid: self.bid@, ask: self.ask@ }
    }
}

impl OrderBook {
    /// An empty book.
    pub fn new() -> (book: Self)
        ensures
            book@ == BookView::empty(),
            book@.wf(),
    {
        OrderBook { bid: VecDequeQueue::default(), ask: VecDequeQueue::default() }
    }

    /// The resting bids, best first.
    pub fn bid(&self) -> (queue: &VecDequeQueue<Buy>)
        ensures
            queue@ == self@.bid,
    {
        &self.bid
    }

    /// The resting asks, best first.
    pub fn ask(&self) -> (queue: &VecDequeQueue<Sell>)
        ensures
            queue@ == self@.ask,
    {
        &self.ask
    }

    /// Executes `order`: trades it with the other side of the book, then lets
    /// what is left of a limit order rest and gives up what is left of any other.
    /// Each trade is logged as it happens, and the closing report last.
    pub fn execute_order<L: ExecutionLogger>(&mut self, order: IncomingOrder, logger: &mut L)
        ensures
            final(self)@ == old(self)@.after(order),
            final(logger)@ == old(self)@.reports::<L>(order, old(logger)@),
            old(self)@.wf() ==> final(self)@.wf(),
    {
        proof {
            if self@.wf() {
                lemma_execution_keeps_book(self@, order);
            }
        }
        let kind = order.kind;
        let mut order = TaggedOrder::from(order);
        match &mut order {
            TaggedOrder::Buy(order) => self.ask.match_order(order, kind, logger),
            TaggedOrder::Sell(order) => self.bid.match_order(order, kind, logger),
        }
        let size = order.size();
        if size > 0 {
            match kind {
                OrderKind::Limit => {
                    logger.log(LogItem::Enqueued { size });
                    match order {
                        TaggedOrder::Buy(order) => self.bid.insert(order),
                        TaggedOrder::Sell(order) => self.ask.insert(order),
                    }
                },
                OrderKind::FillOrKill => {
                    logger.log(LogItem::Cancelled { size });
                },
                OrderKind::ImmediateOrCancel => {
                    logger.log(LogItem::Cancelled { size });
                },
            }
        }
    }

    /// The resting orders as limit orders: the bids, best first, then the asks,
    /// best first. Executed in this order on an empty book, they give this
    /// book again.
    pub fn to_vec(&self) -> (orders: Vec<IncomingOrder>)
        ensures
            orders@ == self@.listing(),
    {
        let mut orders: Vec<IncomingOrder> = Vec::new();
        let bids = Queue::len(&self.bid);
        let mut i: usize = 0;
        while i < bids
            invariant
                bids == self@.bid.len(),
                i <= bids,
                orders@.len() == i,
                forall|k: int| 0 <= k < i ==> #[trigger] orders@[k] == self@.bid[k].to_incoming(),
            decreases bids - i,
        {
            orders.push(self.bid.get(i).to_incoming());
            i += 1;
        }
        let asks = Queue::len(&self.ask);
        let mut j: usize = 0;
        while j < asks
            invariant
                bids == self@.bid.len(),
                asks == self@.ask.len(),
                j <= asks,
                orders@.len() == bids + j,
                forall|k: int| 0 <= k < bids ==> #[trigger] orders@[k] == self@.bid[k].to_incoming(),
                forall|k: int|
                    0 <= k < j ==> #[trigger] orders@[bids + k] == self@.ask[k].to_incoming(),
            decreases asks - j,
        {
            orders.push(self.ask.get(j).to_incoming());
            j += 1;
        }
        proof {
            let listing = self@.listing();
            assert(listing.len() == bids + asks);
            assert forall|k: int| 0 <= k < orders@.len() implies orders@[k] == listing[k] by {
                if k >= bids {
                    assert(orders@[bids + (k - bids)] == self@.ask[k - bids].to_incoming());
                }
            }
            assert(orders@ =~= listing);
        }
        orders
    }

    /// The book that executing `orders`, one after the other, makes of an empty
    /// book.
    pub fn from_vec(orders: Vec<IncomingOrder>) -> (book: Self)
        ensures
            book@ == BookView::empty().after_all(orders@),
            book@.wf(),
    {
        let mut book = Self::new();
        let mut logger = DummyLogger;
        let mut i: usize = 0;
        assert(orders@.take(0) =~= Seq::<IncomingOrder>::empty());
        while i < orders.len()
            invariant
                i <= orders@.len(),
                book@ == BookView::empty().after_all(orders@.take(i as int)),
                book@.wf(),
            decreases orders@.len() - i,
        {
            assert(orders@.take(i + 1).drop_last() =~= orders@.take(i as int));
            book.execute_order(orders[i], &mut logger);
            i += 1;
        }
        assert(orders@.take(i as int) =~= orders@);
        book
    }
}

/// The orders of the benchmark book: limit orders of size 10, by turns an ask
/// and a bid, the asks rising from 10001 and the bids falling from 10000, each
/// of a user of its own.
pub open spec fn spec_create_orders() -> Seq<IncomingOrder> {
    Seq::new(
        7000,
        |k: int|
            if k % 2 == 0 {
                IncomingOrder {
                    price_limit: (10001 + k / 2) as u64,
                    size: 10,
                    user_id: (11 + k) as u64,
                    kind: OrderKind::Limit,
                    side: OrderSide::Sell,
                }
            } else {
                IncomingOrder {
                    price_limit: (10000 - k / 2) as u64,
                    size: 10,
                    user_id: (11 + k) as u64,
                    kind: OrderKind::Limit,
                    side: OrderSide::Buy,
                }
            },
    )
}

/// The orders that fill a book for the benchmark: 3500 asks and 3500 bids.
#[allow(unused)]
pub fn create_orders() -> (orders: Vec<IncomingOrder>)
    ensures
        orders@ == spec_create_orders(),
{
    let price: u64 = 10000;
    let mut orders: Vec<IncomingOrder> = Vec::new();
    let mut user_id: u64 = 10;
    let mut i: u64 = 0;
    while i < 3500
        invariant
            i <= 3500,
            price == 10000,
            user_id == 10 + 2 * i,
            orders@.len() == 2 * i,
            forall|k: int| 0 <= k < 2 * i ==> #[trigger] orders@[k] == spec_create_orders()[k],
        decreases 3500 - i,
    {
        user_id += 1;
        let order = IncomingOrder {
            price_limit: price + i + 1,
            size: 10,
            user_id,
            kind: OrderKind::Limit,
            side: OrderSide::Sell,
        };
        orders.push(order);
        user_id += 1;
        let order = IncomingOrder {
            price_limit: price - i,
            size: 10,
            user_id,
            kind: OrderKind::Limit,
            side: OrderSide::Buy,
        };
        orders.push(order);
        i += 1;
    }
    assert(orders@ =~= spec_create_orders());
    orders
}

} // verus!
