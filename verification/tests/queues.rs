use matcher::log::{DummyLogger, ExecutionLogger, LogItem, VectorLogger};
use matcher::order::{Buy, Direction, IncomingOrder, Order, OrderKind, OrderSide, Sell, TaggedOrder};
use matcher::queues::{Queue, ReversedVec, SimpleVecQueue, VecDequeQueue};
use matcher::{GoodEnoughQueue, OrderQueueInsert, OrderQueueMatch};
use std::cmp::Ordering;

fn bid(price_limit: u64, size: u64, user_id: u64) -> Order<Buy> {
    let incoming = IncomingOrder {
        price_limit,
        size,
        user_id,
        kind: OrderKind::Limit,
        side: OrderSide::Buy,
    };
    match TaggedOrder::from(incoming) {
        TaggedOrder::Buy(order) => order,
        TaggedOrder::Sell(_) => unreachable!(),
    }
}

fn ask(price_limit: u64, size: u64, user_id: u64) -> Order<Sell> {
    let incoming = IncomingOrder {
        price_limit,
        size,
        user_id,
        kind: OrderKind::Limit,
        side: OrderSide::Sell,
    };
    match TaggedOrder::from(incoming) {
        TaggedOrder::Sell(order) => order,
        TaggedOrder::Buy(_) => unreachable!(),
    }
}

fn contents<D: Direction>(queue: &impl Queue<Order<D>>) -> Vec<(u64, u64, u64)> {
    let mut items = Vec::new();
    for index in 0..queue.len() {
        let order = queue.get(index);
        items.push((order.price_limit, order.size, order.user_id));
    }
    items
}

fn exercise_queue<Q: Queue<Order<Sell>>>() {
    let mut queue = Q::new();
    assert!(queue.is_empty());
    assert_eq!(queue.len(), 0);
    assert_eq!(queue.insert_position(|_| true), None);

    queue.push_back(ask(10, 1, 1));
    queue.push_back(ask(20, 2, 2));
    queue.push_back(ask(30, 3, 3));
    assert_eq!(contents(&queue), vec![(10, 1, 1), (20, 2, 2), (30, 3, 3)]);
    assert!(!queue.is_empty());

    queue.push_front(ask(5, 9, 9));
    assert_eq!(contents(&queue), vec![(5, 9, 9), (10, 1, 1), (20, 2, 2), (30, 3, 3)]);

    queue.insert_at(2, ask(15, 7, 7));
    assert_eq!(
        contents(&queue),
        vec![(5, 9, 9), (10, 1, 1), (15, 7, 7), (20, 2, 2), (30, 3, 3)]
    );
    queue.insert_at(5, ask(40, 4, 4));
    queue.insert_at(0, ask(1, 1, 1));
    assert_eq!(
        contents(&queue),
        vec![(1, 1, 1), (5, 9, 9), (10, 1, 1), (15, 7, 7), (20, 2, 2), (30, 3, 3), (40, 4, 4)]
    );

    assert_eq!(queue.insert_position(|order| order.price_limit > 15), Some(4));
    assert_eq!(queue.insert_position(|order| order.price_limit > 0), Some(0));
    assert_eq!(queue.insert_position(|order| order.price_limit > 40), None);

    queue.get_mut(3).size = 6;
    assert_eq!(queue.get(3).size, 6);
    assert_eq!(queue.get(2).size, 1);
    assert_eq!(queue.get(4).size, 2);

    queue.drop_first_n(0);
    assert_eq!(queue.len(), 7);
    queue.drop_first_n(3);
    assert_eq!(contents(&queue), vec![(15, 6, 7), (20, 2, 2), (30, 3, 3), (40, 4, 4)]);
    queue.drop_first_n(4);
    assert!(queue.is_empty());
}

fn exercise_matching<Q: GoodEnoughQueue<Sell>>() {
    let mut queue = Q::default();
    assert_eq!(Queue::len(&queue), 0);
    queue.insert(ask(101, 1, 2));
    queue.insert(ask(100, 1, 0));
    queue.insert(ask(103, 5, 5));
    queue.insert(ask(101, 2, 0));
    queue.insert(ask(101, 3, 4));
    queue.insert(ask(100, 4, 1));
    assert_eq!(
        contents(&queue),
        vec![(100, 1, 0), (100, 4, 1), (101, 1, 2), (101, 2, 0), (101, 3, 4), (103, 5, 5)]
    );

    let mut logger = VectorLogger::new();
    let mut order = bid(102, 7, 0);
    queue.match_order(&mut order, OrderKind::Limit, &mut logger);
    assert_eq!(order.size, 0);
    assert_eq!(order.price_limit, 102);
    assert_eq!(order.user_id, 0);
    assert_eq!(
        logger.as_slice(),
        &[
            LogItem::Fulfilled { size: 4, price: 100, user_id: 1 },
            LogItem::Fulfilled { size: 1, price: 101, user_id: 2 },
            LogItem::Fulfilled { size: 2, price: 101, user_id: 4 },
        ]
    );
    assert_eq!(contents(&queue), vec![(100, 1, 0), (101, 2, 0), (101, 1, 4), (103, 5, 5)]);

    let mut logger = VectorLogger::new();
    let mut order = bid(102, 7, 9);
    queue.match_order(&mut order, OrderKind::FillOrKill, &mut logger);
    assert_eq!(order.size, 7);
    assert_eq!(logger.as_slice(), &[]);
    assert_eq!(contents(&queue), vec![(100, 1, 0), (101, 2, 0), (101, 1, 4), (103, 5, 5)]);

    let mut logger = VectorLogger::new();
    queue.match_order(&mut order, OrderKind::ImmediateOrCancel, &mut logger);
    assert_eq!(order.size, 3);
    assert_eq!(
        logger.as_slice(),
        &[
            LogItem::Fulfilled { size: 1, price: 100, user_id: 0 },
            LogItem::Fulfilled { size: 2, price: 101, user_id: 0 },
            LogItem::Fulfilled { size: 1, price: 101, user_id: 4 },
        ]
    );
    assert_eq!(contents(&queue), vec![(103, 5, 5)]);
}

#[test]
fn vec_deque_queue_is_a_queue() {
    exercise_queue::<VecDequeQueue<Sell>>();
}

#[test]
fn simple_vec_queue_is_a_queue() {
    exercise_queue::<SimpleVecQueue<Sell>>();
}

#[test]
fn reversed_vec_is_a_queue() {
    exercise_queue::<ReversedVec<Sell>>();
}

#[test]
fn vec_deque_queue_matches() {
    exercise_matching::<VecDequeQueue<Sell>>();
}

#[test]
fn simple_vec_queue_matches() {
    exercise_matching::<SimpleVecQueue<Sell>>();
}

#[test]
fn reversed_vec_matches() {
    exercise_matching::<ReversedVec<Sell>>();
}

#[test]
fn bids_are_inserted_highest_first() {
    let mut queue = ReversedVec::<Buy>::default();
    queue.insert(bid(100, 1, 1));
    queue.insert(bid(102, 2, 2));
    queue.insert(bid(101, 3, 3));
    queue.insert(bid(102, 4, 4));
    assert_eq!(contents(&queue), vec![(102, 2, 2), (102, 4, 4), (101, 3, 3), (100, 1, 1)]);
}

#[test]
fn zero_size_order_trades_nothing_and_changes_nothing() {
    let mut queue = VecDequeQueue::<Sell>::default();
    queue.insert(ask(100, 4, 1));
    let mut logger = VectorLogger::new();
    let mut order = bid(100, 0, 2);
    queue.match_order(&mut order, OrderKind::Limit, &mut logger);
    assert_eq!(logger.as_slice(), &[LogItem::Fulfilled { size: 0, price: 100, user_id: 1 }]);
    assert_eq!(contents(&queue), vec![(100, 4, 1)]);
    assert_eq!(order.size, 0);
}

#[test]
fn price_matches_by_side() {
    assert!(bid(100, 1, 1).price_matches(&ask(100, 1, 2)));
    assert!(bid(100, 1, 1).price_matches(&ask(99, 1, 2)));
    assert!(!bid(100, 1, 1).price_matches(&ask(101, 1, 2)));
    assert!(ask(100, 1, 1).price_matches(&bid(100, 1, 2)));
    assert!(ask(100, 1, 1).price_matches(&bid(101, 1, 2)));
    assert!(!ask(100, 1, 1).price_matches(&bid(99, 1, 2)));
}

#[test]
fn to_incoming_is_a_limit_order_of_the_side() {
    assert_eq!(
        bid(7, 8, 9).to_incoming(),
        IncomingOrder {
            price_limit: 7,
            size: 8,
            user_id: 9,
            kind: OrderKind::Limit,
            side: OrderSide::Buy,
        }
    );
    assert_eq!(ask(7, 8, 9).to_incoming().side, OrderSide::Sell);
    assert_eq!(<Buy as Direction>::SIDE, OrderSide::Buy);
    assert_eq!(<Sell as Direction>::SIDE, OrderSide::Sell);
    assert_eq!(<Order<Sell> as Direction>::SIDE, OrderSide::Sell);
}

#[test]
fn tagged_order_keeps_side_and_size() {
    let incoming = IncomingOrder {
        price_limit: 5,
        size: 6,
        user_id: 7,
        kind: OrderKind::FillOrKill,
        side: OrderSide::Sell,
    };
    let tagged = TaggedOrder::from(incoming);
    assert_eq!(tagged.size(), 6);
    match tagged {
        TaggedOrder::Sell(order) => {
            assert_eq!((order.price_limit, order.size, order.user_id), (5, 6, 7))
        }
        TaggedOrder::Buy(_) => panic!("a sell order became a bid"),
    }
    let tagged = TaggedOrder::from(IncomingOrder { side: OrderSide::Buy, ..incoming });
    assert_eq!(tagged.size(), 6);
    assert!(matches!(tagged, TaggedOrder::Buy(_)));
}

#[test]
fn orders_compare_by_price_the_better_first() {
    assert!(bid(100, 1, 1) == bid(100, 9, 9));
    assert!(bid(100, 1, 1) != bid(101, 1, 1));
    assert_eq!(bid(100, 1, 1).partial_cmp(&bid(100, 2, 2)), Some(Ordering::Equal));
    assert_eq!(bid(101, 1, 1).partial_cmp(&bid(100, 1, 1)), Some(Ordering::Less));
    assert_eq!(bid(100, 1, 1).partial_cmp(&bid(101, 1, 1)), Some(Ordering::Greater));
    assert_eq!(ask(100, 1, 1).partial_cmp(&ask(101, 1, 1)), Some(Ordering::Less));
    assert_eq!(ask(101, 1, 1).partial_cmp(&ask(100, 1, 1)), Some(Ordering::Greater));
    assert!(bid(101, 1, 1) < bid(100, 1, 1));
    assert!(ask(100, 1, 1) < ask(101, 1, 1));
}

#[test]
fn order_clone_is_equal_in_every_field() {
    let order = ask(3, 4, 5);
    let copy = order.clone();
    assert_eq!((copy.price_limit, copy.size, copy.user_id), (3, 4, 5));
}

#[test]
fn vector_logger_keeps_and_cancels() {
    let mut logger = VectorLogger::new();
    assert_eq!(logger.as_slice().len(), 0);
    logger.log(LogItem::Enqueued { size: 1 });
    logger.log(LogItem::Cancelled { size: 2 });
    assert_eq!(
        logger.as_slice(),
        &[LogItem::Enqueued { size: 1 }, LogItem::Cancelled { size: 2 }]
    );
    logger.cancel();
    assert_eq!(logger.as_slice(), &[]);
    logger.log(LogItem::Fulfilled { size: 3, price: 4, user_id: 5 });
    assert_eq!(logger.as_slice(), &[LogItem::Fulfilled { size: 3, price: 4, user_id: 5 }]);
}

#[test]
fn vector_logger_grows_past_its_inline_store() {
    let mut logger = VectorLogger::new();
    for size in 0..100 {
        logger.log(LogItem::Enqueued { size });
    }
    assert_eq!(logger.as_slice().len(), 100);
    assert_eq!(logger.as_slice()[99], LogItem::Enqueued { size: 99 });
    assert_eq!(logger.as_slice()[0], LogItem::Enqueued { size: 0 });
}

#[test]
fn dummy_logger_takes_everything() {
    let mut logger = DummyLogger;
    logger.log(LogItem::Enqueued { size: 1 });
    logger.cancel();
    logger.log(LogItem::Cancelled { size: 1 });
}
