use matcher::log::{DummyLogger, LogItem, VectorLogger};
use matcher::order::{Direction, IncomingOrder, Order, OrderKind, OrderSide};
use matcher::queues::Queue;
use matcher::{create_orders, OrderBook};

fn get_order<D: Direction>(queue: &impl Queue<Order<D>>, index: usize) -> IncomingOrder {
    if index >= queue.len() {
        panic!("invalid order index");
    }
    queue.get(index).to_incoming()
}

fn check_order<D: Direction>(queue: &impl Queue<Order<D>>, side: &str, index: usize, s: &str) {
    let order = get_order(queue, index);
    if order.to_string() != s {
        panic!(
            "Invalid {} order at index {}: {}, should be {}",
            side,
            index,
            order.to_string(),
            s
        );
    }
    assert_eq!(order.to_string(), s);
}

fn check_len<D: Direction>(queue: &impl Queue<Order<D>>, side: &str, n: usize) {
    if queue.len() != n {
        panic!("Invalid {} queue length: {}, should be {}", side, queue.len(), n);
    }
}

fn check_log(log: &[LogItem], expected: &[&str]) {
    if log.len() != expected.len() {
        panic!("Incorrect log length: {}, expected {}", log.len(), expected.len());
    }
    for (i, log_item) in log.iter().enumerate() {
        if log_item.to_string() != expected[i] {
            panic!(
                "Incorrect log item {}: '{}', expected '{}'",
                i,
                log_item.to_string(),
                expected[i]
            );
        }
    }
}

fn check_bid_list(book: &OrderBook, list: &[&str]) {
    check_len(book.bid(), "bid", list.len());
    for (index, s) in list.iter().enumerate() {
        check_order(book.bid(), "bid", index, s);
    }
}

fn check_ask_list(book: &OrderBook, list: &[&str]) {
    check_len(book.ask(), "ask", list.len());
    for (index, s) in list.iter().enumerate() {
        check_order(book.ask(), "ask", index, s);
    }
}

fn check_bid_len(book: &OrderBook, n: usize) {
    check_len(book.bid(), "bid", n);
}

fn check_ask_len(book: &OrderBook, n: usize) {
    check_len(book.ask(), "ask", n);
}

fn from_orders(list: &[&str]) -> OrderBook {
    let mut logger = DummyLogger;
    let mut book = OrderBook::new();
    for s in list {
        book.execute_order(s.parse().unwrap(), &mut logger);
    }
    book
}

fn run(book: &mut OrderBook, line: &str) -> Vec<String> {
    let mut logger = VectorLogger::new();
    book.execute_order(line.parse().unwrap(), &mut logger);
    logger.as_slice().iter().map(|item| item.to_string()).collect()
}

fn listing(book: &OrderBook) -> Vec<String> {
    book.to_vec().iter().map(|order| order.to_string()).collect()
}

#[test]
fn new_book_is_empty() {
    let book = OrderBook::new();
    check_bid_len(&book, 0);
    check_ask_len(&book, 0);
}

#[test]
fn book_insert_correct_queue() {
    let mut logger = DummyLogger;

    let mut book = OrderBook::new();
    let order = "Lim B $100 #200 u42".parse().unwrap();
    book.execute_order(order, &mut logger);
    check_bid_len(&book, 1);
    check_ask_len(&book, 0);

    let mut book = OrderBook::new();
    let order = "Lim S $100 #200 u42".parse().unwrap();
    book.execute_order(order, &mut logger);
    check_bid_len(&book, 0);
    check_ask_len(&book, 1);
}

#[test]
fn book_insert_correct_ordering_by_price() {
    let orders = [
        "Lim B $110 #100 u42",
        "Lim B $130 #100 u42",
        "Lim B $120 #100 u42",
        "Lim B $100 #100 u42",
    ];
    let book = from_orders(&orders);
    check_bid_list(&book, &[orders[1], orders[2], orders[0], orders[3]]);

    let orders = [
        "Lim S $110 #100 u42",
        "Lim S $130 #100 u42",
        "Lim S $120 #100 u42",
        "Lim S $100 #100 u42",
    ];
    let book = from_orders(&orders);
    check_ask_list(&book, &[orders[3], orders[0], orders[2], orders[1]]);
}

#[test]
fn book_insert_correct_ordering_by_arrival() {
    let orders = [
        "Lim B $100 #100 u41",
        "Lim B $101 #100 u42",
        "Lim B $102 #100 u43",
        "Lim B $101 #100 u44",
        "Lim B $101 #100 u45",
    ];
    let book = from_orders(&orders);
    check_bid_list(&book, &[orders[2], orders[1], orders[3], orders[4], orders[0]]);

    let orders = [
        "Lim S $100 #100 u41",
        "Lim S $101 #100 u42",
        "Lim S $102 #100 u43",
        "Lim S $101 #100 u44",
        "Lim S $101 #100 u45",
    ];
    let book = from_orders(&orders);
    check_ask_list(&book, &[orders[0], orders[1], orders[3], orders[4], orders[2]]);
}

#[test]
fn match_ignores_orders_with_own_user_id() {
    let orders = [
        "Lim B $103 #1 u3",
        "Lim B $102 #1 u0",
        "Lim B $102 #1 u2",
        "Lim B $101 #1 u1",
        "Lim B $100 #1 u0",
        "Lim S $90 #5 u0",
    ];
    let book = from_orders(&orders);
    check_bid_list(&book, &[orders[1], orders[4]]);
    check_ask_list(&book, &["Lim S $90 #2 u0"]);

    let orders = [
        "Lim S $103 #1 u3",
        "Lim S $102 #1 u0",
        "Lim S $102 #1 u2",
        "Lim S $101 #1 u1",
        "Lim S $100 #1 u0",
        "Lim B $110 #5 u0",
    ];
    let book = from_orders(&orders);
    check_ask_list(&book, &[orders[4], orders[1]]);
    check_bid_list(&book, &["Lim B $110 #2 u0"]);
}

#[test]
fn test_fill_or_kill() {
    /* Selling */
    let orders = [
        "Lim B $103 #1 u1",
        "Lim B $102 #1 u2",
        "Lim B $102 #1 u3",
        "Lim B $101 #1 u4",
        "Lim B $100 #1 u5",
    ];

    // No orders matched incoming order
    let mut book = from_orders(&orders);
    let mut logger = VectorLogger::new();
    book.execute_order("FoK S $110 #5 u0".parse().unwrap(), &mut logger);
    check_log(logger.as_slice(), &["C #5"]);
    check_bid_list(&book, &orders);
    check_ask_len(&book, 0);

    // Some orders matched incoming order, order was not fulfilled
    let mut book = from_orders(&orders);
    let mut logger = VectorLogger::new();
    book.execute_order("FoK S $101 #5 u0".parse().unwrap(), &mut logger);
    check_log(logger.as_slice(), &["C #5"]);
    check_bid_list(&book, &orders);
    check_ask_len(&book, 0);

    // Incoming order was fulfilled
    let mut book = from_orders(&orders);
    let mut logger = VectorLogger::new();
    book.execute_order("FoK S $100 #4 u0".parse().unwrap(), &mut logger);
    check_log(
        logger.as_slice(),
        &["F #1 $103 u1", "F #1 $102 u2", "F #1 $102 u3", "F #1 $101 u4"],
    );
    check_bid_list(&book, &[orders[4]]);
    check_ask_len(&book, 0);

    /* Buying */
    let orders = [
        "Lim S $100 #1 u1",
        "Lim S $101 #1 u2",
        "Lim S $102 #1 u3",
        "Lim S $102 #1 u4",
        "Lim S $103 #1 u5",
    ];

    // No orders matched incoming order
    let mut book = from_orders(&orders);
    let mut logger = VectorLogger::new();
    book.execute_order("FoK B $90 #5 u0".parse().unwrap(), &mut logger);
    check_log(logger.as_slice(), &["C #5"]);
    check_ask_list(&book, &orders);
    check_bid_len(&book, 0);

    // Some orders matched incoming order, order was not fulfilled
    let mut book = from_orders(&orders);
    let mut logger = VectorLogger::new();
    book.execute_order("FoK B $102 #5 u0".parse().unwrap(), &mut logger);
    check_log(logger.as_slice(), &["C #5"]);
    check_ask_list(&book, &orders);
    check_bid_len(&book, 0);

    // Incoming order was fulfilled
    let mut book = from_orders(&orders);
    let mut logger = VectorLogger::new();
    book.execute_order("FoK B $110 #4 u0".parse().unwrap(), &mut logger);
    check_log(
        logger.as_slice(),
        &["F #1 $100 u1", "F #1 $101 u2", "F #1 $102 u3", "F #1 $102 u4"],
    );
    check_ask_list(&book, &[orders[4]]);
    check_bid_len(&book, 0);
}

#[test]
fn test_immediate_or_cancel() {
    /* Selling */
    let orders = [
        "Lim B $103 #1 u1",
        "Lim B $102 #1 u2",
        "Lim B $102 #1 u3",
        "Lim B $101 #1 u4",
        "Lim B $100 #1 u5",
    ];

    // No orders matched incoming order
    let mut book = from_orders(&orders);
    let mut logger = VectorLogger::new();
    book.execute_order("IoC S $110 #5 u0".parse().unwrap(), &mut logger);
    check_log(logger.as_slice(), &["C #5"]);
    check_bid_list(&book, &orders);
    check_ask_len(&book, 0);

    // Some orders matched incoming order, order was partially fulfilled
    let mut book = from_orders(&orders);
    let mut logger = VectorLogger::new();
    book.execute_order("IoC S $101 #5 u0".parse().unwrap(), &mut logger);
    check_log(
        logger.as_slice(),
        &["F #1 $103 u1", "F #1 $102 u2", "F #1 $102 u3", "F #1 $101 u4", "C #1"],
    );
    check_bid_list(&book, &[orders[4]]);
    check_ask_len(&book, 0);

    // Incoming order was fully fulfilled
    let mut book = from_orders(&orders);
    let mut logger = VectorLogger::new();
    book.execute_order("IoC S $100 #4 u0".parse().unwrap(), &mut logger);
    check_log(
        logger.as_slice(),
        &["F #1 $103 u1", "F #1 $102 u2", "F #1 $102 u3", "F #1 $101 u4"],
    );
    check_bid_list(&book, &[orders[4]]);
    check_ask_len(&book, 0);

    /* Buying */
    let orders = [
        "Lim S $100 #1 u1",
        "Lim S $101 #1 u2",
        "Lim S $102 #1 u3",
        "Lim S $102 #1 u4",
        "Lim S $103 #1 u5",
    ];

    // No orders matched incoming order
    let mut book = from_orders(&orders);
    let mut logger = VectorLogger::new();
    book.execute_order("IoC B $90 #5 u0".parse().unwrap(), &mut logger);
    check_log(logger.as_slice(), &["C #5"]);
    check_ask_list(&book, &orders);
    check_bid_len(&book, 0);

    // Some orders matched incoming order, order was partially fulfilled
    let mut book = from_orders(&orders);
    let mut logger = VectorLogger::new();
    book.execute_order("IoC B $102 #5 u0".parse().unwrap(), &mut logger);
    check_log(
        logger.as_slice(),
        &["F #1 $100 u1", "F #1 $101 u2", "F #1 $102 u3", "F #1 $102 u4", "C #1"],
    );
    check_ask_list(&book, &[orders[4]]);
    check_bid_len(&book, 0);

    // Incoming order was fully fulfilled
    let mut book = from_orders(&orders);
    let mut logger = VectorLogger::new();
    book.execute_order("IoC B $110 #4 u0".parse().unwrap(), &mut logger);
    check_log(
        logger.as_slice(),
        &["F #1 $100 u1", "F #1 $101 u2", "F #1 $102 u3", "F #1 $102 u4"],
    );
    check_ask_list(&book, &[orders[4]]);
    check_bid_len(&book, 0);
}

#[test]
fn test_matching1() {
    let orders = [
        "Lim S $110 #6 u1",
        "Lim S $120 #3 u2",
        "Lim S $115 #4 u3",
        "Lim S $105 #5 u4",
        "Lim S $110 #2 u5",
        "Lim S $105 #3 u6",
        "Lim B $130 #23 u7",
    ];

    let expected_log = [
        "Q #6",
        "Q #3",
        "Q #4",
        "Q #5",
        "Q #2",
        "Q #3",
        "F #5 $105 u4",
        "F #3 $105 u6",
        "F #6 $110 u1",
        "F #2 $110 u5",
        "F #4 $115 u3",
        "F #3 $120 u2",
    ];

    let mut logger = VectorLogger::new();
    let mut book = OrderBook::new();
    for s in &orders {
        book.execute_order(s.parse().unwrap(), &mut logger);
    }
    check_bid_len(&book, 0);
    check_ask_len(&book, 0);

    check_log(logger.as_slice(), &expected_log);
}

#[test]
fn test_matching2() {
    let orders = [
        "Lim S $120 #1 u1",
        "Lim S $115 #4 u2",
        "Lim B $108 #3 u3",
        "Lim S $105 #5 u4",
        "Lim S $105 #6 u5",
        "Lim B $110 #5 u6",
        "Lim B $113 #2 u7",
        "Lim B $118 #6 u8",
    ];

    let expected_log = [
        "Q #1",
        "Q #4",
        "Q #3",
        // Lim S $105 #5 u4
        "F #3 $108 u3",
        "Q #2",
        // Lim S $105 #6 u5
        "Q #6",
        // Lim B $110 #5 u6
        "F #2 $105 u4",
        "F #3 $105 u5",
        // Lim B $113 #2 u7
        "F #2 $105 u5",
        // Lim B $118 #6 u8
        "F #1 $105 u5",
        "F #4 $115 u2",
        "Q #1",
    ];

    let mut logger = VectorLogger::new();
    let mut book = OrderBook::new();
    for s in &orders {
        book.execute_order(s.parse().unwrap(), &mut logger);
    }

    check_bid_list(&book, &["Lim B $118 #1 u8"]);
    check_ask_list(&book, &["Lim S $120 #1 u1"]);

    check_log(logger.as_slice(), &expected_log);
}

#[test]
fn matching_with_20_orders() {
    let orders = create_orders();
    let mut book = OrderBook::from_vec(orders);
    let mut logger = DummyLogger;
    check_bid_len(&book, 3500);
    check_ask_len(&book, 3500);

    let order = IncomingOrder {
        price_limit: 10020,
        size: 200,
        user_id: 0,
        kind: OrderKind::Limit,
        side: OrderSide::Buy,
    };
    book.execute_order(order, &mut logger);
    check_bid_len(&book, 3500);
    check_ask_len(&book, 3500 - 20);
}

#[test]
fn create_orders_alternates_asks_and_bids() {
    let orders = create_orders();
    assert_eq!(orders.len(), 7000);
    assert_eq!(orders[0].to_string(), "Lim S $10001 #10 u11");
    assert_eq!(orders[1].to_string(), "Lim B $10000 #10 u12");
    assert_eq!(orders[6998].to_string(), "Lim S $13500 #10 u7009");
    assert_eq!(orders[6999].to_string(), "Lim B $6501 #10 u7010");
}

#[test]
fn limit_order_trades_then_rests() {
    let mut book = from_orders(&["Lim S $105 #5 u4", "Lim S $110 #2 u5"]);
    let log = run(&mut book, "Lim B $107 #8 u9");
    assert_eq!(log, vec!["F #5 $105 u4", "Q #3"]);
    check_ask_list(&book, &["Lim S $110 #2 u5"]);
    check_bid_list(&book, &["Lim B $107 #3 u9"]);
}

#[test]
fn trade_is_at_the_resting_price() {
    let mut book = from_orders(&["Lim B $120 #4 u1"]);
    let log = run(&mut book, "Lim S $100 #4 u2");
    assert_eq!(log, vec!["F #4 $120 u1"]);
    check_bid_len(&book, 0);
    check_ask_len(&book, 0);
}

#[test]
fn partial_fill_leaves_resting_order_in_front() {
    let mut book = from_orders(&["Lim S $100 #10 u1", "Lim S $100 #7 u2"]);
    let log = run(&mut book, "IoC B $100 #4 u3");
    assert_eq!(log, vec!["F #4 $100 u1"]);
    check_ask_list(&book, &["Lim S $100 #6 u1", "Lim S $100 #7 u2"]);
}

#[test]
fn passed_over_orders_stay_in_front_of_a_partial_fill() {
    let mut book = from_orders(&["Lim S $100 #1 u0", "Lim S $101 #9 u1", "Lim S $102 #1 u0"]);
    let log = run(&mut book, "IoC B $105 #4 u0");
    assert_eq!(log, vec!["F #4 $101 u1"]);
    check_ask_list(&book, &["Lim S $100 #1 u0", "Lim S $101 #5 u1", "Lim S $102 #1 u0"]);
}

#[test]
fn fill_or_kill_with_only_own_orders_is_killed() {
    let mut book = from_orders(&["Lim S $100 #5 u7", "Lim S $101 #5 u7"]);
    let log = run(&mut book, "FoK B $105 #3 u7");
    assert_eq!(log, vec!["C #3"]);
    check_ask_list(&book, &["Lim S $100 #5 u7", "Lim S $101 #5 u7"]);
    check_bid_len(&book, 0);
}

#[test]
fn fill_or_kill_forgets_earlier_reports_of_the_logger() {
    let mut book = from_orders(&["Lim B $100 #1 u1"]);
    let mut logger = VectorLogger::new();
    book.execute_order("Lim B $99 #1 u2".parse().unwrap(), &mut logger);
    check_log(logger.as_slice(), &["Q #1"]);
    book.execute_order("FoK S $99 #5 u3".parse().unwrap(), &mut logger);
    check_log(logger.as_slice(), &["C #5"]);
    check_bid_list(&book, &["Lim B $100 #1 u1", "Lim B $99 #1 u2"]);
}

#[test]
fn resting_behind_own_orders_leaves_the_book_crossed() {
    let book = from_orders(&["Lim S $90 #1 u0", "Lim B $100 #2 u0"]);
    check_ask_list(&book, &["Lim S $90 #1 u0"]);
    check_bid_list(&book, &["Lim B $100 #2 u0"]);
}

#[test]
fn sizes_are_conserved() {
    let mut book = from_orders(&["Lim S $100 #3 u1", "Lim S $101 #4 u2", "Lim S $102 #5 u3"]);
    let before: u64 = book.to_vec().iter().map(|order| order.size).sum();
    let mut logger = VectorLogger::new();
    book.execute_order("IoC B $101 #9 u9".parse().unwrap(), &mut logger);
    let traded: u64 = logger
        .as_slice()
        .iter()
        .map(|item| match item {
            LogItem::Fulfilled { size, .. } => *size,
            _ => 0,
        })
        .sum();
    let after: u64 = book.to_vec().iter().map(|order| order.size).sum();
    assert_eq!(traded, 7);
    assert_eq!(before - after, 7);
    check_log(logger.as_slice(), &["F #3 $100 u1", "F #4 $101 u2", "C #2"]);
}

#[test]
fn no_trade_with_own_user() {
    let mut book = from_orders(&["Lim S $100 #3 u1", "Lim S $100 #4 u2", "Lim S $100 #5 u1"]);
    let mut logger = VectorLogger::new();
    book.execute_order("Lim B $100 #9 u1".parse().unwrap(), &mut logger);
    for item in logger.as_slice() {
        if let LogItem::Fulfilled { user_id, .. } = item {
            assert_ne!(*user_id, 1);
        }
    }
    check_log(logger.as_slice(), &["F #4 $100 u2", "Q #5"]);
}

#[test]
fn to_vec_lists_bids_then_asks_best_first() {
    let book = from_orders(&[
        "Lim B $100 #1 u1",
        "Lim S $110 #2 u2",
        "Lim B $101 #3 u3",
        "Lim S $105 #4 u4",
        "Lim B $101 #5 u5",
    ]);
    assert_eq!(
        listing(&book),
        vec![
            "Lim B $101 #3 u3",
            "Lim B $101 #5 u5",
            "Lim B $100 #1 u1",
            "Lim S $105 #4 u4",
            "Lim S $110 #2 u2",
        ]
    );
}

#[test]
fn listing_replayed_gives_the_book_again() {
    let book = from_orders(&[
        "Lim B $103 #1 u3",
        "Lim B $102 #1 u0",
        "Lim B $102 #1 u2",
        "Lim B $101 #1 u1",
        "Lim B $100 #1 u0",
        "Lim S $90 #5 u0",
        "Lim S $120 #7 u4",
        "Lim S $120 #8 u5",
    ]);
    let again = OrderBook::from_vec(book.to_vec());
    assert_eq!(listing(&again), listing(&book));
    assert_eq!(
        listing(&book),
        vec![
            "Lim B $102 #1 u0",
            "Lim B $100 #1 u0",
            "Lim S $90 #2 u0",
            "Lim S $120 #7 u4",
            "Lim S $120 #8 u5",
        ]
    );
}

#[test]
fn clone_of_a_book_is_independent() {
    let mut book = from_orders(&["Lim B $100 #1 u1"]);
    let copy = book.clone();
    let log = run(&mut book, "Lim S $100 #1 u2");
    assert_eq!(log, vec!["F #1 $100 u1"]);
    check_bid_len(&book, 0);
    check_bid_list(&copy, &["Lim B $100 #1 u1"]);
}

#[test]
fn book_to_string_shows_asks_above_bids() {
    let book = from_orders(&[
        "Lim B $100 #1 u1",
        "Lim B $101 #3 u3",
        "Lim S $110 #2 u2",
        "Lim S $105 #4 u4",
    ]);
    assert_eq!(
        book.to_string(),
        "== ORDER BOOK START\n\
         Lim S $110 #2 u2\n\
         Lim S $105 #4 u4\n\
         -----\n\
         Lim B $101 #3 u3\n\
         Lim B $100 #1 u1\n\
         == ORDER BOOK END\n"
    );
    assert_eq!(
        OrderBook::new().to_string(),
        "== ORDER BOOK START\n-----\n== ORDER BOOK END\n"
    );
}

fn check_invariants(book: &OrderBook) {
    let bids = book.bid();
    let asks = book.ask();
    for index in 0..bids.len() {
        assert!(bids.get(index).size > 0);
        if index + 1 < bids.len() {
            assert!(bids.get(index).price_limit >= bids.get(index + 1).price_limit);
        }
    }
    for index in 0..asks.len() {
        assert!(asks.get(index).size > 0);
        if index + 1 < asks.len() {
            assert!(asks.get(index).price_limit <= asks.get(index + 1).price_limit);
        }
    }
    for i in 0..bids.len() {
        for j in 0..asks.len() {
            if bids.get(i).price_limit >= asks.get(j).price_limit {
                assert_eq!(bids.get(i).user_id, asks.get(j).user_id);
            }
        }
    }
}

#[test]
fn invariants_hold_after_every_execution() {
    let orders = [
        "Lim S $120 #1 u1",
        "Lim S $115 #4 u2",
        "Lim B $108 #3 u3",
        "IoC B $116 #2 u2",
        "Lim S $105 #5 u4",
        "FoK B $200 #50 u9",
        "Lim S $105 #6 u5",
        "Lim B $110 #5 u6",
        "Lim B $113 #2 u5",
        "FoK S $100 #1 u7",
        "Lim B $118 #6 u8",
        "Lim S $90 #3 u8",
    ];
    let mut book = OrderBook::new();
    let mut logger = DummyLogger;
    for line in &orders {
        book.execute_order(line.parse().unwrap(), &mut logger);
        check_invariants(&book);
    }
}

#[test]
fn book_stays_uncrossed_where_no_own_order_is_passed_over() {
    let orders = [
        "Lim S $120 #1 u1",
        "Lim B $108 #3 u3",
        "Lim S $105 #5 u4",
        "Lim B $110 #5 u6",
        "IoC B $130 #1 u7",
        "Lim S $108 #9 u8",
    ];
    let mut book = OrderBook::new();
    let mut logger = DummyLogger;
    for line in &orders {
        book.execute_order(line.parse().unwrap(), &mut logger);
        if book.bid().len() > 0 && book.ask().len() > 0 {
            assert!(book.bid().get(0).price_limit < book.ask().get(0).price_limit);
        }
    }
    check_bid_len(&book, 0);
    check_ask_list(&book, &["Lim S $108 #6 u8"]);
}

#[test]
fn zero_size_limit_order_does_not_rest() {
    let mut book = OrderBook::new();
    let log = run(&mut book, "Lim B $100 #0 u1");
    assert_eq!(log.len(), 0);
    check_bid_len(&book, 0);
    check_ask_len(&book, 0);
}
