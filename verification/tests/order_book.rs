use chrono::Utc;
use limit_order_book::{BookError, Decimal, Limit, LimitOrderBook, Order, OrderType, Timestamp};

fn dec(n: i64) -> Decimal {
    Decimal::new(n, 0)
}

fn now() -> Timestamp {
    let t = Utc::now();
    Timestamp::new(t.timestamp(), t.timestamp_subsec_nanos())
}

fn has_order(limit: &Limit, id: u64) -> bool {
    limit.orders.iter().any(|o| o.exchange_id == id)
}

#[test]
fn test_limit_new() {
    let limit = Limit::new(dec(100));
    assert_eq!(limit.limit_price, dec(100));
    assert!(limit.orders.is_empty());
    assert_eq!(limit.size, dec(0));
    assert_eq!(limit.total_volume, dec(0));
    assert_eq!(limit.order_count, 0);
}

#[test]
fn test_limit_add_remove_order() {
    let mut limit = Limit::new(dec(100));
    let order1 = Order::new("tick1".into(), 1, OrderType::Bid, dec(10), dec(100), now(), now());
    let order2 = Order::new("tick2".into(), 2, OrderType::Bid, dec(20), dec(100), now(), now());
    let order3 = Order::new("tick3".into(), 3, OrderType::Ask, dec(10), dec(110), now(), now());

    // Add orders to the limit
    assert_eq!(limit.add_order(order1.clone()), Ok(()));
    assert_eq!(limit.size, dec(10));
    assert_eq!(limit.total_volume, dec(1000));
    assert_eq!(limit.order_count, 1);
    assert_eq!(limit.add_order(order2.clone()), Ok(()));
    assert_eq!(limit.size, dec(30));
    assert_eq!(limit.total_volume, dec(3000));
    assert_eq!(limit.order_count, 2);

    // Remove an order from the limit
    assert_eq!(limit.remove_order(order1.exchange_id), Ok(order1.clone()));
    assert_eq!(limit.size, dec(20));
    assert_eq!(limit.total_volume, dec(2000));
    assert_eq!(limit.order_count, 1);

    // Remove the last order from the limit
    assert_eq!(limit.remove_order(order2.exchange_id), Ok(order2.clone()));
    assert_eq!(limit.size, dec(0));
    assert_eq!(limit.total_volume, dec(0));
    assert_eq!(limit.order_count, 0);

    // Try to remove a non-existing order from the limit
    assert_eq!(limit.remove_order(order3.exchange_id), Err(BookError::OrderNotFound));
    assert_eq!(limit.size, dec(0));
    assert_eq!(limit.total_volume, dec(0));
    assert_eq!(limit.order_count, 0);
}

#[test]
fn test_limit_orderbook_new() {
    let book = LimitOrderBook::new();
    assert!(book.bids.is_empty());
    assert!(book.asks.is_empty());
    assert!(book.orders.is_empty());
    assert!(book.lowest_ask.is_none());
    assert!(book.highest_bid.is_none());
}

#[test]
fn test_limit_orderbook_add_remove_order() {
    let mut book = LimitOrderBook::new();
    let order1 = Order::new("tick1".into(), 1, OrderType::Bid, dec(10), dec(100), now(), now());
    let order2 = Order::new("tick2".into(), 2, OrderType::Ask, dec(20), dec(110), now(), now());

    // Add a bid order to the book
    assert_eq!(book.add_order(order1.clone()), Ok(()));
    assert_eq!(book.bids.len(), 1);
    assert_eq!(book.asks.len(), 0);
    assert_eq!(book.orders.len(), 1);
    assert_eq!(book.lowest_ask, None);
    assert_eq!(book.highest_bid, Some(dec(100)));

    // Add an ask order to the book
    assert_eq!(book.add_order(order2.clone()), Ok(()));
    assert_eq!(book.bids.len(), 1);
    assert_eq!(book.asks.len(), 1);
    assert_eq!(book.orders.len(), 2);
    assert_eq!(book.lowest_ask, Some(dec(110)));
    assert_eq!(book.highest_bid, Some(dec(100)));

    // Remove the bid order from the book
    assert_eq!(book.remove_order(order1.exchange_id), Ok(order1.clone()));
    assert_eq!(book.bids.len(), 0);
    assert_eq!(book.asks.len(), 1);
    assert_eq!(book.orders.len(), 1);
    assert_eq!(book.lowest_ask, Some(dec(110)));
    assert_eq!(book.highest_bid, None);

    // Remove the ask order from the book
    assert_eq!(book.remove_order(order2.exchange_id), Ok(order2.clone()));
    assert_eq!(book.bids.len(), 0);
    assert_eq!(book.asks.len(), 0);
    assert_eq!(book.orders.len(), 0);
    assert_eq!(book.lowest_ask, None);
    assert_eq!(book.highest_bid, None);

    // Try to remove a non-existing order from the book
    assert_eq!(book.remove_order(order1.exchange_id), Err(BookError::OrderNotFound));
    assert_eq!(book.bids.len(), 0);
    assert_eq!(book.asks.len(), 0);
    assert_eq!(book.orders.len(), 0);
    assert_eq!(book.lowest_ask, None);
    assert_eq!(book.highest_bid, None);
}

#[test]
fn test_add_order() {
    let mut lob = LimitOrderBook::new();

    let bid = Order::new("tick1".to_string(), 1, OrderType::Bid, dec(10), dec(100), now(), now());
    assert_eq!(lob.add_order(bid.clone()), Ok(()));

    let ask = Order::new("tick2".to_string(), 2, OrderType::Ask, dec(5), dec(200), now(), now());
    assert_eq!(lob.add_order(ask.clone()), Ok(()));

    assert_eq!(lob.bids.len(), 1);
    assert_eq!(lob.asks.len(), 1);

    let bid_limit = &lob.bids[0];
    assert_eq!(bid_limit.orders.len(), 1);
    assert!(has_order(bid_limit, 1));
    assert_eq!(bid_limit.size, dec(10));
    assert_eq!(bid_limit.total_volume, dec(1000));
    assert_eq!(bid_limit.order_count, 1);

    let ask_limit = &lob.asks[0];
    assert_eq!(ask_limit.orders.len(), 1);
    assert!(has_order(ask_limit, 2));
    assert_eq!(ask_limit.size, dec(5));
    assert_eq!(ask_limit.total_volume, dec(1000));
    assert_eq!(ask_limit.order_count, 1);

    assert_eq!(lob.lowest_ask, Some(dec(200)));
    assert_eq!(lob.highest_bid, Some(dec(100)));
}

#[test]
fn test_remove_order() {
    let mut lob = LimitOrderBook::new();

    let bid1 = Order::new("tick1".to_string(), 1, OrderType::Bid, dec(10), dec(100), now(), now());
    assert_eq!(lob.add_order(bid1.clone()), Ok(()));

    let bid2 = Order::new("tick2".to_string(), 2, OrderType::Bid, dec(5), dec(100), now(), now());
    assert_eq!(lob.add_order(bid2.clone()), Ok(()));

    let ask1 = Order::new("tick3".to_string(), 3, OrderType::Ask, dec(5), dec(200), now(), now());
    assert_eq!(lob.add_order(ask1.clone()), Ok(()));

    let ask2 = Order::new("tick4".to_string(), 4, OrderType::Ask, dec(2), dec(200), now(), now());
    assert_eq!(lob.add_order(ask2.clone()), Ok(()));
    println!("{:#?}", lob);

    assert_eq!(lob.remove_order(bid1.exchange_id), Ok(bid1.clone()));

    println!("{:#?}", lob);

    assert_eq!(lob.bids.len(), 1);
    assert_eq!(lob.asks.len(), 1);

    let bid_limit = &lob.bids[0];
    assert_eq!(bid_limit.orders.len(), 1);
    assert!(has_order(bid_limit, 2));
    assert_eq!(bid_limit.size, dec(5));
    assert_eq!(bid_limit.total_volume, dec(500));
    assert_eq!(bid_limit.order_count, 1);

    let ask_limit = &lob.asks[0];
    assert_eq!(ask_limit.orders.len(), 2);
    assert!(has_order(ask_limit, 3));
    assert_eq!(ask_limit.size, dec(7));
    assert_eq!(ask_limit.total_volume, dec(1400));
    assert_eq!(ask_limit.order_count, 2);

    assert_eq!(lob.lowest_ask, Some(dec(200)));
    assert_eq!(lob.highest_bid, Some(dec(100)));
}

#[test]
fn test_execute_order() {
    let mut book = LimitOrderBook::new();

    let order1 = Order::new("tick1".to_string(), 1, OrderType::Bid, dec(100), dec(10), now(), now());
    assert_eq!(book.add_order(order1.clone()), Ok(()));

    let order2 = Order::new("tick2".to_string(), 2, OrderType::Bid, dec(50), dec(10), now(), now());
    assert_eq!(book.add_order(order2.clone()), Ok(()));

    let order3 = Order::new("tick3".to_string(), 3, OrderType::Ask, dec(75), dec(9), now(), now());
    assert_eq!(book.add_order(order3.clone()), Ok(()));

    let order4 = Order::new("tick4".to_string(), 4, OrderType::Ask, dec(100), dec(8), now(), now());
    assert_eq!(book.add_order(order4.clone()), Ok(()));

    let order5 = Order::new("tick5".to_string(), 5, OrderType::Bid, dec(200), dec(10), now(), now());

    let done = book.execute_order(order5.clone()).unwrap();

    // The taker takes the 100 at 8 and then the 75 at 9; the 25 that are left
    // of it come to rest with the bids at 10.
    assert_eq!(done.fills.len(), 2);
    assert_eq!(done.fills[0].maker_id, 4);
    assert_eq!(done.fills[0].taker_id, 5);
    assert_eq!(done.fills[0].price, dec(8));
    assert_eq!(done.fills[0].quantity, dec(100));
    assert_eq!(done.fills[1].maker_id, 3);
    assert_eq!(done.fills[1].price, dec(9));
    assert_eq!(done.fills[1].quantity, dec(75));
    assert_eq!(done.remaining, dec(25));

    assert_eq!(book.bids.len(), 1);
    assert_eq!(book.asks.len(), 0);
    assert_eq!(book.orders.len(), 3);
    assert_eq!(book.lowest_ask, None);
    assert_eq!(book.highest_bid, Some(dec(10)));
    assert_eq!(book.get_bid_depth(dec(10)), dec(175));
    assert_eq!(book.get_bid_count(dec(10)), 3);
    assert_eq!(book.get_order(5).unwrap().shares, dec(25));
}
