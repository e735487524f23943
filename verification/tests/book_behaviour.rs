use limit_order_book::{
    BookError, Decimal, Limit, LimitOrderBook, Order, OrderType, Timestamp,
};

fn dec(n: i64) -> Decimal {
    Decimal::new(n, 0)
}

fn at(seconds: i64) -> Timestamp {
    Timestamp::new(seconds, 0)
}

fn order(id: u64, side: OrderType, shares: i64, price: i64, entered: i64) -> Order {
    Order::new(format!("tick{}", id), id, side, dec(shares), dec(price), at(entered), at(entered))
}

fn bid(id: u64, shares: i64, price: i64) -> Order {
    order(id, OrderType::Bid, shares, price, id as i64)
}

fn ask(id: u64, shares: i64, price: i64) -> Order {
    order(id, OrderType::Ask, shares, price, id as i64)
}

fn ids(limit: &Limit) -> Vec<u64> {
    limit.orders.iter().map(|o| o.exchange_id).collect()
}

fn count_of_levels(book: &LimitOrderBook) -> u64 {
    let bids: u64 = book.bids.iter().map(|l| l.order_count).sum();
    let asks: u64 = book.asks.iter().map(|l| l.order_count).sum();
    bids + asks
}

fn levels_with(book: &LimitOrderBook, id: u64) -> usize {
    book.bids.iter().chain(book.asks.iter()).filter(|l| l.orders.iter().any(|o| o.exchange_id == id)).count()
}

#[test]
fn index_size_is_the_sum_of_the_order_counts() {
    let mut book = LimitOrderBook::new();
    assert_eq!(book.orders.len() as u64, count_of_levels(&book));
    let orders = vec![bid(1, 10, 100), bid(2, 5, 100), bid(3, 7, 99), ask(4, 3, 101), ask(5, 4, 103), ask(6, 1, 101)];
    for (n, o) in orders.into_iter().enumerate() {
        assert_eq!(book.add_order(o), Ok(()));
        assert_eq!(book.orders.len(), n + 1);
        assert_eq!(book.orders.len() as u64, count_of_levels(&book));
    }
    assert_eq!(book.bids.len(), 2);
    assert_eq!(book.asks.len(), 2);
}

#[test]
fn levels_stay_non_empty_and_orders_stay_in_one_level() {
    let mut book = LimitOrderBook::new();
    for o in vec![bid(1, 10, 100), bid(2, 5, 100), bid(3, 7, 99), ask(4, 3, 101), ask(5, 4, 103)] {
        assert_eq!(book.add_order(o), Ok(()));
    }
    for id in [2u64, 3, 4, 1] {
        assert!(book.remove_order(id).is_ok());
        for level in book.bids.iter().chain(book.asks.iter()) {
            assert!(level.size.is_positive());
            assert!(level.order_count > 0);
            assert!(!level.is_empty());
        }
        for key in book.orders.keys() {
            assert_eq!(levels_with(&book, *key), 1);
        }
        assert_eq!(levels_with(&book, id), 0);
        assert_eq!(book.orders.len() as u64, count_of_levels(&book));
    }
    assert_eq!(book.bids.len(), 0);
    assert_eq!(book.asks.len(), 1);
}

#[test]
fn submit_then_cancel_restores_the_level() {
    let mut book = LimitOrderBook::new();
    for o in vec![bid(1, 10, 100), bid(2, 5, 100), ask(3, 4, 103)] {
        assert_eq!(book.add_order(o), Ok(()));
    }
    let depth = book.get_bid_depth(dec(100));
    let volume = book.get_bid_volume(dec(100));
    let count = book.get_bid_count(dec(100));
    let best_bid = book.get_best_bid();
    let best_ask = book.get_best_ask();

    assert_eq!(book.add_order(bid(9, 7, 100)), Ok(()));
    assert_eq!(book.get_bid_depth(dec(100)), dec(22));
    assert_eq!(book.get_bid_volume(dec(100)), dec(2200));
    assert_eq!(book.get_bid_count(dec(100)), 3);
    assert_eq!(book.remove_order(9).map(|o| o.exchange_id), Ok(9));

    assert_eq!(book.get_bid_depth(dec(100)), depth);
    assert_eq!(book.get_bid_volume(dec(100)), volume);
    assert_eq!(book.get_bid_count(dec(100)), count);
    assert_eq!(book.get_best_bid(), best_bid);
    assert_eq!(book.get_best_ask(), best_ask);
    assert_eq!(ids(&book.bids[0]), vec![1, 2]);
}

#[test]
fn submit_then_cancel_restores_a_book_without_the_level() {
    let mut book = LimitOrderBook::new();
    assert_eq!(book.add_order(bid(1, 10, 100)), Ok(()));
    assert_eq!(book.add_order(ask(2, 3, 105)), Ok(()));
    assert_eq!(book.add_order(ask(9, 7, 104)), Ok(()));
    assert_eq!(book.get_best_ask(), Some(dec(104)));
    assert!(book.remove_order(9).is_ok());
    assert_eq!(book.get_best_ask(), Some(dec(105)));
    assert_eq!(book.get_best_bid(), Some(dec(100)));
    assert_eq!(book.asks.len(), 1);
    assert_eq!(book.get_ask_depth(dec(104)), dec(0));
    assert_eq!(book.get_ask_volume(dec(104)), dec(0));
    assert_eq!(book.get_ask_count(dec(104)), 0);
}

#[test]
fn taker_of_the_whole_best_level_removes_it() {
    let mut book = LimitOrderBook::new();
    for o in vec![ask(1, 10, 101), ask(2, 5, 101), ask(3, 4, 103)] {
        assert_eq!(book.add_order(o), Ok(()));
    }
    let done = book.execute_order(bid(9, 15, 110)).unwrap();
    assert_eq!(done.fills.len(), 2);
    assert_eq!(done.remaining, dec(0));
    assert_eq!(book.asks.len(), 1);
    assert_eq!(book.get_best_ask(), Some(dec(103)));
    assert_eq!(book.get_ask_depth(dec(101)), dec(0));
    assert_eq!(book.get_ask_depth(dec(103)), dec(4));
    assert_eq!(book.bids.len(), 0);
    assert!(book.get_order(9).is_none());
    assert!(book.get_order(1).is_none());
    assert!(book.get_order(2).is_none());
}

#[test]
fn taker_of_part_of_the_best_level_leaves_it_in_place() {
    let mut book = LimitOrderBook::new();
    for o in vec![ask(1, 10, 101), ask(2, 5, 101), ask(3, 4, 103)] {
        assert_eq!(book.add_order(o), Ok(()));
    }
    let done = book.execute_order(bid(9, 12, 110)).unwrap();
    assert_eq!(done.fills.len(), 2);
    assert_eq!(done.fills[0].maker_id, 1);
    assert_eq!(done.fills[0].quantity, dec(10));
    assert_eq!(done.fills[1].maker_id, 2);
    assert_eq!(done.fills[1].quantity, dec(2));
    assert_eq!(done.fills[1].price, dec(101));
    assert_eq!(done.remaining, dec(0));
    assert_eq!(book.asks.len(), 2);
    assert_eq!(book.get_best_ask(), Some(dec(101)));
    assert_eq!(book.get_ask_depth(dec(101)), dec(3));
    assert_eq!(book.get_ask_volume(dec(101)), dec(303));
    assert_eq!(book.get_ask_count(dec(101)), 1);
    assert_eq!(book.get_order(2).unwrap().shares, dec(3));
    assert_eq!(book.asks[0].orders[0].shares, dec(3));
    assert_eq!(book.orders.len(), 2);
}

#[test]
fn cancel_one_of_two_bids_at_a_price() {
    let mut book = LimitOrderBook::new();
    assert_eq!(book.add_order(bid(1, 10, 100)), Ok(()));
    assert_eq!(book.add_order(bid(2, 20, 100)), Ok(()));
    assert_eq!(book.get_best_bid(), Some(dec(100)));
    assert_eq!(book.get_bid_depth(dec(100)), dec(30));
    assert!(book.remove_order(1).is_ok());
    assert_eq!(book.get_bid_depth(dec(100)), dec(20));
    assert_eq!(book.get_bid_count(dec(100)), 1);
    assert_eq!(book.get_best_bid(), Some(dec(100)));
}

#[test]
fn limit_taker_rests_what_is_left_in_the_level_at_its_price() {
    let mut book = LimitOrderBook::new();
    for o in vec![bid(1, 100, 10), bid(2, 50, 10), ask(3, 75, 9), ask(4, 100, 8)] {
        assert_eq!(book.add_order(o), Ok(()));
    }
    let done = book.execute_order(bid(5, 200, 10)).unwrap();
    assert_eq!(done.remaining, dec(25));
    assert_eq!(book.get_bid_depth(dec(10)), dec(175));
    assert_eq!(book.get_bid_volume(dec(10)), dec(1750));
    assert_eq!(ids(&book.bids[0]), vec![1, 2, 5]);
    assert_eq!(book.asks.len(), 0);
    assert_eq!(book.get_best_ask(), None);
}

#[test]
fn spread_and_mid_need_both_sides() {
    let mut book = LimitOrderBook::new();
    assert_eq!(book.get_spread(), None);
    assert_eq!(book.get_mid_price(), None);
    assert_eq!(book.add_order(bid(1, 10, 100)), Ok(()));
    assert_eq!(book.get_spread(), None);
    assert_eq!(book.get_mid_price(), None);
    assert_eq!(book.add_order(ask(2, 10, 103)), Ok(()));
    assert_eq!(book.get_spread(), Some(dec(3)));
    assert_eq!(book.get_mid_price(), Some(Decimal::new(1015, 1)));
    assert!(book.remove_order(1).is_ok());
    assert_eq!(book.get_spread(), None);
    assert_eq!(book.get_mid_price(), None);
    assert_eq!(book.add_order(bid(3, 10, 99)), Ok(()));
    assert_eq!(book.get_spread(), Some(dec(4)));
    assert_eq!(book.get_mid_price(), Some(dec(101)));
    assert!(book.remove_order(2).is_ok());
    assert_eq!(book.get_spread(), None);
    assert_eq!(book.get_mid_price(), None);
}

#[test]
fn spread_of_a_crossed_book_is_negative() {
    let mut book = LimitOrderBook::new();
    assert_eq!(book.add_order(bid(1, 10, 105)), Ok(()));
    assert_eq!(book.add_order(ask(2, 10, 100)), Ok(()));
    assert_eq!(book.get_spread(), Some(dec(-5)));
    assert_eq!(book.get_mid_price(), Some(Decimal::new(1025, 1)));
}

#[test]
fn duplicate_identifier_is_refused() {
    let mut book = LimitOrderBook::new();
    assert_eq!(book.add_order(bid(1, 10, 100)), Ok(()));
    assert_eq!(book.add_order(bid(1, 5, 99)), Err(BookError::DuplicateOrderId));
    assert_eq!(book.add_order(ask(1, 5, 101)), Err(BookError::DuplicateOrderId));
    assert_eq!(book.execute_order(ask(1, 5, 100)).err(), Some(BookError::DuplicateOrderId));
    assert_eq!(book.match_order(ask(1, 5, 100), false).err(), Some(BookError::DuplicateOrderId));
    assert_eq!(book.orders.len(), 1);
    assert_eq!(book.bids.len(), 1);
    assert_eq!(book.asks.len(), 0);
    assert_eq!(book.get_bid_depth(dec(100)), dec(10));
}

#[test]
fn unknown_identifier_is_not_found() {
    let mut book = LimitOrderBook::new();
    assert_eq!(book.add_order(bid(1, 10, 100)), Ok(()));
    assert_eq!(book.remove_order(2), Err(BookError::OrderNotFound));
    assert_eq!(book.orders.len(), 1);
    assert_eq!(book.get_bid_depth(dec(100)), dec(10));
}

#[test]
fn level_refuses_another_price() {
    let mut limit = Limit::new(dec(100));
    assert_eq!(limit.add_order(bid(1, 10, 101)), Err(BookError::PriceMismatch));
    assert_eq!(limit.order_count, 0);
    assert!(limit.is_empty());
    assert_eq!(limit.add_order(order(2, OrderType::Bid, 10, 100, 0)), Ok(()));
    assert!(!limit.is_empty());
}

#[test]
fn level_takes_its_price_in_any_scale() {
    let mut limit = Limit::new(dec(100));
    let o = Order::new("t".to_string(), 1, OrderType::Bid, Decimal::new(25, 1), Decimal::new(10000, 2), at(1), at(1));
    assert_eq!(limit.add_order(o), Ok(()));
    assert_eq!(limit.size, Decimal::new(25, 1));
    assert_eq!(limit.total_volume, dec(250));
}

#[test]
fn level_refuses_a_duplicate_identifier() {
    let mut limit = Limit::new(dec(100));
    assert_eq!(limit.add_order(bid(1, 10, 100)), Ok(()));
    assert_eq!(limit.add_order(bid(1, 20, 100)), Err(BookError::DuplicateOrderId));
    assert_eq!(limit.size, dec(10));
    assert_eq!(limit.order_count, 1);
}

#[test]
fn size_that_is_not_positive_is_refused() {
    let mut book = LimitOrderBook::new();
    assert_eq!(book.add_order(bid(1, 0, 100)), Err(BookError::InvalidSize));
    assert_eq!(book.add_order(bid(2, -5, 100)), Err(BookError::InvalidSize));
    assert_eq!(book.execute_order(bid(3, 0, 100)).err(), Some(BookError::InvalidSize));
    assert_eq!(book.match_order(bid(4, -1, 100), false).err(), Some(BookError::InvalidSize));
    assert_eq!(book.bids.len(), 0);
    assert_eq!(book.orders.len(), 0);
}

fn order_of(id: u64, side: OrderType, shares: Decimal, price: Decimal) -> Order {
    Order::new(format!("tick{}", id), id, side, shares, price, at(id as i64), at(id as i64))
}

fn largest() -> Decimal {
    Decimal::from_parts(limit_order_book::decimal::MANTISSA_LIMIT - 1, 0).unwrap()
}

#[test]
fn an_order_of_any_scale_rests() {
    let mut book = LimitOrderBook::new();
    let tiny = Decimal::new(1, 9);
    assert_eq!(book.add_order(order_of(1, OrderType::Bid, tiny, dec(1))), Ok(()));
    assert_eq!(book.get_bid_depth(dec(1)), tiny);
    assert_eq!(book.get_bid_volume(dec(1)), tiny);
    assert_eq!(book.get_bid_count(dec(1)), 1);
    assert_eq!(book.get_best_bid(), Some(dec(1)));
    let finest = Decimal::new(1, 28);
    assert_eq!(book.add_order(order_of(2, OrderType::Bid, finest, dec(1))), Ok(()));
    assert_eq!(book.get_bid_depth(dec(1)), Decimal::from_parts(10_000_000_000_000_000_001, 28).unwrap());
    assert_eq!(book.remove_order(1).map(|o| o.shares), Ok(tiny));
    assert_eq!(book.get_bid_depth(dec(1)), finest);
}

#[test]
fn an_order_of_any_size_rests() {
    let mut book = LimitOrderBook::new();
    assert_eq!(book.add_order(order_of(1, OrderType::Ask, largest(), dec(1))), Ok(()));
    assert_eq!(book.get_ask_depth(dec(1)), largest());
    assert_eq!(book.get_ask_volume(dec(1)), largest());
    let big_price = dec(1_000_000_000_000_000_000);
    assert_eq!(book.add_order(order_of(2, OrderType::Ask, dec(1_000_000), big_price)), Ok(()));
    assert_eq!(book.get_best_ask(), Some(dec(1)));
    assert_eq!(book.get_asks(), vec![dec(1), big_price]);
}

#[test]
fn level_in_a_new_level_rests_on_the_order_alone() {
    let mut limit = Limit::new(dec(3));
    assert_eq!(limit.add_order(order_of(1, OrderType::Bid, Decimal::new(25, 1), dec(3))), Ok(()));
    assert_eq!(limit.size.mantissa(), 25);
    assert_eq!(limit.size.scale(), 1);
    assert_eq!(limit.total_volume.mantissa(), 75);
    assert_eq!(limit.total_volume.scale(), 1);
}

#[test]
fn a_size_that_cannot_be_added_exactly_is_refused() {
    let mut book = LimitOrderBook::new();
    assert_eq!(book.add_order(order_of(1, OrderType::Bid, largest(), dec(1))), Ok(()));
    assert_eq!(book.add_order(order_of(2, OrderType::Bid, dec(1), dec(1))), Err(BookError::Overflow));
    assert_eq!(book.add_order(order_of(3, OrderType::Bid, Decimal::new(5, 1), dec(1))), Err(BookError::Overflow));
    assert_eq!(book.get_bid_depth(dec(1)), largest());
    assert_eq!(book.get_bid_count(dec(1)), 1);
    assert_eq!(book.orders.len(), 1);
    // at another price the same orders rest
    assert_eq!(book.add_order(order_of(2, OrderType::Bid, dec(1), dec(2))), Ok(()));
}

#[test]
fn a_notional_value_that_cannot_be_held_is_refused() {
    let mut book = LimitOrderBook::new();
    assert_eq!(book.add_order(order_of(1, OrderType::Ask, largest(), dec(2))), Err(BookError::Overflow));
    assert_eq!(book.add_order(order_of(2, OrderType::Ask, Decimal::new(1, 20), Decimal::new(1, 9))), Err(BookError::Overflow));
    assert_eq!(book.asks.len(), 0);
    assert_eq!(book.orders.len(), 0);
    let mut limit = Limit::new(dec(2));
    assert_eq!(limit.add_order(order_of(3, OrderType::Ask, largest(), dec(2))), Err(BookError::Overflow));
    assert!(limit.is_empty());
    // at price zero every size has a notional value
    assert_eq!(book.add_order(order_of(4, OrderType::Ask, largest(), dec(0))), Ok(()));
    assert_eq!(book.get_ask_volume(dec(0)), dec(0));
}

#[test]
fn taker_with_a_high_limit_takes_the_whole_level() {
    let mut book = LimitOrderBook::new();
    assert_eq!(book.add_order(ask(1, 5, 1)), Ok(()));
    let done = book.execute_order(bid(2, 5, 1_000_000_000_000)).unwrap();
    assert_eq!(done.fills.len(), 1);
    assert_eq!(done.fills[0].quantity, dec(5));
    assert_eq!(done.fills[0].price, dec(1));
    assert_eq!(done.remaining, dec(0));
    assert_eq!(book.asks.len(), 0);
    assert_eq!(book.bids.len(), 0);
    assert_eq!(book.orders.len(), 0);
}

#[test]
fn taker_with_a_high_limit_takes_part_of_the_level() {
    let mut book = LimitOrderBook::new();
    assert_eq!(book.add_order(ask(1, 5, 1)), Ok(()));
    let done = book.execute_order(bid(2, 2, 1_000_000_000_000)).unwrap();
    assert_eq!(done.fills.len(), 1);
    assert_eq!(done.fills[0].quantity, dec(2));
    assert_eq!(done.remaining, dec(0));
    assert_eq!(book.get_ask_depth(dec(1)), dec(3));
    assert_eq!(book.get_ask_volume(dec(1)), dec(3));
    assert_eq!(book.bids.len(), 0);
}

#[test]
fn taker_with_a_high_limit_rests_what_is_left() {
    let mut book = LimitOrderBook::new();
    assert_eq!(book.add_order(ask(1, 5, 1)), Ok(()));
    let done = book.execute_order(bid(2, 7, 1_000_000_000_000)).unwrap();
    assert_eq!(done.fills.len(), 1);
    assert_eq!(done.fills[0].quantity, dec(5));
    assert_eq!(done.remaining, dec(2));
    assert_eq!(book.asks.len(), 0);
    assert_eq!(book.get_best_bid(), Some(dec(1_000_000_000_000)));
    assert_eq!(book.get_bid_depth(dec(1_000_000_000_000)), dec(2));
    assert_eq!(book.get_bid_volume(dec(1_000_000_000_000)), dec(2_000_000_000_000));
}

#[test]
fn taker_that_is_filled_whole_need_not_be_able_to_rest() {
    let mut book = LimitOrderBook::new();
    assert_eq!(book.add_order(order_of(1, OrderType::Bid, largest(), dec(10))), Err(BookError::Overflow));
    assert_eq!(book.add_order(order_of(1, OrderType::Bid, largest(), dec(1))), Ok(()));
    assert_eq!(book.add_order(ask(2, 5, 1)), Ok(()));
    // a bid of 5 at 1 could not join the bids at 1, but it is filled whole
    let done = book.execute_order(bid(3, 5, 1)).unwrap();
    assert_eq!(done.fills.len(), 1);
    assert_eq!(done.remaining, dec(0));
    assert_eq!(book.asks.len(), 0);
    assert_eq!(book.get_bid_depth(dec(1)), largest());
    assert_eq!(book.orders.len(), 1);
}

#[test]
fn taker_whose_remainder_cannot_rest_is_refused() {
    let mut book = LimitOrderBook::new();
    assert_eq!(book.add_order(order_of(1, OrderType::Bid, largest(), dec(1))), Ok(()));
    assert_eq!(book.add_order(ask(2, 5, 1)), Ok(()));
    assert_eq!(book.execute_order(bid(3, 6, 1)).err(), Some(BookError::Overflow));
    assert_eq!(book.get_ask_depth(dec(1)), dec(5));
    assert_eq!(book.get_bid_depth(dec(1)), largest());
    assert_eq!(book.orders.len(), 2);
    assert!(book.get_order(3).is_none());
    // without a limit what is left is dropped
    let done = book.match_order(bid(3, 6, 1), false).unwrap();
    assert_eq!(done.remaining, dec(1));
    assert_eq!(book.asks.len(), 0);
}

#[test]
fn match_that_cannot_be_exact_is_refused() {
    let mut book = LimitOrderBook::new();
    let half = Decimal::new(5, 1);
    assert_eq!(book.add_order(order_of(1, OrderType::Ask, half, dec(1))), Ok(()));
    assert_eq!(book.add_order(order_of(2, OrderType::Ask, dec(7), dec(2))), Ok(()));
    // the largest size less one half has no exact decimal
    assert_eq!(book.match_order(order_of(3, OrderType::Bid, largest(), dec(5)), false).err(), Some(BookError::Overflow));
    assert_eq!(book.execute_order(order_of(3, OrderType::Bid, largest(), dec(5))).err(), Some(BookError::Overflow));
    assert_eq!(book.get_ask_depth(dec(1)), half);
    assert_eq!(book.get_ask_depth(dec(2)), dec(7));
    assert_eq!(book.orders.len(), 2);
    // a taker that stops short of the half trades
    let done = book.match_order(order_of(4, OrderType::Bid, Decimal::new(25, 2), dec(5)), false).unwrap();
    assert_eq!(done.fills[0].quantity, Decimal::new(25, 2));
    assert_eq!(book.get_ask_depth(dec(1)), Decimal::new(25, 2));
}

#[test]
fn a_fine_taker_against_a_large_level_is_refused() {
    let mut book = LimitOrderBook::new();
    assert_eq!(book.add_order(order_of(1, OrderType::Ask, largest(), dec(1))), Ok(()));
    // the largest size less one half has no exact decimal
    let half = Decimal::new(5, 1);
    assert_eq!(book.match_order(order_of(2, OrderType::Bid, half, dec(1)), false).err(), Some(BookError::Overflow));
    assert_eq!(book.get_ask_depth(dec(1)), largest());
    let done = book.match_order(order_of(2, OrderType::Bid, dec(1), dec(1)), false).unwrap();
    assert_eq!(done.remaining, dec(0));
    assert_eq!(book.get_order(1).unwrap().shares.mantissa(), limit_order_book::decimal::MANTISSA_LIMIT - 2);
}

#[test]
fn spread_that_cannot_be_held_is_none() {
    let mut book = LimitOrderBook::new();
    assert_eq!(book.add_order(order_of(1, OrderType::Ask, dec(1), largest())), Ok(()));
    assert_eq!(book.add_order(order_of(2, OrderType::Bid, dec(1), Decimal::new(5, 1))), Ok(()));
    assert_eq!(book.get_spread(), None);
    assert_eq!(book.get_mid_price(), None);
    assert_eq!(book.get_best_ask(), Some(largest()));
    assert_eq!(book.get_best_bid(), Some(Decimal::new(5, 1)));
}

#[test]
fn orders_queue_by_entry_time() {
    let mut limit = Limit::new(dec(100));
    assert_eq!(limit.add_order(order(1, OrderType::Bid, 1, 100, 50)), Ok(()));
    assert_eq!(limit.add_order(order(2, OrderType::Bid, 1, 100, 30)), Ok(()));
    assert_eq!(limit.add_order(order(3, OrderType::Bid, 1, 100, 50)), Ok(()));
    assert_eq!(limit.add_order(order(4, OrderType::Bid, 1, 100, 40)), Ok(()));
    assert_eq!(limit.add_order(order(5, OrderType::Bid, 1, 100, 60)), Ok(()));
    assert_eq!(limit.add_order(order(6, OrderType::Bid, 1, 100, 30)), Ok(()));
    assert_eq!(ids(&limit), vec![2, 6, 4, 1, 3, 5]);
}

#[test]
fn nanoseconds_count_in_the_entry_time() {
    let mut limit = Limit::new(dec(100));
    let late = Order::new("a".to_string(), 1, OrderType::Bid, dec(1), dec(100), Timestamp::new(5, 900), Timestamp::new(5, 900));
    let early = Order::new("b".to_string(), 2, OrderType::Bid, dec(1), dec(100), Timestamp::new(5, 100), Timestamp::new(5, 100));
    assert_eq!(limit.add_order(late), Ok(()));
    assert_eq!(limit.add_order(early), Ok(()));
    assert_eq!(ids(&limit), vec![2, 1]);
    assert!(Timestamp::new(5, 100).le(&Timestamp::new(5, 100)));
    assert!(Timestamp::new(4, 999).le(&Timestamp::new(5, 0)));
    assert!(!Timestamp::new(5, 1).le(&Timestamp::new(5, 0)));
}

#[test]
fn matching_takes_the_earliest_order_first() {
    let mut book = LimitOrderBook::new();
    assert_eq!(book.add_order(order(1, OrderType::Ask, 10, 100, 50)), Ok(()));
    assert_eq!(book.add_order(order(2, OrderType::Ask, 10, 100, 30)), Ok(()));
    assert_eq!(book.add_order(order(3, OrderType::Ask, 10, 100, 40)), Ok(()));
    let done = book.execute_order(order(9, OrderType::Bid, 25, 100, 99)).unwrap();
    let makers: Vec<u64> = done.fills.iter().map(|f| f.maker_id).collect();
    assert_eq!(makers, vec![2, 3, 1]);
    assert_eq!(done.fills[2].quantity, dec(5));
    assert_eq!(book.get_order(1).unwrap().shares, dec(5));
    assert_eq!(book.get_ask_depth(dec(100)), dec(5));
}

#[test]
fn asks_take_the_highest_bid_first() {
    let mut book = LimitOrderBook::new();
    for o in vec![bid(1, 10, 98), bid(2, 10, 100), bid(3, 10, 99), bid(4, 10, 97)] {
        assert_eq!(book.add_order(o), Ok(()));
    }
    let done = book.execute_order(ask(9, 25, 99)).unwrap();
    let makers: Vec<u64> = done.fills.iter().map(|f| f.maker_id).collect();
    assert_eq!(makers, vec![2, 3]);
    assert_eq!(done.fills[0].price, dec(100));
    assert_eq!(done.fills[1].price, dec(99));
    assert_eq!(done.remaining, dec(5));
    assert_eq!(book.get_best_bid(), Some(dec(98)));
    assert_eq!(book.get_best_ask(), Some(dec(99)));
    assert_eq!(book.get_ask_depth(dec(99)), dec(5));
    assert_eq!(book.get_order(9).unwrap().shares, dec(5));
    assert_eq!(book.get_bids(), vec![dec(97), dec(98)]);
}

#[test]
fn limit_taker_that_meets_no_price_rests_whole() {
    let mut book = LimitOrderBook::new();
    assert_eq!(book.add_order(ask(1, 10, 101)), Ok(()));
    let done = book.execute_order(bid(9, 7, 100)).unwrap();
    assert_eq!(done.fills.len(), 0);
    assert_eq!(done.remaining, dec(7));
    assert_eq!(book.get_best_bid(), Some(dec(100)));
    assert_eq!(book.get_best_ask(), Some(dec(101)));
    assert_eq!(book.orders.len(), 2);
}

#[test]
fn taker_on_an_empty_side_rests_or_is_dropped() {
    let mut book = LimitOrderBook::new();
    let done = book.match_order(bid(1, 7, 100), false).unwrap();
    assert_eq!(done.fills.len(), 0);
    assert_eq!(done.remaining, dec(7));
    assert_eq!(book.orders.len(), 0);
    assert_eq!(book.bids.len(), 0);
    let done = book.match_order(bid(2, 7, 100), true).unwrap();
    assert_eq!(done.fills.len(), 0);
    assert_eq!(book.orders.len(), 1);
    assert_eq!(book.get_bid_depth(dec(100)), dec(7));
}

#[test]
fn market_taker_trades_at_any_price_and_drops_what_is_left() {
    let mut book = LimitOrderBook::new();
    for o in vec![ask(1, 10, 101), ask(2, 10, 150), ask(3, 10, 1000)] {
        assert_eq!(book.add_order(o), Ok(()));
    }
    let done = book.match_order(bid(9, 35, 1), false).unwrap();
    let prices: Vec<Decimal> = done.fills.iter().map(|f| f.price).collect();
    assert_eq!(prices, vec![dec(101), dec(150), dec(1000)]);
    assert_eq!(done.remaining, dec(5));
    assert_eq!(book.asks.len(), 0);
    assert_eq!(book.bids.len(), 0);
    assert_eq!(book.orders.len(), 0);
    assert_eq!(book.get_best_ask(), None);
    assert_eq!(book.get_best_bid(), None);
}

#[test]
fn market_taker_trades_whatever_its_price() {
    let mut book = LimitOrderBook::new();
    assert_eq!(book.add_order(ask(1, 10, 101)), Ok(()));
    let taker = Order::new("t".to_string(), 9, OrderType::Bid, dec(4), Decimal::new(1, 20), at(1), at(1));
    let done = book.match_order(taker, false).unwrap();
    assert_eq!(done.fills.len(), 1);
    assert_eq!(done.fills[0].quantity, dec(4));
    assert_eq!(book.get_ask_depth(dec(101)), dec(6));
}

#[test]
fn fractional_sizes_fill_exactly() {
    let mut book = LimitOrderBook::new();
    let maker = Order::new("m".to_string(), 1, OrderType::Ask, Decimal::new(10, 0), Decimal::new(10050, 2), at(1), at(1));
    assert_eq!(book.add_order(maker), Ok(()));
    let taker = Order::new("t".to_string(), 2, OrderType::Bid, Decimal::new(33333333, 8), Decimal::new(1005, 1), at(2), at(2));
    let done = book.execute_order(taker).unwrap();
    assert_eq!(done.fills.len(), 1);
    assert_eq!(done.fills[0].quantity, Decimal::new(33333333, 8));
    assert_eq!(done.remaining, dec(0));
    assert_eq!(book.get_ask_depth(Decimal::new(1005, 1)), Decimal::new(966666667, 8));
    assert_eq!(book.get_ask_volume(Decimal::new(1005, 1)), Decimal::new(971500000335, 9));
    assert_eq!(book.get_order(1).unwrap().shares, Decimal::new(966666667, 8));
}

#[test]
fn queries_at_a_price_without_a_level_give_zero() {
    let mut book = LimitOrderBook::new();
    assert_eq!(book.add_order(bid(1, 10, 100)), Ok(()));
    assert_eq!(book.get_bid_depth(dec(99)), dec(0));
    assert_eq!(book.get_ask_depth(dec(100)), dec(0));
    assert_eq!(book.get_bid_volume(dec(99)), dec(0));
    assert_eq!(book.get_ask_volume(dec(100)), dec(0));
    assert_eq!(book.get_bid_count(dec(99)), 0);
    assert_eq!(book.get_ask_count(dec(100)), 0);
    assert!(book.get_bid_orders(dec(99)).is_empty());
    assert!(book.get_ask_orders(dec(100)).is_empty());
    assert_eq!(book.get_volume_at_price(dec(99)), None);
}

#[test]
fn queries_at_a_price_give_the_level() {
    let mut book = LimitOrderBook::new();
    for o in vec![bid(1, 10, 100), bid(2, 5, 100), ask(3, 4, 100), ask(4, 2, 102)] {
        assert_eq!(book.add_order(o), Ok(()));
    }
    assert_eq!(book.get_bid_depth(dec(100)), dec(15));
    assert_eq!(book.get_ask_depth(dec(100)), dec(4));
    assert_eq!(book.get_bid_volume(dec(100)), dec(1500));
    assert_eq!(book.get_ask_volume(dec(102)), dec(204));
    assert_eq!(book.get_bid_count(dec(100)), 2);
    assert_eq!(book.get_ask_count(dec(102)), 1);
    let resting: Vec<u64> = book.get_bid_orders(dec(100)).iter().map(|o| o.exchange_id).collect();
    assert_eq!(resting, vec![1, 2]);
    let resting: Vec<u64> = book.get_ask_orders(dec(102)).iter().map(|o| o.exchange_id).collect();
    assert_eq!(resting, vec![4]);
    assert_eq!(book.get_volume_at_price(dec(100)), Some(dec(1900)));
    assert_eq!(book.get_volume_at_price(dec(102)), Some(dec(204)));
    assert_eq!(book.get_volume_at_price(dec(101)), None);
    assert_eq!(book.get_bids(), vec![dec(100)]);
    assert_eq!(book.get_asks(), vec![dec(100), dec(102)]);
    assert_eq!(book.get_order(3), Some(&ask(3, 4, 100)));
    assert_eq!(book.get_order(7), None);
}

#[test]
fn prices_are_kept_in_ascending_order() {
    let mut book = LimitOrderBook::new();
    for o in vec![bid(1, 1, 50), bid(2, 1, 70), bid(3, 1, 60), bid(4, 1, 40), ask(5, 1, 90), ask(6, 1, 80), ask(7, 1, 85)] {
        assert_eq!(book.add_order(o), Ok(()));
    }
    assert_eq!(book.get_bids(), vec![dec(40), dec(50), dec(60), dec(70)]);
    assert_eq!(book.get_asks(), vec![dec(80), dec(85), dec(90)]);
    assert_eq!(book.get_best_bid(), Some(dec(70)));
    assert_eq!(book.get_best_ask(), Some(dec(80)));
    assert_eq!(book.highest_bid, Some(dec(70)));
    assert_eq!(book.lowest_ask, Some(dec(80)));
}

#[test]
fn a_price_in_another_scale_is_the_same_level() {
    let mut book = LimitOrderBook::new();
    assert_eq!(book.add_order(bid(1, 10, 100)), Ok(()));
    let same = Order::new("t".to_string(), 2, OrderType::Bid, dec(5), Decimal::new(10000, 2), at(2), at(2));
    assert_eq!(book.add_order(same), Ok(()));
    assert_eq!(book.bids.len(), 1);
    assert_eq!(book.get_bid_depth(Decimal::new(1000, 1)), dec(15));
    assert_eq!(book.remove_order(2).map(|o| o.shares), Ok(dec(5)));
    assert_eq!(book.get_bid_depth(dec(100)), dec(10));
}

#[test]
fn negative_prices_are_prices() {
    let mut book = LimitOrderBook::new();
    assert_eq!(book.add_order(ask(1, 10, -5)), Ok(()));
    assert_eq!(book.add_order(ask(2, 10, -7)), Ok(()));
    assert_eq!(book.get_best_ask(), Some(dec(-7)));
    assert_eq!(book.get_ask_volume(dec(-7)), dec(-70));
    let done = book.execute_order(bid(9, 15, -6)).unwrap();
    assert_eq!(done.fills.len(), 1);
    assert_eq!(done.fills[0].price, dec(-7));
    assert_eq!(done.remaining, dec(5));
    assert_eq!(book.get_best_bid(), Some(dec(-6)));
    assert_eq!(book.get_best_ask(), Some(dec(-5)));
}

#[test]
fn removing_the_last_order_leaves_exact_zero() {
    let mut limit = Limit::new(Decimal::new(1005, 1));
    let a = Order::new("a".to_string(), 1, OrderType::Bid, Decimal::new(15, 1), Decimal::new(1005, 1), at(1), at(1));
    let b = Order::new("b".to_string(), 2, OrderType::Bid, Decimal::new(25, 2), Decimal::new(1005, 1), at(2), at(2));
    assert_eq!(limit.add_order(a), Ok(()));
    assert_eq!(limit.add_order(b), Ok(()));
    assert_eq!(limit.size, Decimal::new(175, 2));
    assert_eq!(limit.total_volume, Decimal::new(175875, 3));
    assert!(limit.remove_order(1).is_ok());
    assert_eq!(limit.size, Decimal::new(25, 2));
    assert_eq!(limit.total_volume, Decimal::new(25125, 3));
    assert!(limit.remove_order(2).is_ok());
    assert!(limit.size.is_zero());
    assert!(limit.total_volume.is_zero());
    assert_eq!(limit.size.mantissa(), 0);
    assert_eq!(limit.total_volume.mantissa(), 0);
    assert_eq!(limit.order_count, 0);
    assert!(limit.is_empty());
}

#[test]
fn position_is_the_place_in_the_queue() {
    let mut limit = Limit::new(dec(100));
    assert_eq!(limit.add_order(bid(1, 10, 100)), Ok(()));
    assert_eq!(limit.add_order(bid(2, 20, 100)), Ok(()));
    assert_eq!(limit.position(1), Some(0));
    assert_eq!(limit.position(2), Some(1));
    assert_eq!(limit.position(3), None);
}
