//! The matching engine on chosen books: conservation, priority, status,
//! hygiene, depth, the trade memory, and restoring stored orders.

use rust_exchange::orderbook::OrderBook;
use rust_exchange::types::{Order, OrderSide, OrderStatus, OrderType};

const SCALE: i64 = 100_000_000;

fn limit(book: &mut OrderBook, user: u128, side: OrderSide, price: i64, qty: u64) -> Order {
    book.add_order(user, price, qty, side, OrderType::Limit).unwrap().0
}

fn order(id: u128, user: u128, side: OrderSide, kind: OrderType, price: i64, qty: u64) -> Order {
    Order {
        id,
        user_id: user,
        side,
        order_type: kind,
        price,
        quantity: qty,
        status: OrderStatus::Pending,
        timestamp: 7,
    }
}

#[test]
fn new_book_is_empty() {
    let book = OrderBook::new();
    assert_eq!(book.best_bid(), None);
    assert_eq!(book.best_ask(), None);
    assert!(book.get_bids().is_empty());
    assert!(book.get_asks().is_empty());
    assert!(book.get_all_trades().is_empty());
    assert!(book.get_recent_trades(5).is_empty());
    assert!(book.get_order_by_id(1).is_none());
}

#[test]
fn sweep_conserves_quantity() {
    let mut book = OrderBook::new();
    limit(&mut book, 1, OrderSide::Sell, 100, 5);
    limit(&mut book, 2, OrderSide::Sell, 101, 7);
    limit(&mut book, 3, OrderSide::Sell, 103, 9);
    let before: u64 = book.get_asks().iter().map(|l| l.1).sum();

    let (taker, trades) = book.add_order(9, 102, 20, OrderSide::Buy, OrderType::Limit).unwrap();

    let traded: u64 = trades.iter().map(|t| t.quantity).sum();
    let after: u64 = book.get_asks().iter().map(|l| l.1).sum();
    assert_eq!(traded, 12);
    assert_eq!(traded, 20 - taker.quantity);
    assert_eq!(traded, before - after);
    assert_eq!(taker.quantity, 8);
    assert_eq!(taker.status, OrderStatus::PartiallyFilled);
    assert_eq!(book.get_asks(), vec![(103, 9)]);
    assert_eq!(book.get_bids(), vec![(102, 8)]);
}

#[test]
fn buyer_takes_lowest_prices_first() {
    let mut book = OrderBook::new();
    let high = limit(&mut book, 1, OrderSide::Sell, 105, 1);
    let low = limit(&mut book, 2, OrderSide::Sell, 100, 1);
    let mid_first = limit(&mut book, 3, OrderSide::Sell, 102, 1);
    let mid_second = limit(&mut book, 4, OrderSide::Sell, 102, 1);

    let (_, trades) = book.add_order(9, 0, 4, OrderSide::Buy, OrderType::Market).unwrap();

    let prices: Vec<i64> = trades.iter().map(|t| t.price).collect();
    assert_eq!(prices, vec![100, 102, 102, 105]);
    let makers: Vec<u128> = trades.iter().map(|t| t.maker_order_id).collect();
    assert_eq!(makers, vec![low.id, mid_first.id, mid_second.id, high.id]);
}

#[test]
fn seller_takes_highest_prices_first() {
    let mut book = OrderBook::new();
    let low = limit(&mut book, 1, OrderSide::Buy, 95, 1);
    let high_first = limit(&mut book, 2, OrderSide::Buy, 99, 1);
    let high_second = limit(&mut book, 3, OrderSide::Buy, 99, 1);

    let (taker, trades) = book.add_order(9, 95, 5, OrderSide::Sell, OrderType::Limit).unwrap();

    let prices: Vec<i64> = trades.iter().map(|t| t.price).collect();
    assert_eq!(prices, vec![99, 99, 95]);
    let makers: Vec<u128> = trades.iter().map(|t| t.maker_order_id).collect();
    assert_eq!(makers, vec![high_first.id, high_second.id, low.id]);
    assert_eq!(taker.quantity, 2);
    assert_eq!(book.get_asks(), vec![(95, 2)]);
    assert!(book.get_bids().is_empty());
}

#[test]
fn trade_is_at_the_makers_price() {
    let mut book = OrderBook::new();
    limit(&mut book, 1, OrderSide::Sell, 100, 3);
    let (_, trades) = book.add_order(2, 150, 3, OrderSide::Buy, OrderType::Limit).unwrap();
    assert_eq!(trades.len(), 1);
    assert_eq!(trades[0].price, 100);
    assert!(trades[0].quantity > 0);
}

#[test]
fn status_follows_the_remainder() {
    let mut book = OrderBook::new();
    limit(&mut book, 1, OrderSide::Sell, 100, 4);

    let (pending, _) = book.add_order(2, 99, 4, OrderSide::Buy, OrderType::Limit).unwrap();
    assert_eq!((pending.quantity, pending.status), (4, OrderStatus::Pending));

    let (partial, _) = book.add_order(3, 100, 6, OrderSide::Buy, OrderType::Limit).unwrap();
    assert_eq!((partial.quantity, partial.status), (2, OrderStatus::PartiallyFilled));

    limit(&mut book, 4, OrderSide::Sell, 101, 4);
    let (filled, _) = book.add_order(5, 101, 4, OrderSide::Buy, OrderType::Limit).unwrap();
    assert_eq!((filled.quantity, filled.status), (0, OrderStatus::Filled));
}

#[test]
fn partly_filled_maker_keeps_its_place_and_record() {
    let mut book = OrderBook::new();
    let first = limit(&mut book, 1, OrderSide::Sell, 100, 10);
    let second = limit(&mut book, 2, OrderSide::Sell, 100, 10);

    book.add_order(3, 100, 4, OrderSide::Buy, OrderType::Limit).unwrap();
    let record = book.get_order_by_id(first.id).unwrap();
    assert_eq!(record.quantity, 6);
    assert_eq!(record.status, OrderStatus::PartiallyFilled);
    assert_eq!(book.get_order_by_id(second.id).unwrap().status, OrderStatus::Pending);

    let (_, trades) = book.add_order(4, 100, 7, OrderSide::Buy, OrderType::Limit).unwrap();
    assert_eq!(trades[0].maker_order_id, first.id);
    assert_eq!(trades[0].quantity, 6);
    assert_eq!(trades[1].maker_order_id, second.id);
    assert_eq!(trades[1].quantity, 1);
}

#[test]
fn remainder_rests_at_its_own_price_behind_earlier_orders() {
    let mut book = OrderBook::new();
    let earlier = limit(&mut book, 2, OrderSide::Buy, 101, 5);
    // a stored ask that crosses the bid: restoring does not match
    assert!(book.restore_order(order(77, 1, OrderSide::Sell, OrderType::Limit, 100, 2)));
    // crosses the ask at 100 for 2, the rest joins the bids at 101
    let (later, trades) = book.add_order(3, 101, 6, OrderSide::Buy, OrderType::Limit).unwrap();
    assert_eq!(trades.len(), 1);
    assert_eq!(trades[0].price, 100);
    assert_eq!(later.quantity, 4);
    assert_eq!(book.get_bids(), vec![(101, 9)]);

    let (_, sells) = book.add_order(4, 101, 6, OrderSide::Sell, OrderType::Limit).unwrap();
    assert_eq!(sells[0].maker_order_id, earlier.id);
    assert_eq!(sells[0].quantity, 5);
    assert_eq!(sells[1].maker_order_id, later.id);
    assert_eq!(sells[1].quantity, 1);
}

#[test]
fn depth_sums_each_level_in_traversal_order() {
    let mut book = OrderBook::new();
    limit(&mut book, 1, OrderSide::Buy, 98, 1);
    limit(&mut book, 2, OrderSide::Buy, 99, 2);
    limit(&mut book, 3, OrderSide::Buy, 98, 4);
    limit(&mut book, 4, OrderSide::Sell, 101, 8);
    limit(&mut book, 5, OrderSide::Sell, 100, 16);
    limit(&mut book, 6, OrderSide::Sell, 101, 32);

    assert_eq!(book.get_bids(), vec![(99, 2), (98, 5)]);
    assert_eq!(book.get_asks(), vec![(100, 16), (101, 40)]);
    assert_eq!(book.checked_depth(OrderSide::Buy), Some(vec![(99, 2), (98, 5)]));
    assert_eq!(book.checked_depth(OrderSide::Sell), Some(vec![(100, 16), (101, 40)]));
    assert_eq!(book.best_bid(), Some(99));
    assert_eq!(book.best_ask(), Some(100));
}

#[test]
fn best_prices_follow_the_levels() {
    let mut book = OrderBook::new();
    assert_eq!((book.best_bid(), book.best_ask()), (None, None));
    let low = limit(&mut book, 1, OrderSide::Buy, -7, 1);
    let high = limit(&mut book, 1, OrderSide::Buy, 3, 1);
    limit(&mut book, 1, OrderSide::Buy, 0, 1);
    let near = limit(&mut book, 2, OrderSide::Sell, 4, 1);
    limit(&mut book, 2, OrderSide::Sell, 9, 1);
    assert_eq!((book.best_bid(), book.best_ask()), (Some(3), Some(4)));
    assert_eq!(book.get_bids(), vec![(3, 1), (0, 1), (-7, 1)]);
    assert_eq!(book.get_asks(), vec![(4, 1), (9, 1)]);

    book.remove_order(high.id);
    book.remove_order(near.id);
    assert_eq!((book.best_bid(), book.best_ask()), (Some(0), Some(9)));
    book.remove_order(low.id);
    assert_eq!(book.get_bids(), vec![(0, 1)]);
    // reading the depth leaves the book as it is
    assert_eq!(book.get_bids(), vec![(0, 1)]);
    assert_eq!(book.get_asks(), vec![(9, 1)]);
}

#[test]
fn depth_that_does_not_fit_is_refused() {
    let mut book = OrderBook::new();
    limit(&mut book, 1, OrderSide::Buy, 98, u64::MAX);
    assert_eq!(book.checked_depth(OrderSide::Buy), Some(vec![(98, u64::MAX)]));
    limit(&mut book, 2, OrderSide::Buy, 98, 1);
    assert_eq!(book.checked_depth(OrderSide::Buy), None);
    assert_eq!(book.checked_depth(OrderSide::Sell), Some(vec![]));
}

#[test]
fn cancelled_order_leaves_no_trace() {
    let mut book = OrderBook::new();
    let a = limit(&mut book, 1, OrderSide::Sell, 100, 1);
    let b = limit(&mut book, 2, OrderSide::Sell, 100, 2);
    let c = limit(&mut book, 3, OrderSide::Sell, 101, 4);

    assert_eq!(book.remove_order(b.id).map(|o| o.quantity), Some(2));
    assert_eq!(book.get_asks(), vec![(100, 1), (101, 4)]);
    assert_eq!(book.remove_order(b.id), None);
    assert_eq!(book.remove_order(a.id).map(|o| o.id), Some(a.id));
    assert_eq!(book.get_asks(), vec![(101, 4)]);
    assert_eq!(book.best_ask(), Some(101));
    assert!(book.get_order_by_id(a.id).is_none());
    assert!(book.get_order_by_id(c.id).is_some());
}

#[test]
fn market_order_never_rests() {
    let mut book = OrderBook::new();
    limit(&mut book, 1, OrderSide::Sell, 100, 3);
    limit(&mut book, 2, OrderSide::Buy, 90, 3);

    let (taker, trades) = book.add_order(3, 1_000, 10, OrderSide::Buy, OrderType::Market).unwrap();
    assert_eq!(trades.len(), 1);
    assert_eq!(taker.quantity, 7);
    assert!(book.get_order_by_id(taker.id).is_none());
    assert_eq!(book.get_bids(), vec![(90, 3)]);
    assert!(book.get_asks().is_empty());
}

#[test]
fn market_order_ignores_its_price() {
    let mut book = OrderBook::new();
    limit(&mut book, 1, OrderSide::Sell, 500, 3);
    let (_, trades) = book.add_order(2, 1, 3, OrderSide::Buy, OrderType::Market).unwrap();
    assert_eq!(trades.len(), 1);
    assert_eq!(trades[0].price, 500);
}

#[test]
fn sell_limit_at_zero_crosses_every_bid() {
    let mut book = OrderBook::new();
    limit(&mut book, 1, OrderSide::Buy, 5, 1);
    limit(&mut book, 2, OrderSide::Buy, 1, 1);
    let (taker, trades) = book.add_order(3, 0, 3, OrderSide::Sell, OrderType::Limit).unwrap();
    assert_eq!(trades.len(), 2);
    assert_eq!(taker.quantity, 1);
    assert_eq!(book.get_asks(), vec![(0, 1)]);
}

#[test]
fn order_of_no_quantity_trades_nothing_and_does_not_rest() {
    let mut book = OrderBook::new();
    limit(&mut book, 1, OrderSide::Sell, 100, 3);
    let (taker, trades) = book.add_order(2, 100, 0, OrderSide::Buy, OrderType::Limit).unwrap();
    assert!(trades.is_empty());
    assert_eq!(taker.quantity, 0);
    assert_eq!(taker.status, OrderStatus::Pending);
    assert!(book.get_bids().is_empty());
    assert_eq!(book.get_asks(), vec![(100, 3)]);
}

#[test]
fn fresh_orders_get_distinct_identifiers() {
    let mut book = OrderBook::new();
    let a = limit(&mut book, 1, OrderSide::Buy, 10, 1);
    let b = limit(&mut book, 1, OrderSide::Buy, 10, 1);
    assert_ne!(a.id, b.id);
    assert!(a.timestamp > 0);
    assert!(b.timestamp >= a.timestamp);
}

#[test]
fn submit_order_takes_the_order_as_given() {
    let mut book = OrderBook::new();
    let (maker, none) = book.submit_order(order(11, 1, OrderSide::Sell, OrderType::Limit, 100, 5));
    assert!(none.is_empty());
    assert_eq!(maker.id, 11);
    let (taker, trades) = book.submit_order(order(12, 2, OrderSide::Buy, OrderType::Limit, 100, 2));
    assert_eq!(taker.id, 12);
    assert_eq!(taker.timestamp, 7);
    assert_eq!(trades.len(), 1);
    assert_eq!(trades[0].maker_order_id, 11);
    assert_eq!(trades[0].taker_order_id, 12);
    assert_eq!(trades[0].maker_user_id, 1);
    assert_eq!(trades[0].taker_user_id, 2);
    assert_eq!(book.get_all_trades(), trades);
}

#[test]
fn place_order_refuses_exactly_a_held_identifier() {
    let mut book = OrderBook::new();
    let (maker, none) = book.place_order(11, 5, 1, 100, 5, OrderSide::Sell, OrderType::Limit).unwrap();
    assert!(none.is_empty());
    assert_eq!((maker.id, maker.timestamp, maker.user_id), (11, 5, 1));
    assert_eq!(maker.status, OrderStatus::Pending);

    assert!(book.place_order(11, 6, 2, 100, 2, OrderSide::Buy, OrderType::Limit).is_none());
    assert!(book.place_order(11, 6, 2, 0, 2, OrderSide::Buy, OrderType::Market).is_none());
    assert_eq!(book.get_asks(), vec![(100, 5)]);
    assert!(book.get_bids().is_empty());
    assert!(book.get_all_trades().is_empty());

    let (taker, trades) = book.place_order(12, 6, 2, 100, 5, OrderSide::Buy, OrderType::Limit).unwrap();
    assert_eq!((taker.id, taker.timestamp, taker.status), (12, 6, OrderStatus::Filled));
    assert_eq!(trades.len(), 1);
    assert_eq!((trades[0].maker_order_id, trades[0].taker_order_id), (11, 12));
    // the identifier of the filled maker is held no more
    assert!(book.place_order(11, 7, 1, 100, 5, OrderSide::Sell, OrderType::Limit).is_some());
}

#[test]
fn add_order_on_an_empty_book_is_always_taken_in() {
    for _ in 0..50 {
        let mut book = OrderBook::new();
        assert!(book.add_order(1, 100, 5, OrderSide::Buy, OrderType::Limit).is_some());
        assert!(book.add_order(1, 100, 5, OrderSide::Sell, OrderType::Market).is_some());
    }
}

#[test]
fn match_order_does_not_rest_the_remainder() {
    let mut book = OrderBook::new();
    book.submit_order(order(11, 1, OrderSide::Sell, OrderType::Limit, 100, 5));
    let (trades, left) = book.match_order(order(12, 2, OrderSide::Buy, OrderType::Limit, 100, 8));
    assert_eq!(trades.len(), 1);
    assert_eq!(left.quantity, 3);
    assert_eq!(left.status, OrderStatus::PartiallyFilled);
    assert!(book.get_bids().is_empty());
    assert!(book.get_asks().is_empty());
    assert!(book.get_all_trades().is_empty());
}

#[test]
fn match_buy_and_sell_work_on_their_own_sides() {
    let mut book = OrderBook::new();
    book.submit_order(order(11, 1, OrderSide::Sell, OrderType::Limit, 100, 5));
    book.submit_order(order(12, 1, OrderSide::Buy, OrderType::Limit, 90, 5));

    let mut buyer = order(13, 2, OrderSide::Buy, OrderType::Limit, 100, 2);
    let bought = book.match_buy_order(&mut buyer);
    assert_eq!(bought.len(), 1);
    assert_eq!(bought[0].maker_order_id, 11);
    assert_eq!((buyer.quantity, buyer.status), (0, OrderStatus::Filled));

    let mut seller = order(14, 2, OrderSide::Sell, OrderType::Limit, 95, 2);
    let sold = book.match_sell_order(&mut seller);
    assert!(sold.is_empty());
    assert_eq!((seller.quantity, seller.status), (2, OrderStatus::Pending));
}

#[test]
fn trade_memory_keeps_the_newest_thousand() {
    let mut book = OrderBook::new();
    for i in 0..1001u64 {
        limit(&mut book, 1, OrderSide::Sell, 100, i + 1);
        book.add_order(2, 100, i + 1, OrderSide::Buy, OrderType::Limit).unwrap();
    }
    let all = book.get_all_trades();
    assert_eq!(all.len(), 1000);
    assert_eq!(all[0].quantity, 2);
    assert_eq!(all[999].quantity, 1001);

    let recent = book.get_recent_trades(3);
    let quantities: Vec<u64> = recent.iter().map(|t| t.quantity).collect();
    assert_eq!(quantities, vec![1001, 1000, 999]);
    assert_eq!(book.get_recent_trades(5_000).len(), 1000);
    assert!(book.get_recent_trades(0).is_empty());
}

#[test]
fn restore_puts_open_orders_back_without_matching() {
    let mut book = OrderBook::new();
    assert!(book.restore_order(order(1, 1, OrderSide::Sell, OrderType::Limit, 100, 5)));
    // crosses the resting ask, but restoring does not match
    assert!(book.restore_order(order(2, 2, OrderSide::Buy, OrderType::Limit, 120, 5)));
    let mut partly = order(3, 3, OrderSide::Buy, OrderType::Limit, 120, 1);
    partly.status = OrderStatus::PartiallyFilled;
    assert!(book.restore_order(partly));

    assert!(book.get_all_trades().is_empty());
    assert_eq!(book.get_asks(), vec![(100, 5)]);
    assert_eq!(book.get_bids(), vec![(120, 6)]);

    let (_, trades) = book.add_order(9, 120, 6, OrderSide::Sell, OrderType::Limit).unwrap();
    assert_eq!(trades[0].maker_order_id, 2);
    assert_eq!(trades[1].maker_order_id, 3);
}

#[test]
fn restore_refuses_what_cannot_rest() {
    let mut book = OrderBook::new();
    assert!(book.restore_order(order(1, 1, OrderSide::Sell, OrderType::Limit, 100, 5)));
    assert!(!book.restore_order(order(1, 2, OrderSide::Buy, OrderType::Limit, 90, 5)));
    assert!(!book.restore_order(order(2, 2, OrderSide::Buy, OrderType::Limit, 90, 0)));
    assert!(!book.restore_order(order(3, 2, OrderSide::Buy, OrderType::Market, 90, 5)));
    let mut filled = order(4, 2, OrderSide::Buy, OrderType::Limit, 90, 5);
    filled.status = OrderStatus::Filled;
    assert!(!book.restore_order(filled));
    let mut cancelled = order(5, 2, OrderSide::Buy, OrderType::Limit, 90, 5);
    cancelled.status = OrderStatus::Cancelled;
    assert!(!book.restore_order(cancelled));

    assert!(book.get_bids().is_empty());
    assert_eq!(book.get_asks(), vec![(100, 5)]);
    assert_eq!(book.get_order_by_id(1).unwrap().user_id, 1);
}

// --- The scenarios at scale 10^8 ---

#[test]
fn scenario_full_fill() {
    let mut book = OrderBook::new();
    let price = 50_000 * SCALE;
    let sell = limit(&mut book, 1, OrderSide::Sell, price, 10);
    let (buy, trades) = book.add_order(2, price, 10, OrderSide::Buy, OrderType::Limit).unwrap();
    assert_eq!(trades.len(), 1);
    assert_eq!((trades[0].price, trades[0].quantity), (price, 10));
    assert_eq!(buy.status, OrderStatus::Filled);
    assert!(book.get_order_by_id(sell.id).is_none());
    assert!(book.get_bids().is_empty() && book.get_asks().is_empty());
}

#[test]
fn scenario_partial_fill() {
    let mut book = OrderBook::new();
    let price = 50_000 * SCALE;
    let sell = limit(&mut book, 1, OrderSide::Sell, price, 10);
    let (buy, trades) = book.add_order(2, price, 4, OrderSide::Buy, OrderType::Limit).unwrap();
    assert_eq!(trades.len(), 1);
    assert_eq!(trades[0].quantity, 4);
    assert_eq!((buy.quantity, buy.status), (0, OrderStatus::Filled));
    assert_eq!(book.get_asks(), vec![(price, 6)]);
    let resting = book.get_order_by_id(sell.id).unwrap();
    assert_eq!((resting.quantity, resting.status), (6, OrderStatus::PartiallyFilled));
}

#[test]
fn scenario_fifo_across_makers() {
    let mut book = OrderBook::new();
    let price = 50_000 * SCALE;
    let a = limit(&mut book, 1, OrderSide::Sell, price, 2);
    let b = limit(&mut book, 2, OrderSide::Sell, price, 2);
    let (_, trades) = book.add_order(3, price, 3, OrderSide::Buy, OrderType::Limit).unwrap();
    assert_eq!(trades.len(), 2);
    assert_eq!((trades[0].maker_order_id, trades[0].quantity), (a.id, 2));
    assert_eq!((trades[1].maker_order_id, trades[1].quantity), (b.id, 1));
    assert_eq!(book.get_asks(), vec![(price, 1)]);
}

#[test]
fn scenario_market_with_no_liquidity() {
    let mut book = OrderBook::new();
    let (order, trades) = book.add_order(1, 0, 5, OrderSide::Buy, OrderType::Market).unwrap();
    assert!(trades.is_empty());
    assert_eq!((order.quantity, order.status), (5, OrderStatus::Pending));
    assert!(book.get_order_by_id(order.id).is_none());
    assert!(book.get_bids().is_empty() && book.get_asks().is_empty());
}
