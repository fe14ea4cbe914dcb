//! The exchange as its callers see it: symbols, refusals, the submission
//! flow, positions that follow trades, and the history of a user.

use rust_exchange::api::{
    cancel_order, check_liquidity, create_order, create_order_with, get_order, require_symbol, resolve_symbol,
    settle_positions, touched_users, ErrorResponse, ExchangeError, Settlement,
};
use rust_exchange::feed::WsMessage;
use rust_exchange::history::trades_for_user;
use rust_exchange::orderbook::OrderBook;
use rust_exchange::positions::{
    checked_unrealized_pnl, checked_update_position, get_positions, unrealized_pnl, update_position, Position,
    PositionStore,
};
use rust_exchange::registry::{normalize_symbol, SymbolRegistry};
use rust_exchange::types::{OrderSide, OrderStatus, OrderType, Trade};

const SCALE: i64 = 100_000_000;

fn registry() -> SymbolRegistry {
    SymbolRegistry::new(vec!["BTCUSDT".to_string(), "ETHUSDT".to_string()])
}

fn trade(maker: u128, taker: u128, price: i64, quantity: u64, timestamp: i64) -> Trade {
    Trade {
        id: 0,
        maker_order_id: 100 + maker,
        taker_order_id: 200 + taker,
        maker_user_id: maker,
        taker_user_id: taker,
        price,
        quantity,
        timestamp,
    }
}

#[test]
fn registry_finds_symbols_in_any_case() {
    let r = registry();
    assert_eq!(r.len(), 2);
    assert_eq!(r.lookup("BTCUSDT"), Some(0));
    assert_eq!(r.lookup("ethusdt"), Some(1));
    assert_eq!(r.lookup("EthUsdt"), Some(1));
    assert_eq!(r.lookup("DOGEUSDT"), None);
    assert_eq!(r.find("ethusdt"), None);
    assert_eq!(r.find("ETHUSDT"), Some(1));
    assert_eq!(r.symbol(1), "ETHUSDT");
    assert_eq!(normalize_symbol("btcUsdt"), "BTCUSDT");
}

#[test]
fn resolve_symbol_names_each_refusal() {
    let r = registry();
    assert_eq!(resolve_symbol(&r, ""), Err(ExchangeError::SymbolRequired));
    assert_eq!(resolve_symbol(&r, "xrpusdt"), Err(ExchangeError::SymbolNotFound));
    assert_eq!(resolve_symbol(&r, "btcusdt"), Ok(0));
    assert_eq!(require_symbol(""), Err(ExchangeError::SymbolRequired));
    assert_eq!(require_symbol("x"), Ok(()));
}

#[test]
fn refusals_have_their_status_and_text() {
    assert_eq!(ExchangeError::SymbolRequired.status_code(), 400);
    assert_eq!(ExchangeError::SymbolNotFound.status_code(), 404);
    assert_eq!(ExchangeError::OrderNotFound.status_code(), 404);
    assert_eq!(ExchangeError::Forbidden.status_code(), 403);
    assert_eq!(ExchangeError::NoLiquidity.status_code(), 400);
    assert_eq!(ExchangeError::IdentifierTaken.status_code(), 500);
    assert_eq!(ExchangeError::SymbolRequired.message(""), "Symbol parameter is required");
    assert_eq!(ExchangeError::SymbolNotFound.message("XRPUSDT"), "Symbol 'XRPUSDT' not found");
    assert_eq!(ExchangeError::OrderNotFound.message("abc"), "Order 'abc' not found");
    assert_eq!(ExchangeError::Forbidden.message(""), "Forbidden: order does not belong to you");
    assert_eq!(
        ExchangeError::NoLiquidity.message(""),
        "Market order could not be filled: no liquidity"
    );
    let (status, body) = ErrorResponse::new("nope".to_string(), 404);
    assert_eq!(status, 404);
    assert_eq!(body.error, "nope");
    assert_eq!(body.code, 404);
}

#[test]
fn scenario_cancel() {
    let mut book = OrderBook::new();
    let owner = 1u128;
    let (order, _) = book
        .add_order(owner, 49_000 * SCALE, 10, OrderSide::Buy, OrderType::Limit)
        .unwrap();

    assert_eq!(cancel_order(&mut book, order.id, 2), Err(ExchangeError::Forbidden));
    assert_eq!(book.get_bids(), vec![(49_000 * SCALE, 10)]);

    let removed = cancel_order(&mut book, order.id, owner).unwrap();
    assert_eq!(removed.id, order.id);
    assert!(book.get_bids().is_empty());
    assert!(book.get_asks().is_empty());
    assert_eq!(cancel_order(&mut book, order.id, owner), Err(ExchangeError::OrderNotFound));
}

#[test]
fn get_order_is_for_the_owner() {
    let mut book = OrderBook::new();
    let (order, _) = book.add_order(1, 10, 10, OrderSide::Buy, OrderType::Limit).unwrap();
    assert_eq!(get_order(&book, order.id, 1), Ok(order));
    assert_eq!(get_order(&book, order.id, 2), Err(ExchangeError::Forbidden));
    assert_eq!(get_order(&book, order.id + 1, 1), Err(ExchangeError::OrderNotFound));
}

#[test]
fn only_an_untraded_market_order_lacks_liquidity() {
    let none: Vec<Trade> = vec![];
    let some = vec![trade(1, 2, 10, 1, 0)];
    assert_eq!(check_liquidity(OrderType::Market, &none), Err(ExchangeError::NoLiquidity));
    assert_eq!(check_liquidity(OrderType::Market, &some), Ok(()));
    assert_eq!(check_liquidity(OrderType::Limit, &none), Ok(()));
    assert_eq!(check_liquidity(OrderType::Limit, &some), Ok(()));
}

#[test]
fn create_order_matches_settles_and_publishes() {
    let mut book = OrderBook::new();
    let mut store = PositionStore::new();
    let maker = create_order(&mut book, &mut store, "btcusdt", 1, 100, 5, OrderSide::Sell, OrderType::Limit)
        .ok()
        .unwrap();
    assert!(maker.trades.is_empty());
    assert_eq!(maker.users, vec![1]);
    assert_eq!(maker.messages.as_ref().unwrap().len(), 1);

    let placed = create_order(&mut book, &mut store, "btcusdt", 2, 100, 3, OrderSide::Buy, OrderType::Limit)
        .ok()
        .unwrap();
    assert_eq!(placed.order.status, OrderStatus::Filled);
    assert_eq!(placed.trades.len(), 1);
    assert_eq!(placed.settlement, Settlement { trades: 1, maker_leg: false });
    assert_eq!(placed.users, vec![2, 1]);

    let messages = placed.messages.unwrap();
    assert_eq!(messages.len(), 2);
    match &messages[0] {
        WsMessage::Trade { symbol, trade } => {
            assert_eq!(symbol, "BTCUSDT");
            assert_eq!(*trade, placed.trades[0]);
        }
        other => panic!("expected Trade, got {:?}", other),
    }
    match &messages[1] {
        WsMessage::OrderBookUpdate { symbol, bids, asks } => {
            assert_eq!(symbol, "BTCUSDT");
            assert!(bids.is_empty());
            assert_eq!(asks, &vec![(100, 2)]);
        }
        other => panic!("expected OrderBookUpdate, got {:?}", other),
    }

    let seller = get_positions(&store, 1, None);
    assert_eq!((seller[0].quantity, seller[0].average_price), (-3, 100));
    assert_eq!(seller[0].symbol, "BTCUSDT");
    let buyer = get_positions(&store, 2, Some("BtcUsdt"));
    assert_eq!((buyer[0].quantity, buyer[0].average_price), (3, 100));
}

#[test]
fn create_order_refuses_a_market_order_without_liquidity() {
    let mut book = OrderBook::new();
    let mut store = PositionStore::new();
    let r = create_order(&mut book, &mut store, "BTCUSDT", 1, 0, 5, OrderSide::Buy, OrderType::Market);
    assert_eq!(r.err(), Some(ExchangeError::NoLiquidity));
    assert!(book.get_bids().is_empty());
    assert_eq!(store.len(), 0);
}

#[test]
fn create_order_with_refuses_a_held_identifier() {
    let mut book = OrderBook::new();
    let mut store = PositionStore::new();
    let maker = create_order_with(&mut book, &mut store, "S", 7, 1, 1, 100, 5, OrderSide::Sell, OrderType::Limit)
        .ok()
        .unwrap();
    assert_eq!((maker.order.id, maker.order.timestamp, maker.order.quantity), (7, 1, 5));

    // a crossing order under the held identifier is refused, and nothing changes
    let r = create_order_with(&mut book, &mut store, "S", 7, 2, 2, 100, 5, OrderSide::Buy, OrderType::Limit);
    assert_eq!(r.err(), Some(ExchangeError::IdentifierTaken));
    let r = create_order_with(&mut book, &mut store, "S", 7, 2, 2, 0, 5, OrderSide::Sell, OrderType::Market);
    assert_eq!(r.err(), Some(ExchangeError::IdentifierTaken));
    assert_eq!(book.get_asks(), vec![(100, 5)]);
    assert!(book.get_all_trades().is_empty());
    assert_eq!(store.len(), 0);

    // under another identifier it is taken in
    let taken = create_order_with(&mut book, &mut store, "S", 8, 2, 2, 100, 5, OrderSide::Buy, OrderType::Limit)
        .ok()
        .unwrap();
    assert_eq!((taken.order.id, taken.order.timestamp), (8, 2));
    assert_eq!(taken.order.status, OrderStatus::Filled);
    assert_eq!(taken.trades.len(), 1);
    assert_eq!((taken.trades[0].maker_order_id, taken.trades[0].taker_order_id), (7, 8));
    assert_eq!(store.len(), 2);
    // the identifier of a filled order is free again
    assert!(create_order_with(&mut book, &mut store, "S", 7, 3, 1, 100, 5, OrderSide::Sell, OrderType::Limit).is_ok());
}

#[test]
fn create_order_with_refuses_only_untraded_market_orders() {
    let mut book = OrderBook::new();
    let mut store = PositionStore::new();
    let r = create_order_with(&mut book, &mut store, "S", 1, 0, 1, 0, 5, OrderSide::Sell, OrderType::Market);
    assert_eq!(r.err(), Some(ExchangeError::NoLiquidity));
    // a limit order that trades nothing is taken in and rests
    let rests = create_order_with(&mut book, &mut store, "S", 1, 0, 1, 100, 5, OrderSide::Sell, OrderType::Limit)
        .ok()
        .unwrap();
    assert!(rests.trades.is_empty());
    assert_eq!(rests.order.status, OrderStatus::Pending);
    assert_eq!(book.get_asks(), vec![(100, 5)]);
    // a market order on the side that has no makers is refused, the book stays
    let r = create_order_with(&mut book, &mut store, "S", 2, 0, 1, 0, 5, OrderSide::Sell, OrderType::Market);
    assert_eq!(r.err(), Some(ExchangeError::NoLiquidity));
    assert_eq!(book.get_asks(), vec![(100, 5)]);
    // a market order that trades part of itself is taken in
    let part = create_order_with(&mut book, &mut store, "S", 3, 0, 2, 0, 9, OrderSide::Buy, OrderType::Market)
        .ok()
        .unwrap();
    assert_eq!((part.order.quantity, part.order.status), (4, OrderStatus::PartiallyFilled));
    assert!(book.get_asks().is_empty() && book.get_bids().is_empty());
}

#[test]
fn create_order_on_an_empty_book_takes_in_every_limit_order() {
    for _ in 0..50 {
        let mut book = OrderBook::new();
        let mut store = PositionStore::new();
        let r = create_order(&mut book, &mut store, "S", 1, 100, 5, OrderSide::Buy, OrderType::Limit);
        assert!(r.is_ok());
        assert_eq!(book.get_bids(), vec![(100, 5)]);
    }
}

#[test]
fn settlement_applies_the_makers_leg_first() {
    let mut store = PositionStore::new();
    let trades = vec![trade(1, 2, 100, 4, 0), trade(3, 2, 110, 6, 0)];
    let done = settle_positions(&mut store, "ethusdt", OrderSide::Buy, &trades);
    assert_eq!(done, Settlement { trades: 2, maker_leg: false });

    let all: Vec<(u128, i64, i64)> = [1u128, 2, 3]
        .iter()
        .flat_map(|u| get_positions(&store, *u, Some("ETHUSDT")))
        .map(|p| (p.user_id, p.quantity, p.average_price))
        .collect();
    assert_eq!(all, vec![(1, -4, 100), (2, 10, (100 * 4 + 110 * 6) / 10), (3, -6, 110)]);
    // the maker of the first trade was entered before its taker
    assert_eq!(store.positions_for(1, None).len(), 1);
}

#[test]
fn settlement_stops_before_a_leg_that_does_not_fit() {
    let mut store = PositionStore::new();
    assert!(checked_update_position(&mut store, 2, "ETHUSDT", OrderSide::Buy, 1, i64::MAX as u64));
    let trades = vec![trade(1, 2, 100, 4, 0), trade(3, 2, 110, 6, 0)];
    let done = settle_positions(&mut store, "ETHUSDT", OrderSide::Buy, &trades);
    assert_eq!(done, Settlement { trades: 0, maker_leg: true });
    assert_eq!(get_positions(&store, 1, None)[0].quantity, -4);
    assert_eq!(get_positions(&store, 2, None)[0].quantity, i64::MAX);
    assert!(get_positions(&store, 3, None).is_empty());
}

#[test]
fn touched_users_are_named_once() {
    let trades = vec![trade(1, 2, 100, 4, 0), trade(3, 2, 110, 6, 0), trade(1, 2, 1, 1, 0)];
    assert_eq!(touched_users(2, &trades), vec![2, 1, 3]);
    assert_eq!(touched_users(9, &trades), vec![9, 1, 2, 3]);
    assert_eq!(touched_users(9, &vec![]), vec![9]);
}

#[test]
fn scenario_position_close() {
    let mut store = PositionStore::new();
    update_position(&mut store, 1, "BTCUSDT", OrderSide::Buy, 50_000 * SCALE, 10);
    update_position(&mut store, 1, "BTCUSDT", OrderSide::Sell, 51_000 * SCALE, 10);
    assert!(get_positions(&store, 1, None).is_empty());
    assert_eq!(store.len(), 0);
}

#[test]
fn scenario_weighted_average() {
    let mut store = PositionStore::new();
    update_position(&mut store, 1, "BTCUSDT", OrderSide::Buy, 50_000 * SCALE, 10);
    update_position(&mut store, 1, "BTCUSDT", OrderSide::Buy, 52_000 * SCALE, 5);
    let p = &get_positions(&store, 1, None)[0];
    assert_eq!(p.quantity, 15);
    assert_eq!(p.average_price, (50_000 * SCALE * 10 + 52_000 * SCALE * 5) / 15);
    assert_eq!(p.average_price, 5_066_666_666_666);
}

#[test]
fn quantity_is_the_signed_sum_of_the_legs() {
    let mut store = PositionStore::new();
    let legs = [
        (OrderSide::Buy, 7u64),
        (OrderSide::Sell, 10),
        (OrderSide::Sell, 2),
        (OrderSide::Buy, 5),
        (OrderSide::Buy, 4),
    ];
    let mut sum = 0i64;
    for (side, qty) in legs {
        assert!(checked_update_position(&mut store, 1, "BTCUSDT", side, 100, qty));
        sum += match side {
            OrderSide::Buy => qty as i64,
            OrderSide::Sell => -(qty as i64),
        };
        let held = get_positions(&store, 1, None).first().map(|p| p.quantity).unwrap_or(0);
        assert_eq!(held, sum);
    }
    assert_eq!(sum, 4);
    assert!(checked_update_position(&mut store, 1, "BTCUSDT", OrderSide::Sell, 100, 4));
    assert!(get_positions(&store, 1, None).is_empty());
}

#[test]
fn average_moves_only_with_the_position() {
    let mut store = PositionStore::new();
    update_position(&mut store, 1, "S", OrderSide::Buy, 100, 10);
    update_position(&mut store, 1, "S", OrderSide::Sell, 500, 4);
    let p = get_positions(&store, 1, None);
    assert_eq!((p[0].quantity, p[0].average_price), (6, 100));
    // a flip keeps the average it had
    update_position(&mut store, 1, "S", OrderSide::Sell, 700, 9);
    let p = get_positions(&store, 1, None);
    assert_eq!((p[0].quantity, p[0].average_price), (-3, 100));
    // adding to the short moves it by weight
    update_position(&mut store, 1, "S", OrderSide::Sell, 200, 1);
    let p = get_positions(&store, 1, None);
    assert_eq!((p[0].quantity, p[0].average_price), (-4, (100 * 3 + 200) / 4));
}

#[test]
fn average_truncates_toward_zero() {
    let mut store = PositionStore::new();
    update_position(&mut store, 1, "S", OrderSide::Buy, -5, 2);
    update_position(&mut store, 1, "S", OrderSide::Buy, -3, 1);
    assert_eq!(get_positions(&store, 1, None)[0].average_price, -4);

    update_position(&mut store, 2, "S", OrderSide::Sell, 5, 2);
    update_position(&mut store, 2, "S", OrderSide::Sell, 3, 1);
    assert_eq!(get_positions(&store, 2, None)[0].average_price, 4);

    update_position(&mut store, 3, "S", OrderSide::Sell, -5, 2);
    update_position(&mut store, 3, "S", OrderSide::Sell, -3, 1);
    assert_eq!(get_positions(&store, 3, None)[0].average_price, -4);
}

#[test]
fn average_of_large_positions_is_exact() {
    let mut store = PositionStore::new();
    let price = 50_000 * SCALE;
    update_position(&mut store, 1, "S", OrderSide::Buy, price, 4_000_000_000_000_000_000);
    update_position(&mut store, 1, "S", OrderSide::Buy, price + 3, 4_000_000_000_000_000_000);
    let p = &get_positions(&store, 1, None)[0];
    assert_eq!(p.quantity, 8_000_000_000_000_000_000);
    assert_eq!(p.average_price, price + 1);
}

#[test]
fn leg_that_does_not_fit_is_not_applied() {
    let mut store = PositionStore::new();
    assert!(!checked_update_position(&mut store, 1, "S", OrderSide::Buy, 1, u64::MAX));
    assert_eq!(store.len(), 0);
    assert!(checked_update_position(&mut store, 1, "S", OrderSide::Sell, 1, 1u64 << 63));
    assert_eq!(get_positions(&store, 1, None)[0].quantity, i64::MIN);
    assert!(!checked_update_position(&mut store, 1, "S", OrderSide::Sell, 1, 1));
    assert!(store.leg_fits(1, "S", OrderSide::Buy, u64::MAX));
    assert!(!store.leg_fits(1, "S", OrderSide::Sell, 1));
    assert_eq!(get_positions(&store, 1, None)[0].quantity, i64::MIN);
}

#[test]
fn leg_of_no_quantity_changes_nothing() {
    let mut store = PositionStore::new();
    assert!(checked_update_position(&mut store, 1, "S", OrderSide::Buy, 10, 0));
    assert_eq!(store.len(), 0);
    update_position(&mut store, 1, "S", OrderSide::Buy, 10, 2);
    assert!(checked_update_position(&mut store, 1, "S", OrderSide::Sell, 99, 0));
    let p = get_positions(&store, 1, None);
    assert_eq!((p[0].quantity, p[0].average_price), (2, 10));
}

#[test]
fn positions_are_keyed_by_user_and_upper_case_symbol() {
    let mut store = PositionStore::new();
    update_position(&mut store, 1, "btcusdt", OrderSide::Buy, 10, 2);
    update_position(&mut store, 1, "BTCUSDT", OrderSide::Buy, 10, 2);
    update_position(&mut store, 2, "BtcUsdt", OrderSide::Sell, 10, 1);
    store.apply_leg(1, "EthUsdt", OrderSide::Buy, 10, 1);
    assert_eq!(store.len(), 3);
    let mine = get_positions(&store, 1, Some("btcusdt"));
    assert_eq!(mine.len(), 1);
    assert_eq!((mine[0].symbol.as_str(), mine[0].quantity), ("BTCUSDT", 4));
    assert!(get_positions(&store, 1, Some("ethusdt")).is_empty());
    assert_eq!(store.positions_for(1, Some("EthUsdt")).len(), 1);
    assert_eq!(get_positions(&store, 2, None)[0].quantity, -1);
    assert!(get_positions(&store, 3, None).is_empty());
}

#[test]
fn stored_positions_go_back_in_once() {
    let mut store = PositionStore::new();
    let p = |user: u128, quantity: i64| Position {
        user_id: user,
        symbol: "BTCUSDT".to_string(),
        quantity,
        average_price: 7,
    };
    assert!(store.insert_position(p(1, 5)));
    assert!(!store.insert_position(p(1, 9)));
    assert!(!store.insert_position(p(2, 0)));
    assert!(store.insert_position(p(2, -5)));
    assert_eq!(store.len(), 2);
    assert_eq!(get_positions(&store, 1, None), vec![p(1, 5)]);
}

#[test]
fn unrealized_pnl_is_the_difference_times_the_quantity() {
    let long = Position { user_id: 1, symbol: "S".to_string(), quantity: 10, average_price: 50_000 * SCALE };
    let short = Position { user_id: 1, symbol: "S".to_string(), quantity: -10, average_price: 50_000 * SCALE };
    assert_eq!(unrealized_pnl(&long, 52_000 * SCALE), 2_000 * SCALE * 10);
    assert_eq!(unrealized_pnl(&long, 49_000 * SCALE), -1_000 * SCALE * 10);
    assert_eq!(unrealized_pnl(&short, 48_000 * SCALE), 2_000 * SCALE * 10);
    assert_eq!(checked_unrealized_pnl(&short, 48_000 * SCALE), Some(2_000 * SCALE * 10));
    let huge = Position { user_id: 1, symbol: "S".to_string(), quantity: i64::MAX, average_price: -1 };
    assert_eq!(checked_unrealized_pnl(&huge, 1), None);
    assert_eq!(checked_unrealized_pnl(&huge, 0), Some(i64::MAX));
}

#[test]
fn history_is_the_users_newest_trades() {
    let trades = vec![
        trade(1, 2, 10, 1, 30),
        trade(3, 4, 10, 2, 50),
        trade(2, 1, 10, 3, 40),
        trade(1, 5, 10, 4, 40),
        trade(5, 1, 10, 5, 60),
    ];
    let mine: Vec<u64> = trades_for_user(&trades, 1, 10).iter().map(|t| t.quantity).collect();
    assert_eq!(mine, vec![5, 3, 4, 1]);
    let two: Vec<u64> = trades_for_user(&trades, 1, 2).iter().map(|t| t.quantity).collect();
    assert_eq!(two, vec![5, 3]);
    assert!(trades_for_user(&trades, 1, 0).is_empty());
    assert!(trades_for_user(&trades, 9, 10).is_empty());
    let other: Vec<u64> = trades_for_user(&trades, 4, 10).iter().map(|t| t.quantity).collect();
    assert_eq!(other, vec![2]);
}
