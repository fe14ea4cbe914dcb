//! Stored rows and how they become values of the engine and back.

use vstd::prelude::*;
use crate::positions::Position;
use crate::text::same_text;
use crate::types::{Order, OrderSide, OrderStatus, OrderType, Timestamp, Trade};

verus! {

/// The stored name of a side.
pub open spec fn side_name(side: OrderSide) -> Seq<char> {
    match side {
        OrderSide::Buy => "Buy"@,
        OrderSide::Sell => "Sell"@,
    }
}

/// The stored name of an order kind.
pub open spec fn order_type_name(kind: OrderType) -> Seq<char> {
    match kind {
        OrderType::Limit => "Limit"@,
        OrderType::Market => "Market"@,
    }
}

/// The stored name of a status.
pub open spec fn status_name(status: OrderStatus) -> Seq<char> {
    match status {
        OrderStatus::Pending => "Pending"@,
        OrderStatus::PartiallyFilled => "PartiallyFilled"@,
        OrderStatus::Filled => "Filled"@,
        OrderStatus::Cancelled => "Cancelled"@,
    }
}

/// The side that a stored name stands for.
pub open spec fn side_named(s: Seq<char>) -> Option<OrderSide> {
    if s == "Buy"@ {
        Some(OrderSide::Buy)
    } else if s == "Sell"@ {
        Some(OrderSide::Sell)
    } else {
        None
    }
}

/// The order kind that a stored name stands for.
pub open spec fn order_type_named(s: Seq<char>) -> Option<OrderType> {
    if s == "Limit"@ {
        Some(OrderType::Limit)
    } else if s == "Market"@ {
        Some(OrderType::Market)
    } else {
        None
    }
}

/// The status that a stored name stands for.
pub open spec fn status_named(s: Seq<char>) -> Option<OrderStatus> {
    if s == "Pending"@ {
        Some(OrderStatus::Pending)
    } else if s == "PartiallyFilled"@ {
        Some(OrderStatus::PartiallyFilled)
    } else if s == "Filled"@ {
        Some(OrderStatus::Filled)
    } else if s == "Cancelled"@ {
        Some(OrderStatus::Cancelled)
    } else {
        None
    }
}

/// The name under which a side is stored.
pub fn side_to_str(side: OrderSide) -> (r: &'static str)
    ensures
        r@ == side_name(side),
{
    match side {
        OrderSide::Buy => "Buy",
        OrderSide::Sell => "Sell",
    }
}

/// The name under which an order kind is stored.
pub fn order_type_to_str(ot: OrderType) -> (r: &'static str)
    ensures
        r@ == order_type_name(ot),
{
    match ot {
        OrderType::Limit => "Limit",
        OrderType::Market => "Market",
    }
}

/// The name under which a status is stored.
pub fn status_to_str(s: OrderStatus) -> (r: &'static str)
    ensures
        r@ == status_name(s),
{
    match s {
        OrderStatus::Pending => "Pending",
        OrderStatus::PartiallyFilled => "PartiallyFilled",
        OrderStatus::Filled => "Filled",
        OrderStatus::Cancelled => "Cancelled",
    }
}

/// The side that is stored under a name; `None` for any other text.
pub fn str_to_side(s: &str) -> (r: Option<OrderSide>)
    ensures
        r == side_named(s@),
{
    if same_text(s, "Buy") {
        Some(OrderSide::Buy)
    } else if same_text(s, "Sell") {
        Some(OrderSide::Sell)
    } else {
        None
    }
}

/// The order kind that is stored under a name; `None` for any other text.
pub fn str_to_order_type(s: &str) -> (r: Option<OrderType>)
    ensures
        r == order_type_named(s@),
{
    if same_text(s, "Limit") {
        Some(OrderType::Limit)
    } else if same_text(s, "Market") {
        Some(OrderType::Market)
    } else {
        None
    }
}

/// The status that is stored under a name; `None` for any other text.
pub fn str_to_status(s: &str) -> (r: Option<OrderStatus>)
    ensures
        r == status_named(s@),
{
    if same_text(s, "Pending") {
        Some(OrderStatus::Pending)
    } else if same_text(s, "PartiallyFilled") {
        Some(OrderStatus::PartiallyFilled)
    } else if same_text(s, "Filled") {
        Some(OrderStatus::Filled)
    } else if same_text(s, "Cancelled") {
        Some(OrderStatus::Cancelled)
    } else {
        None
    }
}

/// Every side is the side that its stored name stands for.
pub proof fn law_side_name_round_trip(side: OrderSide)
    ensures
        side_named(side_name(side)) == Some(side),
{
    reveal_strlit("Buy");
    reveal_strlit("Sell");
    assert("Sell"@[0] != "Buy"@[0]);
}

/// Every order kind is the kind that its stored name stands for.
pub proof fn law_order_type_name_round_trip(kind: OrderType)
    ensures
        order_type_named(order_type_name(kind)) == Some(kind),
{
    reveal_strlit("Limit");
    reveal_strlit("Market");
    assert("Market"@[0] != "Limit"@[0]);
}

/// Every status is the status that its stored name stands for.
pub proof fn law_status_name_round_trip(status: OrderStatus)
    ensures
        status_named(status_name(status)) == Some(status),
{
    reveal_strlit("Pending");
    reveal_strlit("PartiallyFilled");
    reveal_strlit("Filled");
    reveal_strlit("Cancelled");
    assert("PartiallyFilled"@[1] != "Pending"@[1]);
    assert("Filled"@[0] != "Pending"@[0]);
    assert("Filled"@[0] != "PartiallyFilled"@[0]);
    assert("Cancelled"@[0] != "Pending"@[0]);
    assert("Cancelled"@[0] != "PartiallyFilled"@[0]);
    assert("Cancelled"@[0] != "Filled"@[0]);
}

/// An order as it is stored.
#[derive(Debug, Clone)]
pub struct OrderRow {
    pub id: u128,
    pub user_id: u128,
    pub symbol: String,
    pub side: String,
    pub order_type: String,
    pub price: i64,
    pub quantity: i64,
    pub status: String,
    pub created_at: Timestamp,
}

/// A trade as it is stored.
#[derive(Debug, Clone)]
pub struct TradeRow {
    pub id: u128,
    pub maker_order_id: u128,
    pub taker_order_id: u128,
    pub maker_user_id: u128,
    pub taker_user_id: u128,
    pub symbol: String,
    pub price: i64,
    pub quantity: i64,
    pub created_at: Timestamp,
}

/// A position as it is stored.
#[derive(Debug, Clone)]
pub struct PositionRow {
    pub user_id: u128,
    pub symbol: String,
    pub quantity: i64,
    pub average_price: i64,
}

/// A user as it is stored; the name is kept in lower case.
#[derive(Debug, Clone)]
pub struct UserRow {
    pub id: u128,
    pub username: String,
    pub password_hash: String,
}

/// The order that a row holds, with the given quantity, if its names are known.
pub open spec fn row_order(row: OrderRow, quantity: u64) -> Option<Order> {
    match (side_named(row.side@), order_type_named(row.order_type@), status_named(row.status@)) {
        (Some(side), Some(order_type), Some(status)) => Some(
            Order {
                id: row.id,
                user_id: row.user_id,
                side,
                order_type,
                price: row.price,
                quantity,
                status,
                timestamp: row.created_at,
            },
        ),
        _ => None,
    }
}

/// The order of a stored row, for putting it back on the book. `None` for
/// a row whose side, kind or status is not a known name, or whose quantity
/// is not positive.
pub fn order_row_to_order(row: &OrderRow) -> (r: Option<Order>)
    ensures
        r == (if row.quantity > 0 {
            row_order(*row, row.quantity as u64)
        } else {
            None::<Order>
        }),
{
    let side = match str_to_side(row.side.as_str()) {
        Some(side) => side,
        None => { return None; },
    };
    let order_type = match str_to_order_type(row.order_type.as_str()) {
        Some(order_type) => order_type,
        None => { return None; },
    };
    let status = match str_to_status(row.status.as_str()) {
        Some(status) => status,
        None => { return None; },
    };
    if row.quantity <= 0 {
        return None;
    }
    Some(
        Order {
            id: row.id,
            user_id: row.user_id,
            side,
            order_type,
            price: row.price,
            quantity: row.quantity as u64,
            status,
            timestamp: row.created_at,
        },
    )
}

/// The order of a stored row, for showing it. A quantity below zero counts
/// as zero. `None` for a row whose side, kind or status is not a known name.
pub fn order_row_to_order_display(row: &OrderRow) -> (r: Option<Order>)
    ensures
        r == row_order(*row, if row.quantity > 0 { row.quantity as u64 } else { 0u64 }),
{
    let side = match str_to_side(row.side.as_str()) {
        Some(side) => side,
        None => { return None; },
    };
    let order_type = match str_to_order_type(row.order_type.as_str()) {
        Some(order_type) => order_type,
        None => { return None; },
    };
    let status = match str_to_status(row.status.as_str()) {
        Some(status) => status,
        None => { return None; },
    };
    let quantity: u64 = if row.quantity > 0 { row.quantity as u64 } else { 0 };
    Some(
        Order {
            id: row.id,
            user_id: row.user_id,
            side,
            order_type,
            price: row.price,
            quantity,
            status,
            timestamp: row.created_at,
        },
    )
}

/// A stored quantity as the unsigned number with the same 64 bits.
pub open spec fn unsigned_bits(q: i64) -> u64 {
    if q >= 0 {
        q as u64
    } else {
        (q + 0x1_0000_0000_0000_0000) as u64
    }
}

/// The trade of a stored row.
pub fn trade_row_to_trade(row: &TradeRow) -> (r: Trade)
    ensures
        r == (Trade {
            id: row.id,
            maker_order_id: row.maker_order_id,
            taker_order_id: row.taker_order_id,
            maker_user_id: row.maker_user_id,
            taker_user_id: row.taker_user_id,
            price: row.price,
            quantity: unsigned_bits(row.quantity),
            timestamp: row.created_at,
        }),
{
    let quantity: u64 = if row.quantity >= 0 {
        row.quantity as u64
    } else {
        (row.quantity as i128 + 0x1_0000_0000_0000_0000) as u64
    };
    Trade {
        id: row.id,
        maker_order_id: row.maker_order_id,
        taker_order_id: row.taker_order_id,
        maker_user_id: row.maker_user_id,
        taker_user_id: row.taker_user_id,
        price: row.price,
        quantity,
        timestamp: row.created_at,
    }
}

/// The position of a stored row.
pub fn position_row_to_position(row: PositionRow) -> (r: Position)
    ensures
        r.user_id == row.user_id,
        r.symbol == row.symbol,
        r.quantity == row.quantity,
        r.average_price == row.average_price,
{
    Position { user_id: row.user_id, symbol: row.symbol, quantity: row.quantity, average_price: row.average_price }
}

} // verus!
