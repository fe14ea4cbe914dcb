//! The data model shared by the order book, the position store and the feed.

use vstd::prelude::*;

verus! {

/// A price in a fixed minor-unit scale.
pub type Price = i64;

/// An unsigned quantity.
pub type Qty = u64;

/// A 128-bit identifier, the value of a UUID.
pub type OrderId = u128;

/// A 128-bit user identifier, the value of a UUID.
pub type UserId = u128;

/// A UTC instant in microseconds since the Unix epoch.
pub type Timestamp = i64;

#[derive(Clone, Copy, Debug, PartialEq, Eq, Structural)]
pub enum OrderSide {
    Buy,
    Sell,
}

#[derive(Clone, Copy, Debug, PartialEq, Eq, Structural)]
pub enum OrderType {
    Limit,
    Market,
}

#[derive(Clone, Copy, Debug, PartialEq, Eq, Structural)]
pub enum OrderStatus {
    Pending,
    PartiallyFilled,
    Filled,
    Cancelled,
}

/// An order; `quantity` is the quantity that remains to be filled.
#[derive(Clone, Copy, Debug, PartialEq, Eq, Structural)]
pub struct Order {
    pub id: OrderId,
    pub user_id: UserId,
    pub side: OrderSide,
    pub order_type: OrderType,
    pub price: Price,
    pub quantity: Qty,
    pub status: OrderStatus,
    pub timestamp: Timestamp,
}

/// One execution between a resting maker and an incoming taker.
#[derive(Clone, Copy, Debug, PartialEq, Eq, Structural)]
pub struct Trade {
    pub id: u128,
    pub maker_order_id: OrderId,
    pub taker_order_id: OrderId,
    pub maker_user_id: UserId,
    pub taker_user_id: UserId,
    pub price: Price,
    pub quantity: Qty,
    pub timestamp: Timestamp,
}

impl Default for OrderType {
    fn default() -> (r: Self)
        ensures
            r == OrderType::Limit,
    {
        OrderType::Limit
    }
}

impl OrderSide {
    /// The side that trades against this one.
    pub open spec fn spec_opposite(self) -> OrderSide {
        match self {
            OrderSide::Buy => OrderSide::Sell,
            OrderSide::Sell => OrderSide::Buy,
        }
    }

    #[verifier::when_used_as_spec(spec_opposite)]
    pub fn opposite(self) -> (r: OrderSide)
        ensures
            r == self.spec_opposite(),
    {
        match self {
            OrderSide::Buy => OrderSide::Sell,
            OrderSide::Sell => OrderSide::Buy,
        }
    }
}

/// The status of an order that came with `initial` and has `remaining` left.
pub open spec fn status_of(initial: Qty, remaining: Qty) -> OrderStatus {
    if remaining == 0 {
        OrderStatus::Filled
    } else if remaining < initial {
        OrderStatus::PartiallyFilled
    } else {
        OrderStatus::Pending
    }
}

} // verus!
