//! The mathematical model of a ladder: what a book is, when it is well formed,
//! and what matching, resting, cancelling and depth mean on it.

use vstd::prelude::*;
use crate::types::{
    Order, OrderId, OrderSide, OrderStatus, OrderType, Price, Qty, Timestamp, Trade, UserId, status_of,
};

verus! {

/// The number of trades that a book remembers.
pub const MAX_TRADES: usize = 1000;

/// One price level: the identifiers that rest at `price`, oldest first.
pub struct LevelView {
    pub price: Price,
    pub queue: Seq<OrderId>,
}

/// A book: each side's levels in traversal order (best price first), the
/// record of every resting order, and the recent trades, oldest first.
pub struct BookView {
    pub bids: Seq<LevelView>,
    pub asks: Seq<LevelView>,
    pub orders: Map<OrderId, Order>,
    pub trades: Seq<Trade>,
}

/// What one execution takes from a maker.
pub struct Fill {
    pub maker_order_id: OrderId,
    pub maker_user_id: UserId,
    pub price: Price,
    pub quantity: Qty,
}

/// The part of a trade that matching decides.
pub open spec fn fill_of(t: Trade) -> Fill {
    Fill {
        maker_order_id: t.maker_order_id,
        maker_user_id: t.maker_user_id,
        price: t.price,
        quantity: t.quantity,
    }
}

/// The fills of a sequence of trades.
pub open spec fn fills_of(trades: Seq<Trade>) -> Seq<Fill> {
    Seq::new(trades.len(), |i: int| fill_of(trades[i]))
}

/// On `side`, price `a` is traversed before price `b`.
pub open spec fn precedes(side: OrderSide, a: Price, b: Price) -> bool {
    match side {
        OrderSide::Buy => a > b,
        OrderSide::Sell => a < b,
    }
}

/// A taker of this side, kind and price trades against a maker at `maker_price`.
pub open spec fn crosses(side: OrderSide, kind: OrderType, price: Price, maker_price: Price) -> bool {
    kind == OrderType::Market || match side {
        OrderSide::Buy => price >= maker_price,
        OrderSide::Sell => price <= maker_price,
    }
}

/// An order with this status is open: it may rest on the book.
pub open spec fn is_open(status: OrderStatus) -> bool {
    status == OrderStatus::Pending || status == OrderStatus::PartiallyFilled
}

/// `id` has a record that says it rests on `side` at `price`: an open limit
/// order with quantity left.
pub open spec fn rests_at(orders: Map<OrderId, Order>, id: OrderId, side: OrderSide, price: Price) -> bool {
    &&& orders.contains_key(id)
    &&& orders[id].id == id
    &&& orders[id].side == side
    &&& orders[id].price == price
    &&& orders[id].order_type == OrderType::Limit
    &&& orders[id].quantity > 0
    &&& is_open(orders[id].status)
}

/// `id` sits in the queue of level `i` at position `k`.
pub open spec fn sits(levels: Seq<LevelView>, i: int, k: int, id: OrderId) -> bool {
    0 <= i < levels.len() && 0 <= k < levels[i].queue.len() && levels[i].queue[k] == id
}

/// `id` sits in some queue of `levels`.
pub open spec fn listed(levels: Seq<LevelView>, id: OrderId) -> bool {
    exists|i: int, k: int| sits(levels, i, k, id)
}

/// One side is in order: prices strictly in traversal order, no level empty,
/// no identifier twice in a queue, and every queued identifier has a record
/// that names this side and this price.
pub open spec fn side_wf(levels: Seq<LevelView>, side: OrderSide, orders: Map<OrderId, Order>) -> bool {
    &&& forall|i: int, j: int|
        0 <= i < j < levels.len() ==> precedes(side, #[trigger] levels[i].price, #[trigger] levels[j].price)
    &&& forall|i: int| 0 <= i < levels.len() ==> (#[trigger] levels[i]).queue.len() > 0
    &&& forall|i: int| 0 <= i < levels.len() ==> (#[trigger] levels[i]).queue.no_duplicates()
    &&& forall|i: int, k: int|
        0 <= i < levels.len() && 0 <= k < levels[i].queue.len() ==> rests_at(
            orders,
            #[trigger] levels[i].queue[k],
            side,
            levels[i].price,
        )
}

impl BookView {
    /// The levels of one side.
    pub open spec fn side(self, side: OrderSide) -> Seq<LevelView> {
        match side {
            OrderSide::Buy => self.bids,
            OrderSide::Sell => self.asks,
        }
    }

    /// The book with the levels of one side replaced.
    pub open spec fn with_side(self, side: OrderSide, levels: Seq<LevelView>) -> BookView {
        match side {
            OrderSide::Buy => BookView { bids: levels, ..self },
            OrderSide::Sell => BookView { asks: levels, ..self },
        }
    }

    /// The book is in order: both sides are, every record is queued on its
    /// own side, and the trade memory is within its bound.
    pub open spec fn wf(self) -> bool {
        &&& side_wf(self.bids, OrderSide::Buy, self.orders)
        &&& side_wf(self.asks, OrderSide::Sell, self.orders)
        &&& self.orders.dom().finite()
        &&& forall|id: OrderId| #[trigger]
            self.orders.contains_key(id) ==> listed(self.side(self.orders[id].side), id)
        &&& self.trades.len() <= MAX_TRADES
    }

    /// The best price of one side, if the side has a level.
    pub open spec fn best(self, side: OrderSide) -> Option<Price> {
        if self.side(side).len() == 0 {
            None
        } else {
            Some(self.side(side)[0].price)
        }
    }
}

/// The empty book.
pub open spec fn empty_book() -> BookView {
    BookView { bids: Seq::empty(), asks: Seq::empty(), orders: Map::empty(), trades: Seq::empty() }
}

/// What matching leaves of one queue.
pub struct QueueOutcome {
    pub queue: Seq<OrderId>,
    pub orders: Map<OrderId, Order>,
    pub fills: Seq<Fill>,
    pub remaining: Qty,
}

/// What matching leaves of one side.
pub struct SideOutcome {
    pub levels: Seq<LevelView>,
    pub orders: Map<OrderId, Order>,
    pub fills: Seq<Fill>,
    pub remaining: Qty,
}

/// A taker with `remaining` left consumes the queue at `price` from its head:
/// each maker gives the smaller of the two remainders; a maker that reaches
/// zero leaves the queue and loses its record, one that does not keeps its
/// place with the reduced quantity.
pub open spec fn match_queue(
    queue: Seq<OrderId>,
    orders: Map<OrderId, Order>,
    price: Price,
    remaining: Qty,
) -> QueueOutcome
    decreases queue.len(),
{
    if remaining == 0 || queue.len() == 0 {
        QueueOutcome { queue, orders, fills: Seq::empty(), remaining }
    } else {
        let maker = orders[queue[0]];
        if maker.quantity <= remaining {
            let fill = Fill {
                maker_order_id: queue[0],
                maker_user_id: maker.user_id,
                price,
                quantity: maker.quantity,
            };
            let rest = match_queue(
                queue.skip(1),
                orders.remove(queue[0]),
                price,
                (remaining - maker.quantity) as Qty,
            );
            QueueOutcome { fills: seq![fill] + rest.fills, ..rest }
        } else {
            let fill = Fill {
                maker_order_id: queue[0],
                maker_user_id: maker.user_id,
                price,
                quantity: remaining,
            };
            let left = Order {
                quantity: (maker.quantity - remaining) as Qty,
                status: OrderStatus::PartiallyFilled,
                ..maker
            };
            QueueOutcome { queue, orders: orders.insert(queue[0], left), fills: seq![fill], remaining: 0 }
        }
    }
}

/// A taker consumes the levels of the opposite side in traversal order, as
/// long as it has quantity left and the next level crosses.
pub open spec fn match_levels(
    levels: Seq<LevelView>,
    orders: Map<OrderId, Order>,
    side: OrderSide,
    kind: OrderType,
    price: Price,
    remaining: Qty,
) -> SideOutcome
    decreases levels.len(),
{
    if remaining == 0 || levels.len() == 0 || !crosses(side, kind, price, levels[0].price) {
        SideOutcome { levels, orders, fills: Seq::empty(), remaining }
    } else {
        let q = match_queue(levels[0].queue, orders, levels[0].price, remaining);
        if q.queue.len() > 0 {
            SideOutcome {
                levels: levels.update(0, LevelView { price: levels[0].price, queue: q.queue }),
                orders: q.orders,
                fills: q.fills,
                remaining: q.remaining,
            }
        } else {
            let rest = match_levels(levels.skip(1), q.orders, side, kind, price, q.remaining);
            SideOutcome { fills: q.fills + rest.fills, ..rest }
        }
    }
}

/// What matching returns: the book after it, the fills in execution order,
/// and the taker with its remainder and status.
pub struct MatchOutcome {
    pub book: BookView,
    pub fills: Seq<Fill>,
    pub order: Order,
}

/// The taker after matching: its status changes only if something was filled.
pub open spec fn taker_after(taker: Order, fills: Seq<Fill>, remaining: Qty) -> Order {
    Order {
        quantity: remaining,
        status: if fills.len() > 0 {
            status_of(taker.quantity, remaining)
        } else {
            taker.status
        },
        ..taker
    }
}

/// Matching `taker` against the opposite side of `book`.
pub open spec fn match_book(book: BookView, taker: Order) -> MatchOutcome {
    let opp = taker.side.spec_opposite();
    let out = match_levels(book.side(opp), book.orders, taker.side, taker.order_type, taker.price, taker.quantity);
    MatchOutcome {
        book: BookView { orders: out.orders, ..book.with_side(opp, out.levels) },
        fills: out.fills,
        order: taker_after(taker, out.fills, out.remaining),
    }
}

/// The total of a sequence of fills.
pub open spec fn fills_total(fills: Seq<Fill>) -> int
    decreases fills.len(),
{
    if fills.len() == 0 {
        0
    } else {
        fills_total(fills.drop_last()) + fills.last().quantity
    }
}

/// The sum of the remaining quantities of the orders in one queue.
pub open spec fn level_total(queue: Seq<OrderId>, orders: Map<OrderId, Order>) -> int
    decreases queue.len(),
{
    if queue.len() == 0 {
        0
    } else {
        level_total(queue.drop_last(), orders) + orders[queue.last()].quantity
    }
}

/// The sum of the remaining quantities that rest on one side.
pub open spec fn side_total(levels: Seq<LevelView>, orders: Map<OrderId, Order>) -> int
    decreases levels.len(),
{
    if levels.len() == 0 {
        0
    } else {
        side_total(levels.drop_last(), orders) + level_total(levels.last().queue, orders)
    }
}

/// The depth of one side: each level's price with the total that rests there.
pub open spec fn depth(levels: Seq<LevelView>, orders: Map<OrderId, Order>) -> Seq<(Price, int)> {
    Seq::new(levels.len(), |i: int| (levels[i].price, level_total(levels[i].queue, orders)))
}

/// A depth as the machine holds it, read as numbers.
pub open spec fn widen(depth: Seq<(Price, Qty)>) -> Seq<(Price, int)> {
    Seq::new(depth.len(), |i: int| (depth[i].0, depth[i].1 as int))
}

/// Every level's total fits the quantity type.
pub open spec fn depth_fits(levels: Seq<LevelView>, orders: Map<OrderId, Order>) -> bool {
    forall|i: int| 0 <= i < levels.len() ==> level_total(#[trigger] levels[i].queue, orders) <= u64::MAX
}

/// `i` is where `price` belongs among `levels`: all levels before it come
/// strictly earlier in the traversal, and the level at `i`, if any, does not.
pub open spec fn is_slot(levels: Seq<LevelView>, side: OrderSide, price: Price, i: int) -> bool {
    &&& 0 <= i <= levels.len()
    &&& forall|j: int| 0 <= j < i ==> precedes(side, #[trigger] levels[j].price, price)
    &&& i < levels.len() ==> !precedes(side, levels[i].price, price)
}

/// The place of `price` among `levels`.
pub open spec fn slot(levels: Seq<LevelView>, side: OrderSide, price: Price) -> int {
    choose|i: int| is_slot(levels, side, price, i)
}

/// `id` joins the tail of the queue at `price`; the level is made where none is.
pub open spec fn rest_in(levels: Seq<LevelView>, side: OrderSide, price: Price, id: OrderId) -> Seq<LevelView> {
    let i = slot(levels, side, price);
    if i < levels.len() && levels[i].price == price {
        levels.update(i, LevelView { price, queue: levels[i].queue.push(id) })
    } else {
        levels.insert(i, LevelView { price, queue: seq![id] })
    }
}

/// The book with `order` resting at the tail of its level.
pub open spec fn rest_order(book: BookView, order: Order) -> BookView {
    BookView {
        orders: book.orders.insert(order.id, order),
        ..book.with_side(order.side, rest_in(book.side(order.side), order.side, order.price, order.id))
    }
}

/// An order can rest: it is an open limit order with quantity left whose
/// identifier the book does not hold.
pub open spec fn can_rest(book: BookView, order: Order) -> bool {
    &&& order.order_type == OrderType::Limit
    &&& order.quantity > 0
    &&& is_open(order.status)
    &&& !book.orders.contains_key(order.id)
}

/// `i` is the level of `price`.
pub open spec fn is_level_of(levels: Seq<LevelView>, price: Price, i: int) -> bool {
    0 <= i < levels.len() && levels[i].price == price
}

/// The queue at `price`; empty where no level has that price.
pub open spec fn queue_at(levels: Seq<LevelView>, price: Price) -> Seq<OrderId> {
    if exists|i: int| is_level_of(levels, price, i) {
        levels[choose|i: int| is_level_of(levels, price, i)].queue
    } else {
        Seq::empty()
    }
}

/// `id` leaves the queue at `price`; the level goes with its last identifier.
pub open spec fn unlist(levels: Seq<LevelView>, price: Price, id: OrderId) -> Seq<LevelView> {
    if exists|i: int| is_level_of(levels, price, i) {
        let i = choose|i: int| is_level_of(levels, price, i);
        let queue = levels[i].queue;
        if queue.contains(id) {
            let left = queue.remove(queue.index_of(id));
            if left.len() == 0 {
                levels.remove(i)
            } else {
                levels.update(i, LevelView { price, queue: left })
            }
        } else {
            levels
        }
    } else {
        levels
    }
}

/// The book without the order `id`; unchanged where it holds no such order.
pub open spec fn remove_order(book: BookView, id: OrderId) -> BookView {
    if book.orders.contains_key(id) {
        let o = book.orders[id];
        BookView { orders: book.orders.remove(id), ..book.with_side(o.side, unlist(book.side(o.side), o.price, id)) }
    } else {
        book
    }
}

/// The trade memory after `fresh` trades: the newest `MAX_TRADES` of all.
pub open spec fn remember(trades: Seq<Trade>, fresh: Seq<Trade>) -> Seq<Trade> {
    let all = trades + fresh;
    if all.len() > MAX_TRADES {
        all.skip(all.len() - MAX_TRADES)
    } else {
        all
    }
}

/// The newest `limit` trades, newest first.
pub open spec fn recent(trades: Seq<Trade>, limit: int) -> Seq<Trade> {
    let n = if limit < trades.len() { limit } else { trades.len() as int };
    Seq::new(n as nat, |i: int| trades[trades.len() - 1 - i])
}

/// The book after a submission that executed as `trades`: the taker is
/// matched, the trades are remembered, and what is left of a limit order
/// rests at the tail of its level. What is left of a market order is dropped.
pub open spec fn settle(book: BookView, taker: Order, trades: Seq<Trade>) -> BookView {
    let m = match_book(book, taker);
    let kept = BookView { trades: remember(book.trades, trades), ..m.book };
    if m.order.order_type == OrderType::Limit && m.order.quantity > 0 {
        rest_order(kept, m.order)
    } else {
        kept
    }
}

/// An incoming order as it is before matching.
pub open spec fn incoming(
    id: OrderId,
    user_id: UserId,
    price: Price,
    quantity: Qty,
    side: OrderSide,
    order_type: OrderType,
    timestamp: Timestamp,
) -> Order {
    Order { id, user_id, side, order_type, price, quantity, status: OrderStatus::Pending, timestamp }
}

} // verus!
