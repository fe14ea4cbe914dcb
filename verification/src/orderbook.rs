//! The ladder of one symbol and the matching engine that works on it.

use vstd::prelude::*;
use std::collections::BTreeMap;
use std::collections::HashMap;
use std::collections::VecDeque;
use crate::clock::{fresh_id, now_micros};
use crate::ladder::{best_price, ladder, lemma_head_replaced, lemma_ladder_lists, rest_level, unlist_level};
use crate::book_lemmas::{
    lemma_level_total_nonneg, lemma_level_total_take, lemma_match_book_wf, lemma_remove_order_wf,
    lemma_rest_order_wf, lemma_rest_stays_wf,
};
use crate::model::{
    BookView, Fill, LevelView, MAX_TRADES, can_rest, crosses, depth, depth_fits, empty_book, fill_of,
    fills_of, incoming, level_total, match_book, match_levels, match_queue, recent, remember, remove_order,
    rest_order, rests_at, settle, side_wf, widen,
};
use crate::types::{
    Order, OrderId, OrderSide, OrderStatus, OrderType, Price, Qty, Timestamp, Trade, UserId, status_of,
};

verus! {

/// Every identifier of the queue has a record.
pub(crate) closed spec fn queue_known(queue: Seq<OrderId>, orders: Map<OrderId, Order>) -> bool {
    forall|k: int| 0 <= k < queue.len() ==> orders.contains_key(#[trigger] queue[k])
}

/// The fills of a run of trades with one more are the fills of the run
/// with that trade's fill.
pub(crate) proof fn lemma_fills_of_push(trades: Seq<Trade>, t: Trade)
    ensures
        fills_of(trades.push(t)) == fills_of(trades).push(fill_of(t)),
{
    assert(fills_of(trades.push(t)) =~= fills_of(trades).push(fill_of(t)));
}

/// The fills of two runs of trades are the fills of the one, then those of
/// the other.
pub(crate) proof fn lemma_fills_of_add(a: Seq<Trade>, b: Seq<Trade>)
    ensures
        fills_of(a + b) == fills_of(a) + fills_of(b),
{
    assert(fills_of(a + b) =~= fills_of(a) + fills_of(b));
}

/// All trades name this taker.
pub open spec fn taken_by(trades: Seq<Trade>, taker: Order) -> bool {
    forall|i: int|
        0 <= i < trades.len() ==> (#[trigger] trades[i]).taker_order_id == taker.id && trades[i].taker_user_id
            == taker.user_id
}

/// Consumes one queue from its head for a taker with `remaining` left.
pub(crate) fn consume_queue(
    queue: &mut VecDeque<OrderId>,
    orders: &mut HashMap<OrderId, Order>,
    price: Price,
    taker: &Order,
    remaining: Qty,
) -> (r: (Vec<Trade>, Qty))
    requires
        queue_known(old(queue)@, old(orders)@),
        old(queue)@.no_duplicates(),
    ensures
        ({
            let out = match_queue(old(queue)@, old(orders)@, price, remaining);
            &&& final(queue)@ == out.queue
            &&& final(orders)@ == out.orders
            &&& fills_of(r.0@) == out.fills
            &&& r.1 == out.remaining
            &&& taken_by(r.0@, *taker)
        }),
{
    let mut trades: Vec<Trade> = Vec::new();
    let mut left: Qty = remaining;
    let ghost goal = match_queue(queue@, orders@, price, remaining);
    assert(fills_of(trades@) =~= Seq::<Fill>::empty());
    while left > 0 && queue.len() > 0
        invariant
            queue_known(queue@, orders@),
            queue@.no_duplicates(),
            taken_by(trades@, *taker),
            ({
                let out = match_queue(queue@, orders@, price, left);
                &&& goal.queue == out.queue
                &&& goal.orders == out.orders
                &&& goal.remaining == out.remaining
                &&& goal.fills == fills_of(trades@) + out.fills
            }),
        decreases queue@.len() + (if left > 0 { 1int } else { 0int }),
    {
        let maker_id: OrderId = queue[0];
        let ghost before_queue = queue@;
        let ghost before_orders = orders@;
        let ghost before_trades = trades@;
        let ghost step = match_queue(before_queue, before_orders, price, left);
        assert(orders@.contains_key(before_queue[0]));
        let found = orders.get(&maker_id);
        let maker: Order = match found {
            Some(m) => *m,
            None => { assert(false); return (trades, left); },
        };
        let quantity: Qty = if maker.quantity <= left { maker.quantity } else { left };
        let trade = Trade {
            id: fresh_id(),
            maker_order_id: maker_id,
            taker_order_id: taker.id,
            maker_user_id: maker.user_id,
            taker_user_id: taker.user_id,
            price,
            quantity,
            timestamp: now_micros(),
        };
        trades.push(trade);
        proof {
            lemma_fills_of_push(before_trades, trade);
        }
        if maker.quantity <= left {
            queue.pop_front();
            orders.remove(&maker_id);
            left = left - maker.quantity;
            proof {
                assert(queue@ =~= before_queue.skip(1));
                assert(orders@ == before_orders.remove(maker_id));
                let rest = match_queue(queue@, orders@, price, left);
                assert(step.fills == seq![fill_of(trade)] + rest.fills);
                assert(goal.fills =~= fills_of(trades@) + rest.fills);
                assert forall|k: int| 0 <= k < queue@.len() implies orders@.contains_key(#[trigger] queue@[k]) by {
                    assert(queue@[k] == before_queue[k + 1]);
                    assert(before_queue[k + 1] != before_queue[0]);
                }
                assert forall|a: int, b: int| 0 <= a < queue@.len() && 0 <= b < queue@.len() && a != b implies queue@[a]
                    != queue@[b] by {
                    assert(queue@[a] == before_queue[a + 1]);
                    assert(queue@[b] == before_queue[b + 1]);
                }
            }
        } else {
            let updated = Order {
                id: maker.id,
                user_id: maker.user_id,
                side: maker.side,
                order_type: maker.order_type,
                price: maker.price,
                quantity: maker.quantity - left,
                status: OrderStatus::PartiallyFilled,
                timestamp: maker.timestamp,
            };
            orders.insert(maker_id, updated);
            left = 0;
            proof {
                let rest = match_queue(queue@, orders@, price, left);
                assert(rest.fills =~= Seq::<Fill>::empty());
                assert(step.fills =~= seq![fill_of(trade)]);
                assert(goal.fills =~= fills_of(trades@) + rest.fills);
            }
        }
    }
    proof {
        let out = match_queue(queue@, orders@, price, left);
        assert(out.fills =~= Seq::<Fill>::empty());
        assert(goal.fills =~= fills_of(trades@));
    }
    (trades, left)
}

/// Whether `taker` trades against a maker at `maker_price`.
pub(crate) fn does_cross(taker: &Order, maker_price: Price) -> (r: bool)
    ensures
        r == crosses(taker.side, taker.order_type, taker.price, maker_price),
{
    match taker.order_type {
        OrderType::Market => true,
        OrderType::Limit => match taker.side {
            OrderSide::Buy => taker.price >= maker_price,
            OrderSide::Sell => taker.price <= maker_price,
        },
    }
}

/// Consumes the levels of the side opposite to `taker`, best price first.
pub(crate) fn consume_levels(
    levels: &mut BTreeMap<Price, VecDeque<OrderId>>,
    orders: &mut HashMap<OrderId, Order>,
    taker: &Order,
) -> (r: (Vec<Trade>, Qty))
    requires
        side_wf(ladder(old(levels)@, taker.side.spec_opposite()), taker.side.spec_opposite(), old(orders)@),
    ensures
        ({
            let out = match_levels(
                ladder(old(levels)@, taker.side.spec_opposite()),
                old(orders)@,
                taker.side,
                taker.order_type,
                taker.price,
                taker.quantity,
            );
            &&& ladder(final(levels)@, taker.side.spec_opposite()) == out.levels
            &&& final(orders)@ == out.orders
            &&& fills_of(r.0@) == out.fills
            &&& r.1 == out.remaining
            &&& taken_by(r.0@, *taker)
        }),
{
    let makers = taker.side.opposite();
    let mut trades: Vec<Trade> = Vec::new();
    let mut left: Qty = taker.quantity;
    let ghost goal = match_levels(
        ladder(levels@, makers),
        orders@,
        taker.side,
        taker.order_type,
        taker.price,
        taker.quantity,
    );
    assert(fills_of(trades@) =~= Seq::<Fill>::empty());
    while left > 0
        invariant
            makers == taker.side.spec_opposite(),
            side_wf(ladder(levels@, makers), makers, orders@),
            taken_by(trades@, *taker),
            goal == match_levels(
                ladder(old(levels)@, makers),
                old(orders)@,
                taker.side,
                taker.order_type,
                taker.price,
                taker.quantity,
            ),
            ({
                let out = match_levels(ladder(levels@, makers), orders@, taker.side, taker.order_type, taker.price, left);
                &&& goal.levels == out.levels
                &&& goal.orders == out.orders
                &&& goal.remaining == out.remaining
                &&& goal.fills == fills_of(trades@) + out.fills
            }),
        decreases levels@.dom().len(),
    {
        let ghost lv = ladder(levels@, makers);
        let ghost before_levels = levels@;
        let ghost before_orders = orders@;
        let ghost before_trades = trades@;
        let ghost step = match_levels(lv, before_orders, taker.side, taker.order_type, taker.price, left);
        let price = match best_price(levels, makers) {
            Some(price) => price,
            None => {
                assert(step.fills =~= Seq::<Fill>::empty());
                assert(goal.fills =~= fills_of(trades@));
                return (trades, left);
            },
        };
        if !does_cross(taker, price) {
            assert(step.fills =~= Seq::<Fill>::empty());
            assert(goal.fills =~= fills_of(trades@));
            return (trades, left);
        }
        let taken = levels.remove(&price);
        let mut queue = match taken {
            Some(queue) => queue,
            None => { assert(false); return (trades, left); },
        };
        proof {
            assert(levels@ == before_levels.remove(price));
            assert(ladder(levels@, makers) == lv.skip(1));
            assert(queue@ == lv[0].queue);
            assert(lv[0].queue.len() > 0);
            assert(lv[0].queue.no_duplicates());
            assert forall|k: int| 0 <= k < queue@.len() implies before_orders.contains_key(#[trigger] queue@[k]) by {
                assert(rests_at(before_orders, lv[0].queue[k], makers, lv[0].price));
            }
            lemma_rest_stays_wf(lv, makers, before_orders, left);
        }
        let (mut part, rest) = consume_queue(&mut queue, orders, price, taker, left);
        proof {
            lemma_fills_of_add(before_trades, part@);
        }
        let ghost part_view = part@;
        trades.append(&mut part);
        left = rest;
        assert(trades@ == before_trades + part_view);
        assert(taken_by(trades@, *taker)) by {
            assert forall|i: int| 0 <= i < trades@.len() implies (#[trigger] trades@[i]).taker_order_id == taker.id
                && trades@[i].taker_user_id == taker.user_id by {
                if i < before_trades.len() {
                    assert(trades@[i] == before_trades[i]);
                } else {
                    assert(trades@[i] == part_view[i - before_trades.len()]);
                }
            }
        }
        if queue.len() > 0 {
            levels.insert(price, queue);
            proof {
                lemma_head_replaced(before_levels, makers, price, levels@);
                assert(step.levels == ladder(levels@, makers));
                assert(step.orders == orders@);
                assert(step.remaining == left);
                assert(step.fills == fills_of(part_view));
                assert(goal.fills =~= fills_of(trades@));
            }
            return (trades, left);
        }
        proof {
            let out = match_levels(ladder(levels@, makers), orders@, taker.side, taker.order_type, taker.price, left);
            assert(step.fills == fills_of(part_view) + out.fills);
            assert(goal.fills =~= fills_of(trades@) + out.fills);
        }
    }
    proof {
        let out = match_levels(ladder(levels@, makers), orders@, taker.side, taker.order_type, taker.price, left);
        assert(out.fills =~= Seq::<Fill>::empty());
        assert(goal.fills =~= fills_of(trades@));
    }
    (trades, left)
}

/// The total that rests in one queue, or `None` if it does not fit.
pub(crate) fn queue_total(queue: &VecDeque<OrderId>, orders: &HashMap<OrderId, Order>) -> (r: Option<Qty>)
    requires
        queue_known(queue@, orders@),
    ensures
        match r {
            Some(t) => t == level_total(queue@, orders@),
            None => level_total(queue@, orders@) > u64::MAX,
        },
{
    let mut total: Qty = 0;
    let mut k: usize = 0;
    assert(queue@.take(0) =~= Seq::<OrderId>::empty());
    while k < queue.len()
        invariant
            0 <= k <= queue@.len(),
            queue_known(queue@, orders@),
            total == level_total(queue@.take(k as int), orders@),
        decreases queue@.len() - k,
    {
        let id: OrderId = queue[k];
        assert(orders@.contains_key(queue@[k as int]));
        let quantity: Qty = match orders.get(&id) {
            Some(order) => order.quantity,
            None => 0,
        };
        proof {
            lemma_level_total_take(queue@, orders@, k as int);
            lemma_level_total_take(queue@, orders@, k as int + 1);
        }
        if quantity > u64::MAX - total {
            return None;
        }
        total = total + quantity;
        k = k + 1;
    }
    assert(queue@.take(k as int) =~= queue@);
    Some(total)
}

/// The depth of one side, or `None` if the total of a level does not fit.
/// It walks a copy of the side, best price first.
pub(crate) fn side_depth(
    levels: &BTreeMap<Price, VecDeque<OrderId>>,
    orders: &HashMap<OrderId, Order>,
    side: OrderSide,
) -> (r: Option<Vec<(Price, Qty)>>)
    requires
        side_wf(ladder(levels@, side), side, orders@),
    ensures
        match r {
            Some(d) => {
                &&& depth_fits(ladder(levels@, side), orders@)
                &&& widen(d@) == depth(ladder(levels@, side), orders@)
                &&& forall|i: int| 0 <= i < d@.len() ==> (#[trigger] d@[i]).1 > 0
            },
            None => !depth_fits(ladder(levels@, side), orders@),
        },
{
    let ghost lv = ladder(levels@, side);
    let mut rest = levels.clone();
    let mut out: Vec<(Price, Qty)> = Vec::new();
    assert(lv.skip(0) =~= lv);
    loop
        invariant
            lv == ladder(levels@, side),
            side_wf(lv, side, orders@),
            0 <= out@.len() <= lv.len(),
            ladder(rest@, side) == lv.skip(out@.len() as int),
            forall|j: int|
                0 <= j < out@.len() ==> (#[trigger] out@[j]).0 == lv[j].price && out@[j].1 == level_total(
                    lv[j].queue,
                    orders@,
                ) && out@[j].1 > 0,
        decreases rest@.dom().len(),
    {
        let ghost n = out@.len() as int;
        let price = match best_price(&rest, side) {
            Some(price) => price,
            None => {
                assert(n == lv.len());
                assert(widen(out@) =~= depth(lv, orders@));
                assert forall|j: int| 0 <= j < lv.len() implies level_total(#[trigger] lv[j].queue, orders@)
                    <= u64::MAX by {
                    assert(out@[j].1 == level_total(lv[j].queue, orders@));
                }
                return Some(out);
            },
        };
        let ghost before_rest = rest@;
        let taken = rest.remove(&price);
        let queue = match taken {
            Some(queue) => queue,
            None => { assert(false); return None; },
        };
        proof {
            assert(rest@ == before_rest.remove(price));
            assert(n < lv.len());
            assert(lv.skip(n)[0] == lv[n]);
            assert(lv[n].price == price && lv[n].queue == queue@);
            assert(ladder(rest@, side) =~= lv.skip(n + 1));
            assert forall|k: int| 0 <= k < queue@.len() implies orders@.contains_key(#[trigger] queue@[k]) by {
                assert(rests_at(orders@, lv[n].queue[k], side, lv[n].price));
            }
            lemma_level_total_nonneg(lv[n].queue, orders@);
            assert(lv[n].queue.len() > 0);
            let last = lv[n].queue.len() - 1;
            assert(rests_at(orders@, lv[n].queue[last], side, lv[n].price));
        }
        match queue_total(&queue, orders) {
            Some(total) => {
                out.push((price, total));
            },
            None => {
                assert(level_total(lv[n].queue, orders@) > u64::MAX);
                return None;
            },
        }
    }
}

/// The order book of one symbol: two ladders of price levels, the records
/// of the resting orders, and a bounded memory of recent trades.
pub struct OrderBook {
    bids: BTreeMap<Price, VecDeque<OrderId>>,
    asks: BTreeMap<Price, VecDeque<OrderId>>,
    orders: HashMap<OrderId, Order>,
    trades: VecDeque<Trade>,
}

impl View for OrderBook {
    type V = BookView;

    closed spec fn view(&self) -> BookView {
        BookView {
            bids: ladder(self.bids@, OrderSide::Buy),
            asks: ladder(self.asks@, OrderSide::Sell),
            orders: self.orders@,
            trades: self.trades@,
        }
    }
}

/// `order` as a taker of the given side.
pub open spec fn on_side(order: Order, side: OrderSide) -> Order {
    Order { side, ..order }
}

impl OrderBook {
    /// An empty book.
    pub fn new() -> (book: Self)
        ensures
            book@ == empty_book(),
            book@.wf(),
    {
        let book = OrderBook {
            bids: BTreeMap::new(),
            asks: BTreeMap::new(),
            orders: HashMap::new(),
            trades: VecDeque::new(),
        };
        proof {
            lemma_ladder_lists(book.bids@, OrderSide::Buy);
            lemma_ladder_lists(book.asks@, OrderSide::Sell);
            assert(book@.bids =~= Seq::<LevelView>::empty());
            assert(book@.asks =~= Seq::<LevelView>::empty());
        }
        book
    }

    /// Matches `order` as a buyer against the asks, lowest price first, and
    /// returns the trades in execution order. `order` keeps what is left.
    pub fn match_buy_order(&mut self, order: &mut Order) -> (trades: Vec<Trade>)
        requires
            old(self)@.wf(),
        ensures
            ({
                let out = match_book(old(self)@, on_side(*old(order), OrderSide::Buy));
                &&& final(self)@ == out.book
                &&& fills_of(trades@) == out.fills
                &&& *final(order) == on_side(out.order, old(order).side)
                &&& taken_by(trades@, *old(order))
            }),
            final(self)@.wf(),
    {
        let taker = Order {
            id: order.id,
            user_id: order.user_id,
            side: OrderSide::Buy,
            order_type: order.order_type,
            price: order.price,
            quantity: order.quantity,
            status: order.status,
            timestamp: order.timestamp,
        };
        proof {
            lemma_match_book_wf(self@, taker);
        }
        let (trades, left) = consume_levels(&mut self.asks, &mut self.orders, &taker);
        if trades.len() > 0 {
            order.status = status_for(order.quantity, left);
        }
        order.quantity = left;
        trades
    }

    /// Matches `order` as a seller against the bids, highest price first, and
    /// returns the trades in execution order. `order` keeps what is left.
    pub fn match_sell_order(&mut self, order: &mut Order) -> (trades: Vec<Trade>)
        requires
            old(self)@.wf(),
        ensures
            ({
                let out = match_book(old(self)@, on_side(*old(order), OrderSide::Sell));
                &&& final(self)@ == out.book
                &&& fills_of(trades@) == out.fills
                &&& *final(order) == on_side(out.order, old(order).side)
                &&& taken_by(trades@, *old(order))
            }),
            final(self)@.wf(),
    {
        let taker = Order {
            id: order.id,
            user_id: order.user_id,
            side: OrderSide::Sell,
            order_type: order.order_type,
            price: order.price,
            quantity: order.quantity,
            status: order.status,
            timestamp: order.timestamp,
        };
        proof {
            lemma_match_book_wf(self@, taker);
        }
        let (trades, left) = consume_levels(&mut self.bids, &mut self.orders, &taker);
        if trades.len() > 0 {
            order.status = status_for(order.quantity, left);
        }
        order.quantity = left;
        trades
    }

    /// Matches `order` against the opposite side of the book and returns the
    /// trades with the order as matching left it. The order does not rest.
    pub fn match_order(&mut self, order: Order) -> (r: (Vec<Trade>, Order))
        requires
            old(self)@.wf(),
        ensures
            ({
                let out = match_book(old(self)@, order);
                &&& final(self)@ == out.book
                &&& fills_of(r.0@) == out.fills
                &&& r.1 == out.order
                &&& taken_by(r.0@, order)
            }),
            final(self)@.wf(),
    {
        let mut order = order;
        let trades = match order.side {
            OrderSide::Buy => self.match_buy_order(&mut order),
            OrderSide::Sell => self.match_sell_order(&mut order),
        };
        (trades, order)
    }

    /// Remembers `fresh` trades and forgets the oldest beyond the bound.
    fn store_trades(&mut self, fresh: &Vec<Trade>)
        ensures
            final(self)@ == (BookView { trades: remember(old(self)@.trades, fresh@), ..old(self)@ }),
    {
        let ghost before = self.trades@;
        let mut j: usize = 0;
        while j < fresh.len()
            invariant
                0 <= j <= fresh.len(),
                self.trades@ == before + fresh@.take(j as int),
                self.bids == old(self).bids,
                self.asks == old(self).asks,
                self.orders == old(self).orders,
            decreases fresh.len() - j,
        {
            self.trades.push_back(fresh[j]);
            j = j + 1;
            assert(self.trades@ =~= before + fresh@.take(j as int));
        }
        assert(fresh@.take(j as int) =~= fresh@);
        let ghost all = before + fresh@;
        while self.trades.len() > MAX_TRADES
            invariant
                self.trades@.len() <= all.len(),
                self.trades@ == all.skip(all.len() - self.trades@.len()),
                all.len() <= MAX_TRADES ==> self.trades@.len() == all.len(),
                all.len() > MAX_TRADES ==> self.trades@.len() >= MAX_TRADES,
                self.bids == old(self).bids,
                self.asks == old(self).asks,
                self.orders == old(self).orders,
            decreases self.trades@.len(),
        {
            let ghost cur = self.trades@;
            self.trades.pop_front();
            assert(self.trades@ =~= all.skip(all.len() - self.trades@.len()));
        }
        assert(self.trades@ =~= remember(before, fresh@));
    }

    /// Takes in an order with its identifier and time: matches it, remembers
    /// the trades, and rests what is left of a limit order at the tail of
    /// its level. Returns the order as matching left it, with the trades in
    /// execution order.
    pub fn submit_order(&mut self, order: Order) -> (r: (Order, Vec<Trade>))
        requires
            old(self)@.wf(),
            order.status == OrderStatus::Pending,
            !old(self)@.orders.contains_key(order.id),
        ensures
            r.0 == match_book(old(self)@, order).order,
            fills_of(r.1@) == match_book(old(self)@, order).fills,
            taken_by(r.1@, order),
            final(self)@ == settle(old(self)@, order, r.1@),
            final(self)@.wf(),
    {
        proof {
            lemma_match_book_wf(self@, order);
        }
        let (trades, matched) = self.match_order(order);
        self.store_trades(&trades);
        if matched.quantity > 0 {
            match matched.order_type {
                OrderType::Limit => {
                    proof {
                        lemma_rest_order_wf(self@, matched);
                    }
                    self.orders.insert(matched.id, matched);
                    match matched.side {
                        OrderSide::Buy => rest_level(&mut self.bids, OrderSide::Buy, matched.price, matched.id),
                        OrderSide::Sell => rest_level(&mut self.asks, OrderSide::Sell, matched.price, matched.id),
                    }
                },
                OrderType::Market => {},
            }
        }
        (matched, trades)
    }

    /// Takes in a new order under the identifier and the time given. Returns
    /// `None`, and leaves the book as it is, exactly if a resting order
    /// holds the identifier; else the order as matching left it, with its
    /// trades in execution order.
    pub fn place_order(
        &mut self,
        id: OrderId,
        timestamp: Timestamp,
        user_id: UserId,
        price: Price,
        qty: Qty,
        side: OrderSide,
        order_type: OrderType,
    ) -> (r: Option<(Order, Vec<Trade>)>)
        requires
            old(self)@.wf(),
        ensures
            final(self)@.wf(),
            r is None <==> old(self)@.orders.contains_key(id),
            match r {
                None => final(self)@ == old(self)@,
                Some((order, trades)) => {
                    let taker = incoming(id, user_id, price, qty, side, order_type, timestamp);
                    &&& order == match_book(old(self)@, taker).order
                    &&& fills_of(trades@) == match_book(old(self)@, taker).fills
                    &&& taken_by(trades@, taker)
                    &&& final(self)@ == settle(old(self)@, taker, trades@)
                },
            },
    {
        if self.orders.contains_key(&id) {
            return None;
        }
        let order = Order { id, user_id, side, order_type, price, quantity: qty, status: OrderStatus::Pending, timestamp };
        let (matched, trades) = self.submit_order(order);
        Some((matched, trades))
    }

    /// Takes in a new order under a fresh identifier and the current time.
    /// Returns `None`, and leaves the book as it is, if the identifier drawn
    /// is already held by a resting order; else the order as matching left
    /// it, with its trades. On a book on which no order rests no identifier
    /// is held, and the order is always taken in.
    pub fn add_order(
        &mut self,
        user_id: UserId,
        price: Price,
        qty: Qty,
        side: OrderSide,
        order_type: OrderType,
    ) -> (r: Option<(Order, Vec<Trade>)>)
        requires
            old(self)@.wf(),
        ensures
            final(self)@.wf(),
            old(self)@.orders.dom().is_empty() ==> r is Some,
            match r {
                None => final(self)@ == old(self)@,
                Some((order, trades)) => {
                    let taker = incoming(order.id, user_id, price, qty, side, order_type, order.timestamp);
                    &&& !old(self)@.orders.contains_key(order.id)
                    &&& order == match_book(old(self)@, taker).order
                    &&& fills_of(trades@) == match_book(old(self)@, taker).fills
                    &&& taken_by(trades@, taker)
                    &&& final(self)@ == settle(old(self)@, taker, trades@)
                },
            },
    {
        let id = fresh_id();
        let timestamp = now_micros();
        let r = self.place_order(id, timestamp, user_id, price, qty, side, order_type);
        proof {
            if r is None {
                assert(old(self)@.orders.dom().contains(id));
            }
        }
        r
    }

    /// Puts a stored open order back at the tail of its level, without
    /// matching. Returns whether it did: an order that cannot rest (a market
    /// order, one that is filled or cancelled, one with nothing left, one
    /// whose identifier the book holds) is refused and the book stays as it
    /// is.
    pub fn restore_order(&mut self, order: Order) -> (done: bool)
        requires
            old(self)@.wf(),
        ensures
            done == can_rest(old(self)@, order),
            final(self)@ == (if done { rest_order(old(self)@, order) } else { old(self)@ }),
            final(self)@.wf(),
    {
        if order.quantity == 0 || self.orders.contains_key(&order.id) {
            return false;
        }
        match order.status {
            OrderStatus::Filled => { return false; },
            OrderStatus::Cancelled => { return false; },
            _ => {},
        }
        match order.order_type {
            OrderType::Market => false,
            OrderType::Limit => {
                proof {
                    lemma_rest_order_wf(self@, order);
                }
                self.orders.insert(order.id, order);
                match order.side {
                    OrderSide::Buy => rest_level(&mut self.bids, OrderSide::Buy, order.price, order.id),
                    OrderSide::Sell => rest_level(&mut self.asks, OrderSide::Sell, order.price, order.id),
                }
                true
            },
        }
    }

    /// The highest bid, if any order is bidding.
    pub fn best_bid(&self) -> (r: Option<Price>)
        ensures
            r == self@.best(OrderSide::Buy),
    {
        best_price(&self.bids, OrderSide::Buy)
    }

    /// The lowest ask, if any order is asking.
    pub fn best_ask(&self) -> (r: Option<Price>)
        ensures
            r == self@.best(OrderSide::Sell),
    {
        best_price(&self.asks, OrderSide::Sell)
    }

    /// The record of a resting order.
    pub fn get_order_by_id(&self, order_id: OrderId) -> (r: Option<Order>)
        ensures
            r == (if self@.orders.contains_key(order_id) {
                Some(self@.orders[order_id])
            } else {
                None::<Order>
            }),
    {
        match self.orders.get(&order_id) {
            Some(order) => Some(*order),
            None => None,
        }
    }

    /// The newest trades, newest first, `limit` of them at most.
    pub fn get_recent_trades(&self, limit: usize) -> (r: Vec<Trade>)
        ensures
            r@ == recent(self@.trades, limit as int),
    {
        let total = self.trades.len();
        let n = if limit < total { limit } else { total };
        let mut out: Vec<Trade> = Vec::new();
        let mut i: usize = 0;
        while i < n
            invariant
                0 <= i <= n <= total,
                total == self.trades@.len(),
                out@.len() == i,
                forall|j: int| 0 <= j < i ==> out@[j] == self.trades@[total - 1 - j],
            decreases n - i,
        {
            out.push(self.trades[total - 1 - i]);
            i = i + 1;
        }
        assert(out@ =~= recent(self@.trades, limit as int));
        out
    }

    /// All remembered trades, oldest first.
    pub fn get_all_trades(&self) -> (r: Vec<Trade>)
        ensures
            r@ == self@.trades,
    {
        let mut out: Vec<Trade> = Vec::new();
        let mut i: usize = 0;
        while i < self.trades.len()
            invariant
                0 <= i <= self.trades@.len(),
                out@ == self.trades@.take(i as int),
            decreases self.trades@.len() - i,
        {
            out.push(self.trades[i]);
            i = i + 1;
            assert(out@ =~= self.trades@.take(i as int));
        }
        assert(self.trades@.take(i as int) =~= self.trades@);
        out
    }

    /// Takes a resting order off the book and returns its record; `None`,
    /// and nothing changes, where the book holds no such order.
    pub fn remove_order(&mut self, order_id: OrderId) -> (r: Option<Order>)
        requires
            old(self)@.wf(),
        ensures
            r == (if old(self)@.orders.contains_key(order_id) {
                Some(old(self)@.orders[order_id])
            } else {
                None::<Order>
            }),
            final(self)@ == remove_order(old(self)@, order_id),
            final(self)@.wf(),
    {
        proof {
            lemma_remove_order_wf(self@, order_id);
        }
        let found = match self.orders.get(&order_id) {
            Some(order) => *order,
            None => { return None; },
        };
        match found.side {
            OrderSide::Buy => unlist_level(
                &mut self.bids,
                found.price,
                order_id,
                Ghost(OrderSide::Buy),
                Ghost(self.orders@),
            ),
            OrderSide::Sell => unlist_level(
                &mut self.asks,
                found.price,
                order_id,
                Ghost(OrderSide::Sell),
                Ghost(self.orders@),
            ),
        }
        self.orders.remove(&order_id);
        Some(found)
    }

    /// The depth of one side in traversal order: each price with the total
    /// quantity that rests there. `None` if a total does not fit.
    pub fn checked_depth(&self, side: OrderSide) -> (r: Option<Vec<(Price, Qty)>>)
        requires
            self@.wf(),
        ensures
            match r {
                Some(d) => {
                    &&& depth_fits(self@.side(side), self@.orders)
                    &&& widen(d@) == depth(self@.side(side), self@.orders)
                    &&& forall|i: int| 0 <= i < d@.len() ==> (#[trigger] d@[i]).1 > 0
                },
                None => !depth_fits(self@.side(side), self@.orders),
            },
    {
        match side {
            OrderSide::Buy => side_depth(&self.bids, &self.orders, OrderSide::Buy),
            OrderSide::Sell => side_depth(&self.asks, &self.orders, OrderSide::Sell),
        }
    }

    /// The bids, highest price first, each with the total that rests there.
    pub fn get_bids(&self) -> (r: Vec<(Price, Qty)>)
        requires
            self@.wf(),
            depth_fits(self@.bids, self@.orders),
        ensures
            widen(r@) == depth(self@.bids, self@.orders),
            forall|i: int| 0 <= i < r@.len() ==> (#[trigger] r@[i]).1 > 0,
    {
        match side_depth(&self.bids, &self.orders, OrderSide::Buy) {
            Some(d) => d,
            None => Vec::new(),
        }
    }

    /// The asks, lowest price first, each with the total that rests there.
    pub fn get_asks(&self) -> (r: Vec<(Price, Qty)>)
        requires
            self@.wf(),
            depth_fits(self@.asks, self@.orders),
        ensures
            widen(r@) == depth(self@.asks, self@.orders),
            forall|i: int| 0 <= i < r@.len() ==> (#[trigger] r@[i]).1 > 0,
    {
        match side_depth(&self.asks, &self.orders, OrderSide::Sell) {
            Some(d) => d,
            None => Vec::new(),
        }
    }
}

/// The status of an order that came with `initial` and has `remaining` left.
pub(crate) fn status_for(initial: Qty, remaining: Qty) -> (s: OrderStatus)
    ensures
        s == status_of(initial, remaining),
{
    if remaining == 0 {
        OrderStatus::Filled
    } else if remaining < initial {
        OrderStatus::PartiallyFilled
    } else {
        OrderStatus::Pending
    }
}

} // verus!
