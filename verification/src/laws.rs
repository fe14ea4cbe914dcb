//! What holds of every book and every submission.

use vstd::prelude::*;
use crate::book_lemmas::{
    lemma_fills_total_add, lemma_fills_total_one, lemma_match_book_wf, lemma_match_levels_wf,
    lemma_match_queue_frame, lemma_match_queue_wf, lemma_rest_stays_wf, queue_rests,
};
use crate::model::{
    BookView, Fill, LevelView, crosses, fills_total, is_level_of, is_open, level_total, listed, match_book,
    match_levels, match_queue, precedes, queue_at, rests_at, settle, side_total, side_wf, sits,
};
use crate::types::{Order, OrderId, OrderSide, OrderStatus, OrderType, Price, Qty, Trade};

verus! {

/// The total of a queue is the quantity of its head and the total of the rest.
pub proof fn lemma_level_total_front(queue: Seq<OrderId>, orders: Map<OrderId, Order>)
    requires
        queue.len() > 0,
    ensures
        level_total(queue, orders) == orders[queue[0]].quantity + level_total(queue.skip(1), orders),
    decreases queue.len(),
{
    if queue.len() == 1 {
        assert(queue.drop_last() =~= Seq::<OrderId>::empty());
        assert(queue.skip(1) =~= Seq::<OrderId>::empty());
        assert(level_total(queue.drop_last(), orders) == 0);
    } else {
        lemma_level_total_front(queue.drop_last(), orders);
        assert(queue.skip(1).drop_last() =~= queue.drop_last().skip(1));
        assert(queue.skip(1).last() == queue.last());
    }
}

/// Records that agree on a queue's quantities give the queue one total.
pub proof fn lemma_level_total_agree(queue: Seq<OrderId>, a: Map<OrderId, Order>, b: Map<OrderId, Order>)
    requires
        forall|k: int| 0 <= k < queue.len() ==> a[#[trigger] queue[k]].quantity == b[queue[k]].quantity,
    ensures
        level_total(queue, a) == level_total(queue, b),
    decreases queue.len(),
{
    if queue.len() > 0 {
        let front = queue.drop_last();
        assert forall|k: int| 0 <= k < front.len() implies a[#[trigger] front[k]].quantity == b[front[k]].quantity by {
            assert(front[k] == queue[k]);
        }
        lemma_level_total_agree(front, a, b);
        assert(queue.last() == queue[queue.len() - 1]);
    }
}

/// The total of a side is the total of its first level and that of the rest.
pub proof fn lemma_side_total_front(levels: Seq<LevelView>, orders: Map<OrderId, Order>)
    requires
        levels.len() > 0,
    ensures
        side_total(levels, orders) == level_total(levels[0].queue, orders) + side_total(levels.skip(1), orders),
    decreases levels.len(),
{
    if levels.len() == 1 {
        assert(levels.drop_last() =~= Seq::<LevelView>::empty());
        assert(levels.skip(1) =~= Seq::<LevelView>::empty());
        assert(side_total(levels.drop_last(), orders) == 0);
    } else {
        lemma_side_total_front(levels.drop_last(), orders);
        assert(levels.skip(1).drop_last() =~= levels.drop_last().skip(1));
        assert(levels.skip(1).last() == levels.last());
    }
}

/// Records that agree on a side's quantities give the side one total.
pub proof fn lemma_side_total_agree(levels: Seq<LevelView>, a: Map<OrderId, Order>, b: Map<OrderId, Order>)
    requires
        forall|id: OrderId| #[trigger] listed(levels, id) ==> a[id].quantity == b[id].quantity,
    ensures
        side_total(levels, a) == side_total(levels, b),
    decreases levels.len(),
{
    if levels.len() > 0 {
        let front = levels.drop_last();
        let n = levels.len() - 1;
        assert forall|id: OrderId| #[trigger] listed(front, id) implies a[id].quantity == b[id].quantity by {
            let (i, k) = choose|i: int, k: int| sits(front, i, k, id);
            assert(sits(levels, i, k, id));
            assert(listed(levels, id));
        }
        lemma_side_total_agree(front, a, b);
        assert forall|k: int| 0 <= k < levels[n].queue.len() implies a[#[trigger] levels[n].queue[k]].quantity
            == b[levels[n].queue[k]].quantity by {
            assert(sits(levels, n, k, levels[n].queue[k]));
            assert(listed(levels, levels[n].queue[k]));
        }
        lemma_level_total_agree(levels.last().queue, a, b);
    }
}

/// What a queue loses in matching is what its fills add up to.
pub proof fn lemma_match_queue_totals(
    queue: Seq<OrderId>,
    orders: Map<OrderId, Order>,
    side: OrderSide,
    price: Price,
    remaining: Qty,
)
    requires
        queue.no_duplicates(),
        queue_rests(queue, orders, side, price),
    ensures
        ({
            let out = match_queue(queue, orders, price, remaining);
            level_total(queue, orders) - level_total(out.queue, out.orders) == fills_total(out.fills)
        }),
    decreases queue.len(),
{
    let out = match_queue(queue, orders, price, remaining);
    if remaining == 0 || queue.len() == 0 {
    } else {
        let maker = orders[queue[0]];
        let q1 = queue.skip(1);
        lemma_level_total_front(queue, orders);
        lemma_match_queue_wf(queue, orders, side, price, remaining);
        assert forall|k: int| 0 <= k < q1.len() implies #[trigger] q1[k] != queue[0] && rests_at(
            orders,
            q1[k],
            side,
            price,
        ) by {
            assert(q1[k] == queue[k + 1]);
            assert(rests_at(orders, queue[k + 1], side, price));
        }
        if maker.quantity <= remaining {
            let o1 = orders.remove(queue[0]);
            let r1 = (remaining - maker.quantity) as Qty;
            assert(q1.no_duplicates()) by {
                assert forall|a: int, b: int| 0 <= a < q1.len() && 0 <= b < q1.len() && a != b implies q1[a]
                    != q1[b] by {
                    assert(q1[a] == queue[a + 1]);
                    assert(q1[b] == queue[b + 1]);
                }
            }
            assert(queue_rests(q1, o1, side, price));
            lemma_match_queue_totals(q1, o1, side, price, r1);
            lemma_level_total_agree(q1, orders, o1);
            let rest = match_queue(q1, o1, price, r1);
            let fill = out.fills[0];
            assert(out.fills =~= seq![fill] + rest.fills);
            lemma_fills_total_add(seq![fill], rest.fills);
            lemma_fills_total_one(fill);
        } else {
            lemma_level_total_front(queue, out.orders);
            lemma_level_total_agree(q1, orders, out.orders);
            lemma_fills_total_one(out.fills[0]);
            assert(out.fills =~= seq![out.fills[0]]);
        }
    }
}

/// What a side loses in matching is what its fills add up to.
pub proof fn lemma_match_levels_totals(
    levels: Seq<LevelView>,
    orders: Map<OrderId, Order>,
    mside: OrderSide,
    side: OrderSide,
    kind: OrderType,
    price: Price,
    remaining: Qty,
)
    requires
        side_wf(levels, mside, orders),
    ensures
        ({
            let out = match_levels(levels, orders, side, kind, price, remaining);
            side_total(levels, orders) - side_total(out.levels, out.orders) == fills_total(out.fills)
        }),
    decreases levels.len(),
{
    let out = match_levels(levels, orders, side, kind, price, remaining);
    if remaining == 0 || levels.len() == 0 || !crosses(side, kind, price, levels[0].price) {
    } else {
        let l0 = levels[0];
        let tail = levels.skip(1);
        let q = match_queue(l0.queue, orders, l0.price, remaining);
        assert(queue_rests(l0.queue, orders, mside, l0.price)) by {
            assert forall|k: int| 0 <= k < l0.queue.len() implies rests_at(orders, #[trigger] l0.queue[k], mside, l0.price) by {
                assert(rests_at(orders, levels[0].queue[k], mside, levels[0].price));
            }
        }
        lemma_match_queue_wf(l0.queue, orders, mside, l0.price, remaining);
        lemma_match_queue_frame(l0.queue, orders, l0.price, remaining);
        lemma_match_queue_totals(l0.queue, orders, mside, l0.price, remaining);
        lemma_rest_stays_wf(levels, mside, orders, remaining);
        lemma_side_total_front(levels, orders);
        assert forall|id: OrderId| #[trigger] listed(tail, id) implies orders[id].quantity == q.orders[id].quantity by {
            let (i, k) = choose|i: int, k: int| sits(tail, i, k, id);
            assert(tail[i] == levels[i + 1]);
            assert(rests_at(orders, levels[i + 1].queue[k], mside, levels[i + 1].price));
            if l0.queue.contains(id) {
                let j = choose|j: int| 0 <= j < l0.queue.len() && l0.queue[j] == id;
                assert(rests_at(orders, levels[0].queue[j], mside, levels[0].price));
                assert(precedes(mside, levels[0].price, levels[i + 1].price));
            }
        }
        lemma_side_total_agree(tail, orders, q.orders);
        if q.queue.len() > 0 {
            let nl = levels.update(0, LevelView { price: l0.price, queue: q.queue });
            lemma_side_total_front(nl, q.orders);
            assert(nl.skip(1) =~= tail);
        } else {
            lemma_match_levels_totals(tail, q.orders, mside, side, kind, price, q.remaining);
            let rest = match_levels(tail, q.orders, side, kind, price, q.remaining);
            lemma_fills_total_add(q.fills, rest.fills);
            assert(level_total(q.queue, q.orders) == 0);
        }
    }
}

/// Conservation. In every matching, the quantities of the fills add up to
/// what the taker lost, and to what the makers' side lost.
pub proof fn law_conservation(book: BookView, taker: Order)
    requires
        book.wf(),
    ensures
        ({
            let m = match_book(book, taker);
            let makers = taker.side.spec_opposite();
            &&& m.order.quantity <= taker.quantity
            &&& fills_total(m.fills) == taker.quantity - m.order.quantity
            &&& fills_total(m.fills) == side_total(book.side(makers), book.orders) - side_total(
                m.book.side(makers),
                m.book.orders,
            )
        }),
{
    let makers = taker.side.spec_opposite();
    lemma_match_book_wf(book, taker);
    lemma_match_levels_totals(
        book.side(makers),
        book.orders,
        makers,
        taker.side,
        taker.order_type,
        taker.price,
        taker.quantity,
    );
}

/// Status law. After an incoming order with quantity has been matched, it
/// is filled exactly if nothing is left of it, partially filled exactly if
/// less is left than it came with, and pending otherwise. Every order that
/// rests afterwards has quantity left and is pending or partially filled.
pub proof fn law_status(book: BookView, taker: Order)
    requires
        book.wf(),
        taker.status == OrderStatus::Pending,
        taker.quantity > 0,
    ensures
        ({
            let m = match_book(book, taker);
            &&& m.order.status == OrderStatus::Filled <==> m.order.quantity == 0
            &&& m.order.status == OrderStatus::PartiallyFilled <==> 0 < m.order.quantity < taker.quantity
            &&& m.order.status == OrderStatus::Pending <==> m.order.quantity == taker.quantity
            &&& forall|id: OrderId| #[trigger]
                m.book.orders.contains_key(id) ==> m.book.orders[id].quantity > 0 && is_open(
                    m.book.orders[id].status,
                )
        }),
{
    let m = match_book(book, taker);
    let makers = taker.side.spec_opposite();
    lemma_match_book_wf(book, taker);
    lemma_match_levels_wf(
        book.side(makers),
        book.orders,
        makers,
        taker.side,
        taker.order_type,
        taker.price,
        taker.quantity,
    );
    if m.fills.len() > 0 {
        assert(m.fills[0].quantity > 0);
        assert(m.fills.drop_last().len() >= 0);
        lemma_fills_positive(m.fills);
    } else {
        assert(fills_total(m.fills) == 0);
    }
    assert forall|id: OrderId| #[trigger] m.book.orders.contains_key(id) implies m.book.orders[id].quantity > 0
        && is_open(m.book.orders[id].status) by {
        lemma_resting_record(m.book, id);
    }
}

/// Fills with quantity add up to a quantity.
pub proof fn lemma_fills_positive(fills: Seq<Fill>)
    requires
        fills.len() > 0,
        forall|i: int| 0 <= i < fills.len() ==> (#[trigger] fills[i]).quantity > 0,
    ensures
        fills_total(fills) > 0,
    decreases fills.len(),
{
    if fills.len() > 1 {
        let front = fills.drop_last();
        assert forall|i: int| 0 <= i < front.len() implies (#[trigger] front[i]).quantity > 0 by {
            assert(front[i] == fills[i]);
        }
        lemma_fills_positive(front);
    } else {
        assert(fills.drop_last() =~= Seq::<Fill>::empty());
        assert(fills_total(fills.drop_last()) == 0);
        assert(fills.last() == fills[0]);
    }
}

/// Every record of a book in order sits in the queue of its own side and
/// price, and is an open limit order with quantity left.
pub proof fn lemma_resting_record(book: BookView, id: OrderId)
    requires
        book.wf(),
        book.orders.contains_key(id),
    ensures
        rests_at(book.orders, id, book.orders[id].side, book.orders[id].price),
        exists|i: int, k: int|
            sits(book.side(book.orders[id].side), i, k, id) && book.side(book.orders[id].side)[i].price
                == book.orders[id].price,
{
    let side = book.orders[id].side;
    let levels = book.side(side);
    assert(listed(levels, id));
    let (i, k) = choose|i: int, k: int| sits(levels, i, k, id);
    assert(side_wf(levels, side, book.orders));
    assert(rests_at(book.orders, levels[i].queue[k], side, levels[i].price));
    assert(sits(levels, i, k, id) && levels[i].price == book.orders[id].price);
}

/// Market orders never rest. After a market order has been taken in,
/// whatever it traded, the book holds no record and lists no identifier
/// that it did not hold and list before.
pub proof fn law_market_never_rests(book: BookView, taker: Order, trades: Seq<Trade>)
    requires
        book.wf(),
        taker.order_type == OrderType::Market,
    ensures
        ({
            let after = settle(book, taker, trades);
            &&& forall|id: OrderId| after.orders.contains_key(id) ==> book.orders.contains_key(id)
            &&& forall|id: OrderId| listed(after.bids, id) ==> listed(book.bids, id)
            &&& forall|id: OrderId| listed(after.asks, id) ==> listed(book.asks, id)
        }),
{
    let makers = taker.side.spec_opposite();
    lemma_match_levels_wf(
        book.side(makers),
        book.orders,
        makers,
        taker.side,
        taker.order_type,
        taker.price,
        taker.quantity,
    );
}

/// Depth accuracy, the part that the ladder owes: in a book in order, the
/// queue of a level holds exactly the identifiers of the records of that
/// side and price, each once. The depth at a price is therefore the sum of
/// the remaining quantities of all records that rest there.
pub proof fn law_level_holds_its_records(book: BookView, side: OrderSide, i: int, id: OrderId)
    requires
        book.wf(),
        0 <= i < book.side(side).len(),
    ensures
        book.side(side)[i].queue.no_duplicates(),
        book.side(side)[i].queue.contains(id) <==> (book.orders.contains_key(id) && book.orders[id].side == side
            && book.orders[id].price == book.side(side)[i].price),
{
    let levels = book.side(side);
    assert(side_wf(levels, side, book.orders));
    if levels[i].queue.contains(id) {
        let k = choose|k: int| 0 <= k < levels[i].queue.len() && levels[i].queue[k] == id;
        assert(rests_at(book.orders, levels[i].queue[k], side, levels[i].price));
    }
    if book.orders.contains_key(id) && book.orders[id].side == side && book.orders[id].price == levels[i].price {
        assert(listed(levels, id));
        let (a, k) = choose|a: int, k: int| sits(levels, a, k, id);
        assert(rests_at(book.orders, levels[a].queue[k], side, levels[a].price));
        if a < i {
            assert(precedes(side, levels[a].price, levels[i].price));
        } else if i < a {
            assert(precedes(side, levels[i].price, levels[a].price));
        }
        assert(levels[i].queue[k] == id);
    }
}

/// The level and the position in its queue of the `n`-th identifier of a
/// side, counted in traversal order.
pub open spec fn place_of(levels: Seq<LevelView>, n: int) -> (int, int)
    decreases levels.len(),
{
    if levels.len() == 0 {
        (0, 0)
    } else if n < levels[0].queue.len() {
        (0, n)
    } else {
        let p = place_of(levels.skip(1), n - levels[0].queue.len());
        (p.0 + 1, p.1)
    }
}

/// Later identifiers have later places.
pub proof fn lemma_place_of_grows(levels: Seq<LevelView>, i: int, j: int)
    requires
        0 <= i < j,
        place_of(levels, j).0 < levels.len(),
    ensures
        place_of(levels, i).0 < place_of(levels, j).0 || (place_of(levels, i).0 == place_of(levels, j).0
            && place_of(levels, i).1 < place_of(levels, j).1),
        0 <= place_of(levels, i).0,
    decreases levels.len(),
{
    if levels.len() == 0 {
    } else {
        let n0 = levels[0].queue.len();
        if j < n0 {
        } else if i < n0 {
            lemma_place_of_floor(levels.skip(1), j - n0);
        } else {
            lemma_place_of_grows(levels.skip(1), i - n0, j - n0);
        }
    }
}

/// No place lies before the first level.
pub proof fn lemma_place_of_floor(levels: Seq<LevelView>, n: int)
    ensures
        0 <= place_of(levels, n).0,
    decreases levels.len(),
{
    if levels.len() > 0 && n >= levels[0].queue.len() {
        lemma_place_of_floor(levels.skip(1), n - levels[0].queue.len());
    }
}

/// The fills of a queue name its makers from the head on, none left out.
pub proof fn lemma_match_queue_order(
    queue: Seq<OrderId>,
    orders: Map<OrderId, Order>,
    side: OrderSide,
    price: Price,
    remaining: Qty,
)
    requires
        queue.no_duplicates(),
        queue_rests(queue, orders, side, price),
    ensures
        ({
            let out = match_queue(queue, orders, price, remaining);
            &&& out.fills.len() <= queue.len()
            &&& out.queue.len() == 0 ==> out.fills.len() == queue.len() || remaining == 0
            &&& queue.len() == 0 ==> out.fills.len() == 0
            &&& remaining == 0 ==> out.fills.len() == 0
            &&& forall|i: int|
                0 <= i < out.fills.len() ==> (#[trigger] out.fills[i]).maker_order_id == queue[i] && out.fills[i].price
                    == price && out.fills[i].maker_user_id == orders[queue[i]].user_id && 0
                    < out.fills[i].quantity <= orders[queue[i]].quantity
        }),
    decreases queue.len(),
{
    let out = match_queue(queue, orders, price, remaining);
    if remaining == 0 || queue.len() == 0 {
    } else {
        let maker = orders[queue[0]];
        assert(rests_at(orders, queue[0], side, price));
        if maker.quantity <= remaining {
            let q1 = queue.skip(1);
            let o1 = orders.remove(queue[0]);
            let r1 = (remaining - maker.quantity) as Qty;
            assert forall|k: int| 0 <= k < q1.len() implies rests_at(o1, #[trigger] q1[k], side, price) by {
                assert(q1[k] == queue[k + 1]);
                assert(rests_at(orders, queue[k + 1], side, price));
            }
            assert(q1.no_duplicates()) by {
                assert forall|a: int, b: int| 0 <= a < q1.len() && 0 <= b < q1.len() && a != b implies q1[a]
                    != q1[b] by {
                    assert(q1[a] == queue[a + 1]);
                    assert(q1[b] == queue[b + 1]);
                }
            }
            lemma_match_queue_order(q1, o1, side, price, r1);
            let rest = match_queue(q1, o1, price, r1);
            assert forall|i: int| 0 <= i < out.fills.len() implies (#[trigger] out.fills[i]).maker_order_id
                == queue[i] && out.fills[i].price == price && out.fills[i].maker_user_id
                == orders[queue[i]].user_id && 0 < out.fills[i].quantity <= orders[queue[i]].quantity by {
                if i > 0 {
                    assert(out.fills[i] == rest.fills[i - 1]);
                    assert(q1[i - 1] == queue[i]);
                }
            }
        }
    }
}

/// The fills of a side name its makers in traversal order, none left out:
/// the `n`-th fill is with the `n`-th identifier of the side, at its price.
pub proof fn lemma_match_levels_order(
    levels: Seq<LevelView>,
    orders: Map<OrderId, Order>,
    mside: OrderSide,
    side: OrderSide,
    kind: OrderType,
    price: Price,
    remaining: Qty,
)
    requires
        side_wf(levels, mside, orders),
    ensures
        ({
            let out = match_levels(levels, orders, side, kind, price, remaining);
            forall|n: int|
                0 <= n < out.fills.len() ==> {
                    let p = place_of(levels, n);
                    &&& sits(levels, p.0, p.1, (#[trigger] out.fills[n]).maker_order_id)
                    &&& out.fills[n].price == levels[p.0].price
                    &&& out.fills[n].maker_user_id == orders[out.fills[n].maker_order_id].user_id
                    &&& 0 < out.fills[n].quantity <= orders[out.fills[n].maker_order_id].quantity
                    &&& crosses(side, kind, price, out.fills[n].price)
                }
        }),
    decreases levels.len(),
{
    let out = match_levels(levels, orders, side, kind, price, remaining);
    if remaining == 0 || levels.len() == 0 || !crosses(side, kind, price, levels[0].price) {
    } else {
        let l0 = levels[0];
        let tail = levels.skip(1);
        let n0 = l0.queue.len() as int;
        let q = match_queue(l0.queue, orders, l0.price, remaining);
        assert(queue_rests(l0.queue, orders, mside, l0.price)) by {
            assert forall|k: int| 0 <= k < l0.queue.len() implies rests_at(orders, #[trigger] l0.queue[k], mside, l0.price) by {
                assert(rests_at(orders, levels[0].queue[k], mside, levels[0].price));
            }
        }
        lemma_match_queue_order(l0.queue, orders, mside, l0.price, remaining);
        lemma_match_queue_frame(l0.queue, orders, l0.price, remaining);
        if q.queue.len() > 0 {
        } else {
            lemma_rest_stays_wf(levels, mside, orders, remaining);
            lemma_match_levels_order(tail, q.orders, mside, side, kind, price, q.remaining);
            let rest = match_levels(tail, q.orders, side, kind, price, q.remaining);
            assert(q.fills.len() == n0);
            assert forall|n: int| 0 <= n < out.fills.len() implies ({
                let p = place_of(levels, n);
                &&& sits(levels, p.0, p.1, (#[trigger] out.fills[n]).maker_order_id)
                &&& out.fills[n].price == levels[p.0].price
                &&& out.fills[n].maker_user_id == orders[out.fills[n].maker_order_id].user_id
                &&& 0 < out.fills[n].quantity <= orders[out.fills[n].maker_order_id].quantity
                &&& crosses(side, kind, price, out.fills[n].price)
            }) by {
                if n < n0 {
                    assert(out.fills[n] == q.fills[n]);
                } else {
                    assert(out.fills[n] == rest.fills[n - n0]);
                    let p = place_of(tail, n - n0);
                    let id = rest.fills[n - n0].maker_order_id;
                    assert(sits(tail, p.0, p.1, id));
                    assert(tail[p.0] == levels[p.0 + 1]);
                    assert(sits(levels, p.0 + 1, p.1, id));
                    assert(rests_at(orders, levels[p.0 + 1].queue[p.1], mside, levels[p.0 + 1].price));
                    if l0.queue.contains(id) {
                        let j = choose|j: int| 0 <= j < l0.queue.len() && l0.queue[j] == id;
                        assert(rests_at(orders, levels[0].queue[j], mside, levels[0].price));
                        assert(precedes(mside, levels[0].price, levels[p.0 + 1].price));
                    }
                }
            }
        }
    }
}

/// Price-time priority. Of two fills of one matching, the earlier is at a
/// price that is at least as good for the taker (no higher for a buyer, no
/// lower for a seller); and where both are at one price, the earlier is
/// with the maker that stood earlier in the queue of that price. Every fill
/// is at the price of its maker's level, which the taker crosses.
pub proof fn law_price_time_priority(book: BookView, taker: Order, i: int, j: int)
    requires
        book.wf(),
        0 <= i < j < match_book(book, taker).fills.len(),
    ensures
        ({
            let f = match_book(book, taker).fills;
            let makers = book.side(taker.side.spec_opposite());
            let q = queue_at(makers, f[i].price);
            &&& match taker.side {
                OrderSide::Buy => f[i].price <= f[j].price,
                OrderSide::Sell => f[i].price >= f[j].price,
            }
            &&& queue_at(makers, f[i].price).contains(f[i].maker_order_id)
            &&& queue_at(makers, f[j].price).contains(f[j].maker_order_id)
            &&& f[i].price == f[j].price ==> q.index_of(f[i].maker_order_id) < q.index_of(f[j].maker_order_id)
            &&& crosses(taker.side, taker.order_type, taker.price, f[i].price)
            &&& crosses(taker.side, taker.order_type, taker.price, f[j].price)
        }),
{
    let mside = taker.side.spec_opposite();
    let makers = book.side(mside);
    let f = match_book(book, taker).fills;
    lemma_match_levels_order(makers, book.orders, mside, taker.side, taker.order_type, taker.price, taker.quantity);
    let pi = place_of(makers, i);
    let pj = place_of(makers, j);
    assert(sits(makers, pi.0, pi.1, f[i].maker_order_id));
    assert(sits(makers, pj.0, pj.1, f[j].maker_order_id));
    lemma_place_of_grows(makers, i, j);
    lemma_queue_at(makers, mside, book.orders, pi.0);
    lemma_queue_at(makers, mside, book.orders, pj.0);
    assert(side_wf(makers, mside, book.orders));
    if pi.0 < pj.0 {
        assert(precedes(mside, makers[pi.0].price, makers[pj.0].price));
    } else {
        let q = makers[pi.0].queue;
        assert(q.no_duplicates());
        assert(q[pi.1] == f[i].maker_order_id);
        assert(q[pj.1] == f[j].maker_order_id);
        assert(q.contains(f[i].maker_order_id));
        assert(q.contains(f[j].maker_order_id));
        let a = q.index_of(f[i].maker_order_id);
        let b = q.index_of(f[j].maker_order_id);
        assert(a == pi.1);
        assert(b == pj.1);
    }
    assert(makers[pi.0].queue.contains(f[i].maker_order_id)) by {
        assert(makers[pi.0].queue[pi.1] == f[i].maker_order_id);
    }
    assert(makers[pj.0].queue.contains(f[j].maker_order_id)) by {
        assert(makers[pj.0].queue[pj.1] == f[j].maker_order_id);
    }
}

/// In a side in order, the queue at the price of a level is that level's.
pub proof fn lemma_queue_at(levels: Seq<LevelView>, side: OrderSide, orders: Map<OrderId, Order>, a: int)
    requires
        side_wf(levels, side, orders),
        0 <= a < levels.len(),
    ensures
        queue_at(levels, levels[a].price) == levels[a].queue,
{
    let price = levels[a].price;
    assert(is_level_of(levels, price, a));
    let i = choose|i: int| is_level_of(levels, price, i);
    if i < a {
        assert(precedes(side, levels[i].price, levels[a].price));
    } else if a < i {
        assert(precedes(side, levels[a].price, levels[i].price));
    }
}

/// Every fill of a matching is with an order that rested on the side
/// opposite to the taker: it names that order's user, is at that order's
/// price, which the taker crosses, and takes some of that order's
/// quantity, and no more than it had.
pub proof fn law_fill_is_with_a_resting_maker(book: BookView, taker: Order, i: int)
    requires
        book.wf(),
        0 <= i < match_book(book, taker).fills.len(),
    ensures
        ({
            let f = match_book(book, taker).fills[i];
            let maker = book.orders[f.maker_order_id];
            &&& book.orders.contains_key(f.maker_order_id)
            &&& maker.id == f.maker_order_id
            &&& maker.side == taker.side.spec_opposite()
            &&& maker.price == f.price
            &&& maker.user_id == f.maker_user_id
            &&& 0 < f.quantity <= maker.quantity
            &&& f.quantity <= taker.quantity
            &&& crosses(taker.side, taker.order_type, taker.price, f.price)
        }),
{
    let mside = taker.side.spec_opposite();
    let makers = book.side(mside);
    let f = match_book(book, taker).fills;
    lemma_match_levels_order(makers, book.orders, mside, taker.side, taker.order_type, taker.price, taker.quantity);
    let p = place_of(makers, i);
    assert(sits(makers, p.0, p.1, f[i].maker_order_id));
    assert(side_wf(makers, mside, book.orders));
    assert(rests_at(book.orders, makers[p.0].queue[p.1], mside, makers[p.0].price));
    lemma_match_book_wf(book, taker);
    lemma_match_levels_wf(makers, book.orders, mside, taker.side, taker.order_type, taker.price, taker.quantity);
    lemma_fill_within_total(f, i);
}

/// No fill is more than the fills add up to.
pub proof fn lemma_fill_within_total(fills: Seq<Fill>, i: int)
    requires
        0 <= i < fills.len(),
    ensures
        fills[i].quantity <= fills_total(fills),
        0 <= fills_total(fills),
    decreases fills.len(),
{
    lemma_fills_total_nonneg(fills.drop_last());
    if i < fills.len() - 1 {
        lemma_fill_within_total(fills.drop_last(), i);
    }
}

/// No total of fills is negative.
pub proof fn lemma_fills_total_nonneg(fills: Seq<Fill>)
    ensures
        0 <= fills_total(fills),
    decreases fills.len(),
{
    if fills.len() > 0 {
        lemma_fills_total_nonneg(fills.drop_last());
    }
}

} // verus!
