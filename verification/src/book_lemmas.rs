//! Facts about the book model that the engine and the laws rest on.

use vstd::prelude::*;
use crate::model::{
    BookView, Fill, LevelView, can_rest, crosses, fills_total, level_total, is_level_of, is_slot, listed,
    match_book, match_levels, match_queue, precedes, remove_order, rest_in, rest_order, rests_at, side_wf,
    sits, slot, unlist,
};
use crate::types::{Order, OrderId, OrderSide, OrderType, Price, Qty};

verus! {

/// Matching a queue touches no record but those of the queue.
pub proof fn lemma_match_queue_frame(
    queue: Seq<OrderId>,
    orders: Map<OrderId, Order>,
    price: Price,
    remaining: Qty,
)
    ensures
        forall|id: OrderId|
            !queue.contains(id) ==> {
                let out = match_queue(queue, orders, price, remaining);
                &&& out.orders.contains_key(id) == orders.contains_key(id)
                &&& out.orders[id] == orders[id]
            },
    decreases queue.len(),
{
    let out = match_queue(queue, orders, price, remaining);
    if remaining == 0 || queue.len() == 0 {
    } else {
        let maker = orders[queue[0]];
        assert(queue.contains(queue[0]));
        if maker.quantity <= remaining {
            let rest_queue = queue.skip(1);
            lemma_match_queue_frame(rest_queue, orders.remove(queue[0]), price, (remaining - maker.quantity) as Qty);
            assert forall|id: OrderId| !queue.contains(id) implies out.orders.contains_key(id)
                == orders.contains_key(id) && out.orders[id] == orders[id] by {
                if rest_queue.contains(id) {
                    let k = choose|k: int| 0 <= k < rest_queue.len() && rest_queue[k] == id;
                    assert(queue[k + 1] == id);
                }
            }
        }
    }
}

/// The levels behind the first keep their order when the first is matched.
pub proof fn lemma_rest_stays_wf(
    levels: Seq<LevelView>,
    side: OrderSide,
    orders: Map<OrderId, Order>,
    remaining: Qty,
)
    requires
        side_wf(levels, side, orders),
        levels.len() > 0,
    ensures
        side_wf(levels.skip(1), side, match_queue(levels[0].queue, orders, levels[0].price, remaining).orders),
{
    let out = match_queue(levels[0].queue, orders, levels[0].price, remaining);
    let rest = levels.skip(1);
    lemma_match_queue_frame(levels[0].queue, orders, levels[0].price, remaining);
    assert forall|i: int, k: int| 0 <= i < rest.len() && 0 <= k < rest[i].queue.len() implies rests_at(
        out.orders,
        #[trigger] rest[i].queue[k],
        side,
        rest[i].price,
    ) by {
        let id = rest[i].queue[k];
        assert(rest[i] == levels[i + 1]);
        assert(rests_at(orders, levels[i + 1].queue[k], side, levels[i + 1].price));
        if levels[0].queue.contains(id) {
            let j = choose|j: int| 0 <= j < levels[0].queue.len() && levels[0].queue[j] == id;
            assert(rests_at(orders, levels[0].queue[j], side, levels[0].price));
            assert(precedes(side, levels[0].price, levels[i + 1].price));
        }
    }
    assert forall|i: int, j: int| 0 <= i < j < rest.len() implies precedes(
        side,
        #[trigger] rest[i].price,
        #[trigger] rest[j].price,
    ) by {
        assert(rest[i] == levels[i + 1]);
        assert(rest[j] == levels[j + 1]);
    }
    assert forall|i: int| 0 <= i < rest.len() implies (#[trigger] rest[i]).queue.len() > 0 by {
        assert(rest[i] == levels[i + 1]);
    }
    assert forall|i: int| 0 <= i < rest.len() implies (#[trigger] rest[i]).queue.no_duplicates() by {
        assert(rest[i] == levels[i + 1]);
    }
}

/// The total of two runs of fills is the sum of their totals.
pub proof fn lemma_fills_total_add(a: Seq<Fill>, b: Seq<Fill>)
    ensures
        fills_total(a + b) == fills_total(a) + fills_total(b),
    decreases b.len(),
{
    if b.len() == 0 {
        assert(a + b =~= a);
    } else {
        lemma_fills_total_add(a, b.drop_last());
        assert((a + b).drop_last() =~= a + b.drop_last());
        assert((a + b).last() == b.last());
    }
}

/// The total of a single fill is its quantity.
pub proof fn lemma_fills_total_one(f: Fill)
    ensures
        fills_total(seq![f]) == f.quantity,
{
    assert(seq![f].drop_last() =~= Seq::<Fill>::empty());
    assert(fills_total(seq![f].drop_last()) == 0);
}

/// A queue whose identifiers all rest at `(side, price)`.
pub open spec fn queue_rests(queue: Seq<OrderId>, orders: Map<OrderId, Order>, side: OrderSide, price: Price) -> bool {
    forall|k: int| 0 <= k < queue.len() ==> rests_at(orders, #[trigger] queue[k], side, price)
}

/// What matching does to one well-formed queue: a prefix of makers leaves
/// with its records, the rest stays in order, and the fills add up to what
/// the taker lost.
pub proof fn lemma_match_queue_wf(
    queue: Seq<OrderId>,
    orders: Map<OrderId, Order>,
    side: OrderSide,
    price: Price,
    remaining: Qty,
)
    requires
        queue.no_duplicates(),
        queue_rests(queue, orders, side, price),
    ensures
        ({
            let out = match_queue(queue, orders, price, remaining);
            let n = queue.len() - out.queue.len();
            &&& 0 <= n <= queue.len()
            &&& out.queue == queue.skip(n)
            &&& out.queue.no_duplicates()
            &&& queue_rests(out.queue, out.orders, side, price)
            &&& forall|k: int| 0 <= k < n ==> !out.orders.contains_key(#[trigger] queue[k])
            &&& out.queue.len() > 0 ==> out.remaining == 0
            &&& out.remaining <= remaining
            &&& fills_total(out.fills) == remaining - out.remaining
            &&& forall|id: OrderId| out.orders.contains_key(id) ==> orders.contains_key(id)
            &&& forall|i: int|
                0 <= i < out.fills.len() ==> (#[trigger] out.fills[i]).quantity > 0 && out.fills[i].price == price
        }),
    decreases queue.len(),
{
    let out = match_queue(queue, orders, price, remaining);
    if remaining == 0 || queue.len() == 0 {
        assert(out.queue =~= queue.skip(0));
    } else {
        let maker = orders[queue[0]];
        assert(rests_at(orders, queue[0], side, price));
        if maker.quantity <= remaining {
            let q1 = queue.skip(1);
            let o1 = orders.remove(queue[0]);
            let r1 = (remaining - maker.quantity) as Qty;
            assert forall|k: int| 0 <= k < q1.len() implies rests_at(o1, #[trigger] q1[k], side, price) by {
                assert(q1[k] == queue[k + 1]);
                assert(rests_at(orders, queue[k + 1], side, price));
            }
            assert(q1.no_duplicates()) by {
                assert forall|a: int, b: int| 0 <= a < q1.len() && 0 <= b < q1.len() && a != b implies q1[a]
                    != q1[b] by {
                    assert(q1[a] == queue[a + 1]);
                    assert(q1[b] == queue[b + 1]);
                }
            }
            lemma_match_queue_wf(q1, o1, side, price, r1);
            let rest = match_queue(q1, o1, price, r1);
            let n1 = q1.len() - rest.queue.len();
            let n = queue.len() - out.queue.len();
            assert(n == n1 + 1);
            assert(out.queue =~= queue.skip(n));
            let fill = Fill {
                maker_order_id: queue[0],
                maker_user_id: maker.user_id,
                price,
                quantity: maker.quantity,
            };
            lemma_fills_total_add(seq![fill], rest.fills);
            lemma_fills_total_one(fill);
            assert forall|k: int| 0 <= k < n implies !out.orders.contains_key(#[trigger] queue[k]) by {
                if k > 0 {
                    assert(queue[k] == q1[k - 1]);
                    assert(!rest.orders.contains_key(q1[k - 1]));
                } else {
                    assert(!o1.contains_key(queue[0]));
                }
            }
            assert forall|i: int| 0 <= i < out.fills.len() implies (#[trigger] out.fills[i]).quantity > 0
                && out.fills[i].price == price by {
                if i > 0 {
                    assert(out.fills[i] == rest.fills[i - 1]);
                }
            }
        } else {
            assert(out.queue =~= queue.skip(0));
            let fill = Fill {
                maker_order_id: queue[0],
                maker_user_id: maker.user_id,
                price,
                quantity: remaining,
            };
            lemma_fills_total_one(fill);
            assert forall|k: int| 0 <= k < out.queue.len() implies rests_at(
                out.orders,
                #[trigger] out.queue[k],
                side,
                price,
            ) by {
                assert(rests_at(orders, queue[k], side, price));
            }
        }
    }
}

/// What matching does to one well-formed side: the side stays in order, no
/// record appears, records that the side does not list stay as they are,
/// listed records that survive stay listed, and the fills add up to what
/// the taker lost.
pub proof fn lemma_match_levels_wf(
    levels: Seq<LevelView>,
    orders: Map<OrderId, Order>,
    mside: OrderSide,
    side: OrderSide,
    kind: OrderType,
    price: Price,
    remaining: Qty,
)
    requires
        side_wf(levels, mside, orders),
    ensures
        ({
            let out = match_levels(levels, orders, side, kind, price, remaining);
            &&& side_wf(out.levels, mside, out.orders)
            &&& out.remaining <= remaining
            &&& fills_total(out.fills) == remaining - out.remaining
            &&& forall|id: OrderId| out.orders.contains_key(id) ==> orders.contains_key(id)
            &&& forall|id: OrderId|
                !listed(levels, id) ==> out.orders.contains_key(id) == orders.contains_key(id) && out.orders[id]
                    == orders[id]
            &&& forall|id: OrderId| out.orders.contains_key(id) && listed(levels, id) ==> listed(out.levels, id)
            &&& forall|id: OrderId| listed(out.levels, id) ==> listed(levels, id)
            &&& forall|i: int| 0 <= i < out.fills.len() ==> (#[trigger] out.fills[i]).quantity > 0
        }),
    decreases levels.len(),
{
    let out = match_levels(levels, orders, side, kind, price, remaining);
    if remaining == 0 || levels.len() == 0 || !crosses(side, kind, price, levels[0].price) {
    } else {
        let l0 = levels[0];
        let q = match_queue(l0.queue, orders, l0.price, remaining);
        assert(queue_rests(l0.queue, orders, mside, l0.price)) by {
            assert forall|k: int| 0 <= k < l0.queue.len() implies rests_at(orders, #[trigger] l0.queue[k], mside, l0.price) by {
                assert(rests_at(orders, levels[0].queue[k], mside, levels[0].price));
            }
        }
        lemma_match_queue_wf(l0.queue, orders, mside, l0.price, remaining);
        lemma_match_queue_frame(l0.queue, orders, l0.price, remaining);
        lemma_rest_stays_wf(levels, mside, orders, remaining);
        let n = l0.queue.len() - q.queue.len();
        let tail = levels.skip(1);
        assert forall|id: OrderId| !listed(levels, id) implies !l0.queue.contains(id) by {
            if l0.queue.contains(id) {
                let k = choose|k: int| 0 <= k < l0.queue.len() && l0.queue[k] == id;
                assert(sits(levels, 0, k, id));
            }
        }
        if q.queue.len() > 0 {
            let nl = levels.update(0, LevelView { price: l0.price, queue: q.queue });
            assert(out.levels == nl);
            assert forall|i: int, k: int| 0 <= i < nl.len() && 0 <= k < nl[i].queue.len() implies rests_at(
                out.orders,
                #[trigger] nl[i].queue[k],
                mside,
                nl[i].price,
            ) by {
                if i == 0 {
                    assert(rests_at(q.orders, q.queue[k], mside, l0.price));
                } else {
                    assert(nl[i] == tail[i - 1]);
                    assert(rests_at(q.orders, tail[i - 1].queue[k], mside, tail[i - 1].price));
                }
            }
            assert forall|i: int, j: int| 0 <= i < j < nl.len() implies precedes(
                mside,
                #[trigger] nl[i].price,
                #[trigger] nl[j].price,
            ) by {
                assert(nl[i].price == levels[i].price);
                assert(nl[j].price == levels[j].price);
            }
            assert forall|i: int| 0 <= i < nl.len() implies (#[trigger] nl[i]).queue.len() > 0 by {
                if i > 0 {
                    assert(nl[i] == levels[i]);
                }
            }
            assert forall|i: int| 0 <= i < nl.len() implies (#[trigger] nl[i]).queue.no_duplicates() by {
                if i > 0 {
                    assert(nl[i] == levels[i]);
                }
            }
            assert forall|id: OrderId| out.orders.contains_key(id) && listed(levels, id) implies listed(nl, id) by {
                let (i, k) = choose|i: int, k: int| sits(levels, i, k, id);
                if i == 0 {
                    if k < n {
                        assert(!q.orders.contains_key(l0.queue[k]));
                    } else {
                        assert(q.queue[k - n] == l0.queue[k]);
                        assert(sits(nl, 0, k - n, id));
                    }
                } else {
                    assert(sits(nl, i, k, id));
                }
            }
            assert forall|id: OrderId| listed(nl, id) implies listed(levels, id) by {
                let (i, k) = choose|i: int, k: int| sits(nl, i, k, id);
                if i == 0 {
                    assert(q.queue[k] == l0.queue[k + n]);
                    assert(sits(levels, 0, k + n, id));
                } else {
                    assert(sits(levels, i, k, id));
                }
            }
        } else {
            lemma_match_levels_wf(tail, q.orders, mside, side, kind, price, q.remaining);
            let rest = match_levels(tail, q.orders, side, kind, price, q.remaining);
            lemma_fills_total_add(q.fills, rest.fills);
            assert forall|id: OrderId| !listed(levels, id) implies out.orders.contains_key(id)
                == orders.contains_key(id) && out.orders[id] == orders[id] by {
                if listed(tail, id) {
                    let (i, k) = choose|i: int, k: int| sits(tail, i, k, id);
                    assert(sits(levels, i + 1, k, id));
                }
            }
            assert forall|id: OrderId| out.orders.contains_key(id) && listed(levels, id) implies listed(
                out.levels,
                id,
            ) by {
                let (i, k) = choose|i: int, k: int| sits(levels, i, k, id);
                if i == 0 {
                    assert(!q.orders.contains_key(l0.queue[k]));
                    assert(rest.orders.contains_key(id) ==> q.orders.contains_key(id));
                } else {
                    assert(sits(tail, i - 1, k, id));
                    assert(listed(tail, id));
                }
            }
            assert forall|id: OrderId| listed(out.levels, id) implies listed(levels, id) by {
                assert(listed(tail, id));
                let (i, k) = choose|i: int, k: int| sits(tail, i, k, id);
                assert(sits(levels, i + 1, k, id));
            }
            assert forall|i: int| 0 <= i < out.fills.len() implies (#[trigger] out.fills[i]).quantity > 0 by {
                if i < q.fills.len() {
                    assert(out.fills[i] == q.fills[i]);
                } else {
                    assert(out.fills[i] == rest.fills[i - q.fills.len()]);
                }
            }
        }
    }
}

/// Matching keeps a book in order.
pub proof fn lemma_match_book_wf(book: BookView, taker: Order)
    requires
        book.wf(),
    ensures
        match_book(book, taker).book.wf(),
        match_book(book, taker).order.quantity <= taker.quantity,
        fills_total(match_book(book, taker).fills) == taker.quantity - match_book(book, taker).order.quantity,
        forall|id: OrderId| match_book(book, taker).book.orders.contains_key(id) ==> book.orders.contains_key(id),
{
    let opp = taker.side.spec_opposite();
    let own = taker.side;
    let levels = book.side(opp);
    let mine = book.side(own);
    let out = match_levels(levels, book.orders, taker.side, taker.order_type, taker.price, taker.quantity);
    let after = match_book(book, taker).book;
    lemma_match_levels_wf(levels, book.orders, opp, taker.side, taker.order_type, taker.price, taker.quantity);
    assert(after.side(opp) == out.levels);
    assert(after.side(own) == mine);
    assert(after.orders == out.orders);
    assert forall|id: OrderId| listed(mine, id) implies !listed(levels, id) by {
        if listed(levels, id) {
            let (i, k) = choose|i: int, k: int| sits(mine, i, k, id);
            let (j, m) = choose|j: int, m: int| sits(levels, j, m, id);
            assert(rests_at(book.orders, mine[i].queue[k], own, mine[i].price));
            assert(rests_at(book.orders, levels[j].queue[m], opp, levels[j].price));
        }
    }
    assert(side_wf(mine, own, out.orders)) by {
        assert forall|i: int, k: int| 0 <= i < mine.len() && 0 <= k < mine[i].queue.len() implies rests_at(
            out.orders,
            #[trigger] mine[i].queue[k],
            own,
            mine[i].price,
        ) by {
            assert(sits(mine, i, k, mine[i].queue[k]));
            assert(rests_at(book.orders, mine[i].queue[k], own, mine[i].price));
        }
    }
    assert(out.orders.dom().subset_of(book.orders.dom()));
    vstd::set_lib::lemma_set_subset_finite(book.orders.dom(), out.orders.dom());
    assert forall|id: OrderId| #[trigger] after.orders.contains_key(id) implies listed(
        after.side(after.orders[id].side),
        id,
    ) by {
        assert(book.orders.contains_key(id));
        let s = book.orders[id].side;
        assert(listed(book.side(s), id));
        if s == opp {
            assert(listed(out.levels, id));
            let (j, m) = choose|j: int, m: int| sits(out.levels, j, m, id);
            assert(rests_at(out.orders, out.levels[j].queue[m], opp, out.levels[j].price));
        } else {
            assert(!listed(levels, id));
        }
    }
}

/// Every price has a place among the levels.
pub proof fn lemma_slot_exists(levels: Seq<LevelView>, side: OrderSide, price: Price, n: int)
    requires
        0 <= n <= levels.len(),
        forall|j: int| 0 <= j < n ==> precedes(side, #[trigger] levels[j].price, price),
    ensures
        is_slot(levels, side, price, slot(levels, side, price)),
    decreases levels.len() - n,
{
    if n < levels.len() && precedes(side, levels[n].price, price) {
        lemma_slot_exists(levels, side, price, n + 1);
    } else {
        assert(is_slot(levels, side, price, n));
    }
}

/// An order that can rest leaves the book in order when it rests.
pub proof fn lemma_rest_order_wf(book: BookView, order: Order)
    requires
        book.wf(),
        can_rest(book, order),
    ensures
        rest_order(book, order).wf(),
{
    let side = order.side;
    let other = side.spec_opposite();
    let levels = book.side(side);
    let price = order.price;
    let id = order.id;
    let after = rest_order(book, order);
    let nl = rest_in(levels, side, price, id);
    let orders = after.orders;
    lemma_slot_exists(levels, side, price, 0);
    let i = slot(levels, side, price);
    assert(after.side(side) == nl);
    assert(after.side(other) == book.side(other));
    assert(side_wf(levels, side, book.orders));
    assert forall|a: int, k: int| 0 <= a < levels.len() && 0 <= k < levels[a].queue.len() implies #[trigger] levels[a].queue[k]
        != id by {
        assert(rests_at(book.orders, levels[a].queue[k], side, levels[a].price));
    }
    let others = book.side(other);
    assert(side_wf(others, other, orders)) by {
        assert(side_wf(others, other, book.orders));
        assert forall|a: int, k: int| 0 <= a < others.len() && 0 <= k < others[a].queue.len() implies rests_at(
            orders,
            #[trigger] others[a].queue[k],
            other,
            others[a].price,
        ) by {
            assert(rests_at(book.orders, others[a].queue[k], other, others[a].price));
        }
    }
    if i < levels.len() && levels[i].price == price {
        let queue = levels[i].queue.push(id);
        assert(nl == levels.update(i, LevelView { price, queue }));
        assert(queue.no_duplicates()) by {
            assert forall|a: int, b: int| 0 <= a < queue.len() && 0 <= b < queue.len() && a != b implies queue[a]
                != queue[b] by {
                if a < levels[i].queue.len() {
                    assert(queue[a] == levels[i].queue[a]);
                }
                if b < levels[i].queue.len() {
                    assert(queue[b] == levels[i].queue[b]);
                }
            }
        }
        assert forall|a: int, b: int| 0 <= a < b < nl.len() implies precedes(
            side,
            #[trigger] nl[a].price,
            #[trigger] nl[b].price,
        ) by {
            assert(nl[a].price == levels[a].price);
            assert(nl[b].price == levels[b].price);
        }
        assert forall|a: int| 0 <= a < nl.len() implies (#[trigger] nl[a]).queue.len() > 0 by {
            if a != i {
                assert(nl[a] == levels[a]);
            }
        }
        assert forall|a: int| 0 <= a < nl.len() implies (#[trigger] nl[a]).queue.no_duplicates() by {
            if a != i {
                assert(nl[a] == levels[a]);
            }
        }
        assert forall|a: int, k: int| 0 <= a < nl.len() && 0 <= k < nl[a].queue.len() implies rests_at(
            orders,
            #[trigger] nl[a].queue[k],
            side,
            nl[a].price,
        ) by {
            if a == i && k == levels[i].queue.len() {
            } else {
                assert(nl[a].queue[k] == levels[a].queue[k]);
                assert(rests_at(book.orders, levels[a].queue[k], side, levels[a].price));
            }
        }
        assert(sits(nl, i, levels[i].queue.len() as int, id));
        assert forall|x: OrderId| listed(levels, x) implies listed(nl, x) by {
            let (a, k) = choose|a: int, k: int| sits(levels, a, k, x);
            assert(sits(nl, a, k, x));
        }
    } else {
        let fresh = LevelView { price, queue: seq![id] };
        assert(nl == levels.insert(i, fresh));
        assert forall|a: int| 0 <= a < nl.len() implies #[trigger] nl[a] == (if a < i {
            levels[a]
        } else if a == i {
            fresh
        } else {
            levels[a - 1]
        }) by {}
        assert forall|a: int| i <= a < levels.len() implies precedes(side, price, #[trigger] levels[a].price) by {
            assert(!precedes(side, levels[i].price, price));
            if a > i {
                assert(precedes(side, levels[i].price, levels[a].price));
            }
        }
        assert forall|a: int, b: int| 0 <= a < b < nl.len() implies precedes(
            side,
            #[trigger] nl[a].price,
            #[trigger] nl[b].price,
        ) by {
            if b < i {
                assert(precedes(side, levels[a].price, levels[b].price));
            } else if b == i {
                assert(precedes(side, levels[a].price, price));
            } else if a < i {
                assert(precedes(side, levels[a].price, levels[b - 1].price));
            } else if a == i {
                assert(precedes(side, price, levels[b - 1].price));
            } else {
                assert(precedes(side, levels[a - 1].price, levels[b - 1].price));
            }
        }
        assert forall|a: int| 0 <= a < nl.len() implies (#[trigger] nl[a]).queue.len() > 0 by {}
        assert forall|a: int| 0 <= a < nl.len() implies (#[trigger] nl[a]).queue.no_duplicates() by {}
        assert forall|a: int, k: int| 0 <= a < nl.len() && 0 <= k < nl[a].queue.len() implies rests_at(
            orders,
            #[trigger] nl[a].queue[k],
            side,
            nl[a].price,
        ) by {
            if a < i {
                assert(rests_at(book.orders, levels[a].queue[k], side, levels[a].price));
            } else if a > i {
                assert(rests_at(book.orders, levels[a - 1].queue[k], side, levels[a - 1].price));
            }
        }
        assert(sits(nl, i, 0, id));
        assert forall|x: OrderId| listed(levels, x) implies listed(nl, x) by {
            let (a, k) = choose|a: int, k: int| sits(levels, a, k, x);
            if a < i {
                assert(sits(nl, a, k, x));
            } else {
                assert(sits(nl, a + 1, k, x));
            }
        }
    }
    assert(listed(nl, id));
    assert forall|x: OrderId| #[trigger] orders.contains_key(x) implies listed(after.side(orders[x].side), x) by {
        if x != id {
            assert(book.orders.contains_key(x));
            assert(listed(book.side(book.orders[x].side), x));
        }
    }
}

/// Where an identifier sits decides what leaves when it is unlisted: its
/// place in its queue, and its level with it if it was alone.
pub proof fn lemma_unlist_at(
    levels: Seq<LevelView>,
    side: OrderSide,
    orders: Map<OrderId, Order>,
    a: int,
    k: int,
    id: OrderId,
)
    requires
        side_wf(levels, side, orders),
        sits(levels, a, k, id),
    ensures
        unlist(levels, levels[a].price, id) == (if levels[a].queue.len() == 1 {
            levels.remove(a)
        } else {
            levels.update(a, LevelView { price: levels[a].price, queue: levels[a].queue.remove(k) })
        }),
{
    let price = levels[a].price;
    assert(is_level_of(levels, price, a));
    let i = choose|i: int| is_level_of(levels, price, i);
    if i < a {
        assert(precedes(side, levels[i].price, levels[a].price));
    } else if a < i {
        assert(precedes(side, levels[a].price, levels[i].price));
    }
    let queue = levels[a].queue;
    assert(queue.contains(id));
    let m = queue.index_of(id);
    assert(queue[m] == id && 0 <= m < queue.len());
    assert(m == k);
}

/// A level without an identifier that it does not hold is the level itself.
pub proof fn lemma_unlist_absent(levels: Seq<LevelView>, side: OrderSide, orders: Map<OrderId, Order>, a: int, id: OrderId)
    requires
        side_wf(levels, side, orders),
        0 <= a < levels.len(),
        !levels[a].queue.contains(id),
    ensures
        unlist(levels, levels[a].price, id) == levels,
{
    let price = levels[a].price;
    assert(is_level_of(levels, price, a));
    let i = choose|i: int| is_level_of(levels, price, i);
    if i < a {
        assert(precedes(side, levels[i].price, levels[a].price));
    } else if a < i {
        assert(precedes(side, levels[a].price, levels[i].price));
    }
}

/// Removing an order leaves the book in order.
pub proof fn lemma_remove_order_wf(book: BookView, id: OrderId)
    requires
        book.wf(),
    ensures
        remove_order(book, id).wf(),
{
    if book.orders.contains_key(id) {
        let o = book.orders[id];
        let side = o.side;
        let other = side.spec_opposite();
        let levels = book.side(side);
        let others = book.side(other);
        let after = remove_order(book, id);
        let orders = after.orders;
        assert(listed(levels, id));
        let (a, k) = choose|a: int, k: int| sits(levels, a, k, id);
        assert(side_wf(levels, side, book.orders));
        assert(rests_at(book.orders, levels[a].queue[k], side, levels[a].price));
        lemma_unlist_at(levels, side, book.orders, a, k, id);
        let nl = unlist(levels, o.price, id);
        assert(after.side(side) == nl);
        assert(after.side(other) == others);
        let queue = levels[a].queue;
        let left = queue.remove(k);
        assert forall|m: int| 0 <= m < left.len() implies #[trigger] left[m] != id && left[m] == queue[if m < k {
            m
        } else {
            m + 1
        }] by {}
        assert(left.no_duplicates()) by {
            assert forall|x: int, y: int| 0 <= x < left.len() && 0 <= y < left.len() && x != y implies left[x]
                != left[y] by {
                assert(left[x] == queue[if x < k { x } else { x + 1 }]);
                assert(left[y] == queue[if y < k { y } else { y + 1 }]);
            }
        }
        assert forall|b: int, m: int| 0 <= b < levels.len() && b != a && 0 <= m < levels[b].queue.len() implies #[trigger] levels[b].queue[m]
            != id by {
            assert(rests_at(book.orders, levels[b].queue[m], side, levels[b].price));
            if b < a {
                assert(precedes(side, levels[b].price, levels[a].price));
            } else {
                assert(precedes(side, levels[a].price, levels[b].price));
            }
        }
        assert(side_wf(others, other, orders)) by {
            assert(side_wf(others, other, book.orders));
            assert forall|b: int, m: int| 0 <= b < others.len() && 0 <= m < others[b].queue.len() implies rests_at(
                orders,
                #[trigger] others[b].queue[m],
                other,
                others[b].price,
            ) by {
                assert(rests_at(book.orders, others[b].queue[m], other, others[b].price));
            }
        }
        if queue.len() == 1 {
            assert(nl == levels.remove(a));
            assert forall|b: int| 0 <= b < nl.len() implies #[trigger] nl[b] == levels[if b < a {
                b
            } else {
                b + 1
            }] by {}
            assert forall|b: int, c: int| 0 <= b < c < nl.len() implies precedes(
                side,
                #[trigger] nl[b].price,
                #[trigger] nl[c].price,
            ) by {
                assert(precedes(side, levels[if b < a { b } else { b + 1 }].price, levels[if c < a { c } else { c + 1 }].price));
            }
            assert forall|b: int, m: int| 0 <= b < nl.len() && 0 <= m < nl[b].queue.len() implies rests_at(
                orders,
                #[trigger] nl[b].queue[m],
                side,
                nl[b].price,
            ) by {
                let b0 = if b < a { b } else { b + 1 };
                assert(rests_at(book.orders, levels[b0].queue[m], side, levels[b0].price));
                assert(levels[b0].queue[m] != id);
            }
            assert forall|x: OrderId| x != id && listed(levels, x) implies listed(nl, x) by {
                let (b, m) = choose|b: int, m: int| sits(levels, b, m, x);
                if b < a {
                    assert(sits(nl, b, m, x));
                } else {
                    assert(b != a);
                    assert(sits(nl, b - 1, m, x));
                }
            }
        } else {
            assert(nl == levels.update(a, LevelView { price: levels[a].price, queue: left }));
            assert forall|b: int, c: int| 0 <= b < c < nl.len() implies precedes(
                side,
                #[trigger] nl[b].price,
                #[trigger] nl[c].price,
            ) by {
                assert(nl[b].price == levels[b].price);
                assert(nl[c].price == levels[c].price);
            }
            assert forall|b: int| 0 <= b < nl.len() implies (#[trigger] nl[b]).queue.len() > 0 by {
                if b != a {
                    assert(nl[b] == levels[b]);
                }
            }
            assert forall|b: int| 0 <= b < nl.len() implies (#[trigger] nl[b]).queue.no_duplicates() by {
                if b != a {
                    assert(nl[b] == levels[b]);
                }
            }
            assert forall|b: int, m: int| 0 <= b < nl.len() && 0 <= m < nl[b].queue.len() implies rests_at(
                orders,
                #[trigger] nl[b].queue[m],
                side,
                nl[b].price,
            ) by {
                if b == a {
                    let m0 = if m < k { m } else { m + 1 };
                    assert(left[m] == queue[m0]);
                    assert(rests_at(book.orders, levels[a].queue[m0], side, levels[a].price));
                } else {
                    assert(rests_at(book.orders, levels[b].queue[m], side, levels[b].price));
                    assert(levels[b].queue[m] != id);
                }
            }
            assert forall|x: OrderId| x != id && listed(levels, x) implies listed(nl, x) by {
                let (b, m) = choose|b: int, m: int| sits(levels, b, m, x);
                if b == a {
                    if m < k {
                        assert(left[m] == queue[m]);
                        assert(sits(nl, a, m, x));
                    } else {
                        assert(left[m - 1] == queue[m]);
                        assert(sits(nl, a, m - 1, x));
                    }
                } else {
                    assert(sits(nl, b, m, x));
                }
            }
        }
        assert forall|x: OrderId| #[trigger] orders.contains_key(x) implies listed(after.side(orders[x].side), x) by {
            assert(book.orders.contains_key(x));
            assert(listed(book.side(book.orders[x].side), x));
        }
    }
}

/// The total of a part of a queue is at most the total of the queue.
pub proof fn lemma_level_total_take(queue: Seq<OrderId>, orders: Map<OrderId, Order>, n: int)
    requires
        0 <= n <= queue.len(),
    ensures
        0 <= level_total(queue.take(n), orders) <= level_total(queue, orders),
        n < queue.len() ==> level_total(queue.take(n + 1), orders) == level_total(queue.take(n), orders)
            + orders[queue[n]].quantity,
    decreases queue.len() - n,
{
    if n < queue.len() {
        assert(queue.take(n + 1).drop_last() =~= queue.take(n));
        assert(queue.take(n + 1).last() == queue[n]);
        lemma_level_total_take(queue, orders, n + 1);
        lemma_level_total_nonneg(queue.take(n), orders);
    } else {
        assert(queue.take(n) =~= queue);
        lemma_level_total_nonneg(queue, orders);
    }
}

/// No total is negative.
pub proof fn lemma_level_total_nonneg(queue: Seq<OrderId>, orders: Map<OrderId, Order>)
    ensures
        0 <= level_total(queue, orders),
        queue.len() > 0 ==> level_total(queue, orders) >= orders[queue.last()].quantity,
    decreases queue.len(),
{
    if queue.len() > 0 {
        lemma_level_total_nonneg(queue.drop_last(), orders);
    }
}

} // verus!
