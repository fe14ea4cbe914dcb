//! One side of a book as it is stored: an ordered map from price to the
//! queue of that price, read as its levels in traversal order.

use vstd::prelude::*;
use std::collections::BTreeMap;
use std::collections::VecDeque;
use crate::book_lemmas::{lemma_slot_exists, lemma_unlist_absent, lemma_unlist_at};
use crate::model::{LevelView, is_level_of, precedes, rest_in, side_wf, sits, slot, unlist};
use crate::types::{Order, OrderId, OrderSide, Price};

verus! {

/// `p` is the price of `prices` that is traversed first on `side`.
pub open spec fn is_first(prices: Set<Price>, side: OrderSide, p: Price) -> bool {
    prices.contains(p) && forall|q: Price| prices.contains(q) && q != p ==> precedes(side, p, q)
}

/// The price of `prices` that is traversed first on `side`.
pub open spec fn first_price(prices: Set<Price>, side: OrderSide) -> Price {
    choose|p: Price| is_first(prices, side, p)
}

/// The levels of a side in traversal order: the level of the first price,
/// then the levels of the rest.
pub open spec fn ladder(m: Map<Price, VecDeque<OrderId>>, side: OrderSide) -> Seq<LevelView>
    decreases m.dom().len(),
{
    let p = first_price(m.dom(), side);
    if m.dom().finite() && m.dom().contains(p) {
        seq![LevelView { price: p, queue: m[p]@ }] + ladder(m.remove(p), side)
    } else {
        Seq::empty()
    }
}

/// `s` lists the levels of `m` in traversal order: its prices are strictly
/// in order, each is a price of `m` with the queue that `m` has there, and
/// no price of `m` is left out.
pub open spec fn lists(s: Seq<LevelView>, m: Map<Price, VecDeque<OrderId>>, side: OrderSide) -> bool {
    &&& forall|i: int, j: int| 0 <= i < j < s.len() ==> precedes(side, #[trigger] s[i].price, #[trigger] s[j].price)
    &&& forall|i: int| 0 <= i < s.len() ==> m.contains_key((#[trigger] s[i]).price) && s[i].queue == m[s[i].price]@
    &&& forall|p: Price| m.contains_key(p) ==> exists|i: int| 0 <= i < s.len() && (#[trigger] s[i]).price == p
}

/// A set of prices has one first price at most.
pub proof fn lemma_first_unique(prices: Set<Price>, side: OrderSide, p: Price)
    requires
        is_first(prices, side, p),
    ensures
        first_price(prices, side) == p,
{
    let q = first_price(prices, side);
    assert(is_first(prices, side, q));
    if q != p {
        assert(precedes(side, p, q));
        assert(precedes(side, q, p));
    }
}

/// A finite set of prices that is not empty has a first price.
pub proof fn lemma_first_exists(prices: Set<Price>, side: OrderSide)
    requires
        prices.finite(),
        prices.len() > 0,
    ensures
        is_first(prices, side, first_price(prices, side)),
    decreases prices.len(),
{
    let x = prices.choose();
    let rest = prices.remove(x);
    if rest.len() == 0 {
        assert forall|q: Price| prices.contains(q) && q != x implies precedes(side, x, q) by {
            assert(rest.contains(q));
        }
        assert(is_first(prices, side, x));
    } else {
        lemma_first_exists(rest, side);
        let f = first_price(rest, side);
        let best = if precedes(side, x, f) { x } else { f };
        assert forall|q: Price| prices.contains(q) && q != best implies precedes(side, best, q) by {
            if q != x && q != f {
                assert(rest.contains(q));
                assert(precedes(side, f, q));
            }
        }
        assert(is_first(prices, side, best));
    }
}

/// The ladder of a map lists the map.
pub proof fn lemma_ladder_lists(m: Map<Price, VecDeque<OrderId>>, side: OrderSide)
    requires
        m.dom().finite(),
    ensures
        lists(ladder(m, side), m, side),
        ladder(m, side).len() == m.dom().len(),
    decreases m.dom().len(),
{
    let s = ladder(m, side);
    if m.dom().len() == 0 {
        assert(!m.dom().contains(first_price(m.dom(), side)));
    } else {
        lemma_first_exists(m.dom(), side);
        let p = first_price(m.dom(), side);
        let rest = m.remove(p);
        lemma_ladder_lists(rest, side);
        let t = ladder(rest, side);
        assert(s == seq![LevelView { price: p, queue: m[p]@ }] + t);
        assert forall|i: int| 0 < i < s.len() implies #[trigger] s[i] == t[i - 1] by {}
        assert forall|i: int, j: int| 0 <= i < j < s.len() implies precedes(
            side,
            #[trigger] s[i].price,
            #[trigger] s[j].price,
        ) by {
            assert(s[j] == t[j - 1]);
            assert(rest.contains_key(t[j - 1].price));
            if i > 0 {
                assert(s[i] == t[i - 1]);
            }
        }
        assert forall|i: int| 0 <= i < s.len() implies m.contains_key((#[trigger] s[i]).price) && s[i].queue
            == m[s[i].price]@ by {
            if i > 0 {
                assert(s[i] == t[i - 1]);
                assert(rest.contains_key(t[i - 1].price));
            }
        }
        assert forall|q: Price| m.contains_key(q) implies exists|i: int|
            0 <= i < s.len() && (#[trigger] s[i]).price == q by {
            if q == p {
                assert(s[0].price == p);
            } else {
                assert(rest.contains_key(q));
                let i = choose|i: int| 0 <= i < t.len() && (#[trigger] t[i]).price == q;
                assert(s[i + 1] == t[i]);
            }
        }
    }
}

/// What lists a map is the ladder of the map.
pub proof fn lemma_ladder_unique(m: Map<Price, VecDeque<OrderId>>, side: OrderSide, s: Seq<LevelView>)
    requires
        m.dom().finite(),
        lists(s, m, side),
    ensures
        ladder(m, side) == s,
    decreases s.len(),
{
    if s.len() == 0 {
        let p = first_price(m.dom(), side);
        if m.dom().contains(p) {
            let i = choose|i: int| 0 <= i < s.len() && (#[trigger] s[i]).price == p;
        }
        assert(ladder(m, side) =~= s);
    } else {
        let p = s[0].price;
        assert forall|q: Price| m.dom().contains(q) && q != p implies precedes(side, p, q) by {
            let j = choose|j: int| 0 <= j < s.len() && (#[trigger] s[j]).price == q;
            assert(precedes(side, s[0].price, s[j].price));
        }
        assert(is_first(m.dom(), side, p));
        lemma_first_unique(m.dom(), side, p);
        let rest = m.remove(p);
        let t = s.skip(1);
        assert forall|i: int| 0 <= i < t.len() implies rest.contains_key((#[trigger] t[i]).price) && t[i].queue
            == rest[t[i].price]@ by {
            assert(t[i] == s[i + 1]);
            assert(precedes(side, s[0].price, s[i + 1].price));
        }
        assert forall|i: int, j: int| 0 <= i < j < t.len() implies precedes(
            side,
            #[trigger] t[i].price,
            #[trigger] t[j].price,
        ) by {
            assert(t[i] == s[i + 1] && t[j] == s[j + 1]);
        }
        assert forall|q: Price| rest.contains_key(q) implies exists|i: int|
            0 <= i < t.len() && (#[trigger] t[i]).price == q by {
            let j = choose|j: int| 0 <= j < s.len() && (#[trigger] s[j]).price == q;
            assert(t[j - 1] == s[j]);
        }
        lemma_ladder_unique(rest, side, t);
        assert(ladder(m, side) =~= s);
    }
}

/// Calls `BTreeMap::first_key_value` and hands out the key of the pair:
/// the least key of the map, or `None` where the map is empty.
#[verifier::external_body]
pub(crate) fn lowest_price(m: &BTreeMap<Price, VecDeque<OrderId>>) -> (r: Option<Price>)
    ensures
        match r {
            Some(k) => m@.contains_key(k) && forall|j: Price| m@.contains_key(j) ==> k <= j,
            None => forall|j: Price| !m@.contains_key(j),
        },
{
    match m.first_key_value() {
        Some((k, _)) => Some(*k),
        None => None,
    }
}

/// Calls `BTreeMap::last_key_value` and hands out the key of the pair: the
/// greatest key of the map, or `None` where the map is empty.
#[verifier::external_body]
pub(crate) fn highest_price(m: &BTreeMap<Price, VecDeque<OrderId>>) -> (r: Option<Price>)
    ensures
        match r {
            Some(k) => m@.contains_key(k) && forall|j: Price| m@.contains_key(j) ==> j <= k,
            None => forall|j: Price| !m@.contains_key(j),
        },
{
    match m.last_key_value() {
        Some((k, _)) => Some(*k),
        None => None,
    }
}

/// The price that is traversed first on `side`, if the side has a level.
pub(crate) fn best_price(m: &BTreeMap<Price, VecDeque<OrderId>>, side: OrderSide) -> (r: Option<Price>)
    ensures
        match r {
            Some(p) => {
                &&& is_first(m@.dom(), side, p)
                &&& ladder(m@, side).len() > 0
                &&& ladder(m@, side)[0] == (LevelView { price: p, queue: m@[p]@ })
                &&& ladder(m@, side).skip(1) == ladder(m@.remove(p), side)
            },
            None => ladder(m@, side).len() == 0 && m@.dom().len() == 0,
        },
{
    let r = match side {
        OrderSide::Buy => highest_price(m),
        OrderSide::Sell => lowest_price(m),
    };
    proof {
        match r {
            Some(p) => {
                assert(is_first(m@.dom(), side, p));
                lemma_first_unique(m@.dom(), side, p);
                assert(ladder(m@, side).skip(1) =~= ladder(m@.remove(p), side));
            },
            None => {
                assert(m@.dom() =~= Set::<Price>::empty());
                assert(!m@.dom().contains(first_price(m@.dom(), side)));
            },
        }
    }
    r
}

/// A map with `id` at the tail of the queue at `price` has the ladder in
/// which `id` rests at `price`.
pub proof fn lemma_rest_in_ladder(
    m: Map<Price, VecDeque<OrderId>>,
    side: OrderSide,
    price: Price,
    id: OrderId,
    after: Map<Price, VecDeque<OrderId>>,
)
    requires
        m.dom().finite(),
        after.dom().finite(),
        after.dom() == m.dom().insert(price),
        after[price]@ == (if m.contains_key(price) {
            m[price]@
        } else {
            Seq::<OrderId>::empty()
        }).push(id),
        forall|q: Price| q != price && m.contains_key(q) ==> after[q] == m[q],
    ensures
        ladder(after, side) == rest_in(ladder(m, side), side, price, id),
{
    let s = ladder(m, side);
    lemma_ladder_lists(m, side);
    lemma_slot_exists(s, side, price, 0);
    let i = slot(s, side, price);
    let t = rest_in(s, side, price, id);
    if m.contains_key(price) {
        let j = choose|j: int| 0 <= j < s.len() && (#[trigger] s[j]).price == price;
        if j < i {
            assert(precedes(side, s[j].price, price));
        } else if i < j {
            assert(precedes(side, s[i].price, s[j].price));
        }
        assert(i == j);
    }
    if i < s.len() && s[i].price == price {
        assert(t == s.update(i, LevelView { price, queue: s[i].queue.push(id) }));
        assert forall|a: int, b: int| 0 <= a < b < t.len() implies precedes(
            side,
            #[trigger] t[a].price,
            #[trigger] t[b].price,
        ) by {
            assert(t[a].price == s[a].price);
            assert(t[b].price == s[b].price);
        }
        assert forall|a: int| 0 <= a < t.len() implies after.contains_key((#[trigger] t[a]).price) && t[a].queue
            == after[t[a].price]@ by {
            if a != i {
                assert(t[a] == s[a]);
                if a < i {
                    assert(precedes(side, s[a].price, s[i].price));
                } else {
                    assert(precedes(side, s[i].price, s[a].price));
                }
            }
        }
        assert forall|p: Price| after.contains_key(p) implies exists|a: int|
            0 <= a < t.len() && (#[trigger] t[a]).price == p by {
            if p == price {
                assert(t[i].price == p);
            } else {
                let a = choose|a: int| 0 <= a < s.len() && (#[trigger] s[a]).price == p;
                assert(t[a].price == p);
            }
        }
    } else {
        let fresh = LevelView { price, queue: seq![id] };
        assert(t == s.insert(i, fresh));
        assert(!m.contains_key(price));
        assert(Seq::<OrderId>::empty().push(id) =~= seq![id]);
        assert forall|a: int| 0 <= a < t.len() implies #[trigger] t[a] == (if a < i {
            s[a]
        } else if a == i {
            fresh
        } else {
            s[a - 1]
        }) by {}
        assert forall|a: int| i <= a < s.len() implies precedes(side, price, #[trigger] s[a].price) by {
            assert(!precedes(side, s[i].price, price));
            assert(m.contains_key(s[i].price));
            if a > i {
                assert(precedes(side, s[i].price, s[a].price));
            }
        }
        assert forall|a: int, b: int| 0 <= a < b < t.len() implies precedes(
            side,
            #[trigger] t[a].price,
            #[trigger] t[b].price,
        ) by {
            if b < i {
                assert(precedes(side, s[a].price, s[b].price));
            } else if b == i {
                assert(precedes(side, s[a].price, price));
            } else if a < i {
                assert(precedes(side, s[a].price, s[b - 1].price));
            } else if a == i {
                assert(precedes(side, price, s[b - 1].price));
            } else {
                assert(precedes(side, s[a - 1].price, s[b - 1].price));
            }
        }
        assert forall|a: int| 0 <= a < t.len() implies after.contains_key((#[trigger] t[a]).price) && t[a].queue
            == after[t[a].price]@ by {
            if a < i {
                assert(m.contains_key(s[a].price));
            } else if a > i {
                assert(m.contains_key(s[a - 1].price));
            }
        }
        assert forall|p: Price| after.contains_key(p) implies exists|a: int|
            0 <= a < t.len() && (#[trigger] t[a]).price == p by {
            if p == price {
                assert(t[i].price == p);
            } else {
                let a = choose|a: int| 0 <= a < s.len() && (#[trigger] s[a]).price == p;
                if a < i {
                    assert(t[a].price == p);
                } else {
                    assert(t[a + 1].price == p);
                }
            }
        }
    }
    lemma_ladder_unique(after, side, t);
}

/// Appends `id` to the queue at `price`, making the level where none is.
pub(crate) fn rest_level(m: &mut BTreeMap<Price, VecDeque<OrderId>>, side: OrderSide, price: Price, id: OrderId)
    ensures
        ladder(final(m)@, side) == rest_in(ladder(old(m)@, side), side, price, id),
{
    let ghost before = m@;
    let taken = m.remove(&price);
    let mut queue = match taken {
        Some(queue) => queue,
        None => VecDeque::new(),
    };
    queue.push_back(id);
    m.insert(price, queue);
    proof {
        assert(m@.dom() =~= before.dom().insert(price));
        lemma_rest_in_ladder(before, side, price, id, m@);
    }
}

/// A map without `id` in the queue at its price, and without the level
/// where the queue is then empty, has the ladder without `id`.
pub proof fn lemma_unlist_ladder(
    m: Map<Price, VecDeque<OrderId>>,
    side: OrderSide,
    orders: Map<OrderId, Order>,
    price: Price,
    id: OrderId,
    after: Map<Price, VecDeque<OrderId>>,
)
    requires
        m.dom().finite(),
        after.dom().finite(),
        side_wf(ladder(m, side), side, orders),
        m.contains_key(price),
        ({
            let queue = m[price]@;
            let left = if queue.contains(id) { queue.remove(queue.index_of(id)) } else { queue };
            &&& after.dom() == (if left.len() == 0 { m.dom().remove(price) } else { m.dom() })
            &&& left.len() > 0 ==> after[price]@ == left
        }),
        forall|q: Price| q != price && m.contains_key(q) ==> after[q] == m[q],
    ensures
        ladder(after, side) == unlist(ladder(m, side), price, id),
{
    let s = ladder(m, side);
    lemma_ladder_lists(m, side);
    let a = choose|a: int| 0 <= a < s.len() && (#[trigger] s[a]).price == price;
    let queue = s[a].queue;
    assert(queue == m[price]@);
    assert(queue.len() > 0);
    assert(queue.no_duplicates());
    assert forall|b: int| 0 <= b < s.len() && b != a implies (#[trigger] s[b]).price != price by {
        if b < a {
            assert(precedes(side, s[b].price, s[a].price));
        } else {
            assert(precedes(side, s[a].price, s[b].price));
        }
    }
    if queue.contains(id) {
        let k = queue.index_of(id);
        assert(sits(s, a, k, id));
        lemma_unlist_at(s, side, orders, a, k, id);
        let left = queue.remove(k);
        if queue.len() == 1 {
            let t = s.remove(a);
            assert forall|b: int| 0 <= b < t.len() implies #[trigger] t[b] == s[if b < a { b } else { b + 1 }] by {}
            assert forall|b: int, c: int| 0 <= b < c < t.len() implies precedes(
                side,
                #[trigger] t[b].price,
                #[trigger] t[c].price,
            ) by {
                assert(precedes(side, s[if b < a { b } else { b + 1 }].price, s[if c < a { c } else { c + 1 }].price));
            }
            assert forall|b: int| 0 <= b < t.len() implies after.contains_key((#[trigger] t[b]).price)
                && t[b].queue == after[t[b].price]@ by {
                let b0 = if b < a { b } else { b + 1 };
                assert(t[b] == s[b0]);
                assert(m.contains_key(s[b0].price));
            }
            assert forall|p: Price| after.contains_key(p) implies exists|b: int|
                0 <= b < t.len() && (#[trigger] t[b]).price == p by {
                let b0 = choose|b0: int| 0 <= b0 < s.len() && (#[trigger] s[b0]).price == p;
                if b0 < a {
                    assert(t[b0].price == p);
                } else {
                    assert(t[b0 - 1].price == p);
                }
            }
            lemma_ladder_unique(after, side, t);
        } else {
            let t = s.update(a, LevelView { price: s[a].price, queue: left });
            assert forall|b: int, c: int| 0 <= b < c < t.len() implies precedes(
                side,
                #[trigger] t[b].price,
                #[trigger] t[c].price,
            ) by {
                assert(t[b].price == s[b].price);
                assert(t[c].price == s[c].price);
            }
            assert forall|b: int| 0 <= b < t.len() implies after.contains_key((#[trigger] t[b]).price)
                && t[b].queue == after[t[b].price]@ by {
                if b != a {
                    assert(t[b] == s[b]);
                    assert(m.contains_key(s[b].price));
                }
            }
            assert forall|p: Price| after.contains_key(p) implies exists|b: int|
                0 <= b < t.len() && (#[trigger] t[b]).price == p by {
                let b0 = choose|b0: int| 0 <= b0 < s.len() && (#[trigger] s[b0]).price == p;
                assert(t[b0].price == p);
            }
            lemma_ladder_unique(after, side, t);
        }
    } else {
        lemma_unlist_absent(s, side, orders, a, id);
        assert forall|b: int| 0 <= b < s.len() implies after.contains_key((#[trigger] s[b]).price) && s[b].queue
            == after[s[b].price]@ by {
            assert(m.contains_key(s[b].price));
        }
        assert forall|p: Price| after.contains_key(p) implies exists|b: int|
            0 <= b < s.len() && (#[trigger] s[b]).price == p by {
            let b0 = choose|b0: int| 0 <= b0 < s.len() && (#[trigger] s[b0]).price == p;
        }
        lemma_ladder_unique(after, side, s);
    }
}

/// Takes `id` out of the queue at `price`, and the level with it if the
/// queue is then empty.
pub(crate) fn unlist_level(
    m: &mut BTreeMap<Price, VecDeque<OrderId>>,
    price: Price,
    id: OrderId,
    Ghost(side): Ghost<OrderSide>,
    Ghost(orders): Ghost<Map<OrderId, Order>>,
)
    requires
        side_wf(ladder(old(m)@, side), side, orders),
    ensures
        ladder(final(m)@, side) == unlist(ladder(old(m)@, side), price, id),
{
    let ghost before = m@;
    let ghost s = ladder(before, side);
    proof {
        lemma_ladder_lists(before, side);
    }
    let taken = m.remove(&price);
    match taken {
        None => {
            proof {
                assert(m@ =~= before);
                assert(!exists|i: int| is_level_of(s, price, i)) by {
                    if exists|i: int| is_level_of(s, price, i) {
                        let i = choose|i: int| is_level_of(s, price, i);
                        assert(before.contains_key(s[i].price));
                    }
                }
            }
        },
        Some(level) => {
            let mut queue = level;
            let ghost all = queue@;
            let mut k: usize = 0;
            while k < queue.len() && queue[k] != id
                invariant
                    0 <= k <= queue@.len(),
                    queue@ == all,
                    forall|j: int| 0 <= j < k ==> all[j] != id,
                decreases queue@.len() - k,
            {
                k = k + 1;
            }
            if k < queue.len() {
                queue.remove(k);
                proof {
                    assert(all.contains(id));
                    let a = choose|a: int| 0 <= a < s.len() && (#[trigger] s[a]).price == price;
                    assert(s[a].queue.no_duplicates());
                    assert(all.index_of(id) == k);
                }
            } else {
                assert(!all.contains(id));
            }
            if queue.len() > 0 {
                m.insert(price, queue);
                assert(m@.dom() =~= before.dom());
            } else {
                assert(m@.dom() =~= before.dom().remove(price));
            }
            proof {
                let a = choose|a: int| 0 <= a < s.len() && (#[trigger] s[a]).price == price;
                assert(s[a].queue.len() > 0);
                lemma_unlist_ladder(before, side, orders, price, id, m@);
            }
        },
    }
}

/// A map whose first queue is put back shorter has the ladder with that
/// queue at its head.
pub proof fn lemma_head_replaced(
    m: Map<Price, VecDeque<OrderId>>,
    side: OrderSide,
    price: Price,
    after: Map<Price, VecDeque<OrderId>>,
)
    requires
        m.dom().finite(),
        after.dom().finite(),
        is_first(m.dom(), side, price),
        after.dom() == m.dom(),
        forall|q: Price| q != price && m.contains_key(q) ==> after[q] == m[q],
    ensures
        ladder(m, side).len() > 0,
        ladder(after, side) == ladder(m, side).update(0, LevelView { price, queue: after[price]@ }),
{
    let s = ladder(m, side);
    lemma_ladder_lists(m, side);
    lemma_first_unique(m.dom(), side, price);
    assert(s[0].price == price);
    let t = s.update(0, LevelView { price, queue: after[price]@ });
    assert forall|a: int, b: int| 0 <= a < b < t.len() implies precedes(
        side,
        #[trigger] t[a].price,
        #[trigger] t[b].price,
    ) by {
        assert(t[a].price == s[a].price);
        assert(t[b].price == s[b].price);
    }
    assert forall|a: int| 0 <= a < t.len() implies after.contains_key((#[trigger] t[a]).price) && t[a].queue
        == after[t[a].price]@ by {
        if a > 0 {
            assert(t[a] == s[a]);
            assert(precedes(side, s[0].price, s[a].price));
            assert(m.contains_key(s[a].price));
        }
    }
    assert forall|p: Price| after.contains_key(p) implies exists|a: int|
        0 <= a < t.len() && (#[trigger] t[a]).price == p by {
        let a = choose|a: int| 0 <= a < s.len() && (#[trigger] s[a]).price == p;
        assert(t[a].price == p);
    }
    lemma_ladder_unique(after, side, t);
}

} // verus!
