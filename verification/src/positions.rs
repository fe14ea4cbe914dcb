//! Position accounting: signed positions with weighted-average cost, one
//! trade leg at a time.

use vstd::prelude::*;
use crate::text::{same_text, to_upper, uppercase};
use crate::types::{OrderSide, Price, Qty, UserId};

verus! {

/// The position of one user in one symbol. A positive quantity is long, a
/// negative one short.
#[derive(Debug, Clone, PartialEq, Eq)]
pub struct Position {
    pub user_id: UserId,
    pub symbol: String,
    pub quantity: i64,
    pub average_price: Price,
}

/// A position as numbers and text.
pub struct PositionView {
    pub user_id: UserId,
    pub symbol: Seq<char>,
    pub quantity: int,
    pub average_price: int,
}

impl View for Position {
    type V = PositionView;

    open spec fn view(&self) -> PositionView {
        PositionView {
            user_id: self.user_id,
            symbol: self.symbol@,
            quantity: self.quantity as int,
            average_price: self.average_price as int,
        }
    }
}

/// The quantity that a leg adds: positive for a buy, negative for a sell.
pub open spec fn signed_delta(side: OrderSide, qty: Qty) -> int {
    match side {
        OrderSide::Buy => qty as int,
        OrderSide::Sell => -(qty as int),
    }
}

/// Integer division that truncates toward zero; zero where `b` is zero.
pub open spec fn trunc_div(a: int, b: int) -> int {
    if b == 0 {
        0
    } else {
        let m = (if a >= 0 { a } else { -a }) / (if b >= 0 { b } else { -b });
        if (a >= 0 && b > 0) || (a <= 0 && b < 0) {
            m
        } else {
            -m
        }
    }
}

/// The average cost after `delta` at `price` joins `old` at `old_avg`.
pub open spec fn weighted_average(old_avg: int, old: int, price: int, delta: int) -> int {
    trunc_div(old_avg * old + price * delta, old + delta)
}

/// The position `i` of the store is that of `(user, symbol)`.
pub open spec fn is_entry(s: Seq<PositionView>, user: UserId, symbol: Seq<char>, i: int) -> bool {
    0 <= i < s.len() && s[i].user_id == user && s[i].symbol == symbol
}

/// The store holds a position of `(user, symbol)`.
pub open spec fn holds(s: Seq<PositionView>, user: UserId, symbol: Seq<char>) -> bool {
    exists|i: int| is_entry(s, user, symbol, i)
}

/// Where the store holds the position of `(user, symbol)`.
pub open spec fn entry_of(s: Seq<PositionView>, user: UserId, symbol: Seq<char>) -> int {
    choose|i: int| is_entry(s, user, symbol, i)
}

/// The quantity that `(user, symbol)` holds; zero where it holds none.
pub open spec fn quantity_of(s: Seq<PositionView>, user: UserId, symbol: Seq<char>) -> int {
    if holds(s, user, symbol) {
        s[entry_of(s, user, symbol)].quantity
    } else {
        0
    }
}

/// The store is in order: no position is zero, and no user has two
/// positions in one symbol.
pub open spec fn store_wf(s: Seq<PositionView>) -> bool {
    &&& forall|i: int| 0 <= i < s.len() ==> (#[trigger] s[i]).quantity != 0
    &&& forall|i: int, j: int|
        0 <= i < j < s.len() ==> !((#[trigger] s[i]).user_id == (#[trigger] s[j]).user_id && s[i].symbol
            == s[j].symbol)
}

/// The position after a leg of `delta` at `price`.
pub open spec fn moved(p: PositionView, price: Price, delta: int) -> PositionView {
    let same_direction = (p.quantity > 0 && delta > 0) || (p.quantity < 0 && delta < 0);
    PositionView {
        quantity: p.quantity + delta,
        average_price: if same_direction {
            weighted_average(p.average_price, p.quantity, price as int, delta)
        } else {
            p.average_price
        },
        ..p
    }
}

/// The store after one leg. A first leg opens a position at its price; a
/// leg that brings the quantity to zero closes the position; a leg in the
/// position's direction moves the average cost by weight; any other leg
/// changes the quantity alone. A leg of no quantity changes nothing.
pub open spec fn after_leg(
    s: Seq<PositionView>,
    user: UserId,
    symbol: Seq<char>,
    side: OrderSide,
    price: Price,
    qty: Qty,
) -> Seq<PositionView> {
    let delta = signed_delta(side, qty);
    if delta == 0 {
        s
    } else if holds(s, user, symbol) {
        let i = entry_of(s, user, symbol);
        if s[i].quantity + delta == 0 {
            s.remove(i)
        } else {
            s.update(i, moved(s[i], price, delta))
        }
    } else {
        s.push(PositionView { user_id: user, symbol, quantity: delta, average_price: price as int })
    }
}

/// The quantity after the leg can be held.
pub open spec fn leg_fits(s: Seq<PositionView>, user: UserId, symbol: Seq<char>, side: OrderSide, qty: Qty) -> bool {
    i64::MIN <= quantity_of(s, user, symbol) + signed_delta(side, qty) <= i64::MAX
}

/// A position is selected: it is the user's, in the symbol if one is asked for.
pub open spec fn selected(p: PositionView, user: UserId, symbol: Option<Seq<char>>) -> bool {
    p.user_id == user && match symbol {
        Some(s) => p.symbol == s,
        None => true,
    }
}

/// The positions of a user, in the store's order; those in one symbol
/// where one is asked for.
pub open spec fn select(s: Seq<PositionView>, user: UserId, symbol: Option<Seq<char>>) -> Seq<PositionView>
    decreases s.len(),
{
    if s.len() == 0 {
        Seq::empty()
    } else if selected(s.last(), user, symbol) {
        select(s.drop_last(), user, symbol).push(s.last())
    } else {
        select(s.drop_last(), user, symbol)
    }
}

/// The gain of a position at a mark price, not yet realised.
pub open spec fn pnl(p: PositionView, mark: Price) -> int {
    (mark - p.average_price) * p.quantity
}

/// The views of stored positions.
pub open spec fn views(entries: Seq<Position>) -> Seq<PositionView> {
    Seq::new(entries.len(), |i: int| entries[i]@)
}

/// All positions, one for each user and symbol that holds any.
pub struct PositionStore {
    entries: Vec<Position>,
}

impl View for PositionStore {
    type V = Seq<PositionView>;

    closed spec fn view(&self) -> Seq<PositionView> {
        views(self.entries@)
    }
}

/// In a store in order, a user's position in a symbol has one place.
pub proof fn lemma_entry_unique(s: Seq<PositionView>, user: UserId, symbol: Seq<char>, i: int)
    requires
        store_wf(s),
        is_entry(s, user, symbol, i),
    ensures
        holds(s, user, symbol),
        entry_of(s, user, symbol) == i,
{
    let j = entry_of(s, user, symbol);
    assert(is_entry(s, user, symbol, j));
    if i < j {
        assert(!(s[i].user_id == s[j].user_id && s[i].symbol == s[j].symbol));
    } else if j < i {
        assert(!(s[j].user_id == s[i].user_id && s[j].symbol == s[i].symbol));
    }
}

/// A leg leaves the store in order.
pub proof fn lemma_after_leg_wf(
    s: Seq<PositionView>,
    user: UserId,
    symbol: Seq<char>,
    side: OrderSide,
    price: Price,
    qty: Qty,
)
    requires
        store_wf(s),
    ensures
        store_wf(after_leg(s, user, symbol, side, price, qty)),
{
    let delta = signed_delta(side, qty);
    let t = after_leg(s, user, symbol, side, price, qty);
    if delta == 0 {
    } else if holds(s, user, symbol) {
        let i = entry_of(s, user, symbol);
        assert(is_entry(s, user, symbol, i));
        if s[i].quantity + delta == 0 {
            assert forall|a: int| 0 <= a < t.len() implies #[trigger] t[a] == s[if a < i { a } else { a + 1 }] by {}
            assert forall|a: int| 0 <= a < t.len() implies (#[trigger] t[a]).quantity != 0 by {
                assert(s[if a < i { a } else { a + 1 }].quantity != 0);
            }
            assert forall|a: int, b: int| 0 <= a < b < t.len() implies !((#[trigger] t[a]).user_id == (
            #[trigger] t[b]).user_id && t[a].symbol == t[b].symbol) by {
                let a0 = if a < i { a } else { a + 1 };
                let b0 = if b < i { b } else { b + 1 };
                assert(!(s[a0].user_id == s[b0].user_id && s[a0].symbol == s[b0].symbol));
            }
        } else {
            assert forall|a: int| 0 <= a < t.len() implies (#[trigger] t[a]).quantity != 0 by {
                if a != i {
                    assert(s[a].quantity != 0);
                }
            }
            assert forall|a: int, b: int| 0 <= a < b < t.len() implies !((#[trigger] t[a]).user_id == (
            #[trigger] t[b]).user_id && t[a].symbol == t[b].symbol) by {
                assert(!(s[a].user_id == s[b].user_id && s[a].symbol == s[b].symbol));
            }
        }
    } else {
        assert forall|a: int| 0 <= a < t.len() implies (#[trigger] t[a]).quantity != 0 by {
            if a < s.len() {
                assert(s[a].quantity != 0);
            }
        }
        assert forall|a: int, b: int| 0 <= a < b < t.len() implies !((#[trigger] t[a]).user_id == (
        #[trigger] t[b]).user_id && t[a].symbol == t[b].symbol) by {
            if b < s.len() {
                assert(!(s[a].user_id == s[b].user_id && s[a].symbol == s[b].symbol));
            } else {
                assert(!is_entry(s, user, symbol, a));
            }
        }
    }
}

/// The average cost after a leg in the position's own direction.
fn blend(old_avg: Price, old_qty: i64, price: Price, side: OrderSide, qty: Qty) -> (r: Price)
    requires
        qty > 0,
        (old_qty > 0 && side == OrderSide::Buy) || (old_qty < 0 && side == OrderSide::Sell),
        i64::MIN <= old_qty + signed_delta(side, qty) <= i64::MAX,
    ensures
        r == weighted_average(old_avg as int, old_qty as int, price as int, signed_delta(side, qty)),
{
    let w1: u128 = if old_qty >= 0 { old_qty as u128 } else { (-(old_qty as i128)) as u128 };
    let w2: u128 = qty as u128;
    let w: u128 = w1 + w2;
    let ghost delta = signed_delta(side, qty);
    let ghost num = old_avg * old_qty + price * delta;
    let ghost den = old_qty + delta;
    assert(0 < w <= 0x8000_0000_0000_0000);
    assert(-0x8000_0000_0000_0000 * w1 <= old_avg * w1 <= 0x7fff_ffff_ffff_ffff * w1) by (nonlinear_arith)
        requires
            -0x8000_0000_0000_0000 <= old_avg <= 0x7fff_ffff_ffff_ffff,
            0 <= w1,
    ;
    assert(-0x8000_0000_0000_0000 * w2 <= price * w2 <= 0x7fff_ffff_ffff_ffff * w2) by (nonlinear_arith)
        requires
            -0x8000_0000_0000_0000 <= price <= 0x7fff_ffff_ffff_ffff,
            0 <= w2,
    ;
    assert(0x8000_0000_0000_0000 * w1 <= 0x8000_0000_0000_0000 * 0x8000_0000_0000_0000) by (nonlinear_arith)
        requires
            0 <= w1 <= 0x8000_0000_0000_0000,
    ;
    assert(0x8000_0000_0000_0000 * w2 <= 0x8000_0000_0000_0000 * 0x8000_0000_0000_0000) by (nonlinear_arith)
        requires
            0 <= w2 <= 0x8000_0000_0000_0000,
    ;
    let a: i128 = (old_avg as i128) * (w1 as i128);
    let b: i128 = (price as i128) * (w2 as i128);
    let x: i128 = a + b;
    assert(-0x8000_0000_0000_0000 * w <= x <= 0x7fff_ffff_ffff_ffff * w) by (nonlinear_arith)
        requires
            x == old_avg * w1 + price * w2,
            w == w1 + w2,
            -0x8000_0000_0000_0000 * w1 <= old_avg * w1 <= 0x7fff_ffff_ffff_ffff * w1,
            -0x8000_0000_0000_0000 * w2 <= price * w2 <= 0x7fff_ffff_ffff_ffff * w2,
    ;
    proof {
        if old_qty > 0 {
            assert(num == x);
            assert(den == w);
        } else {
            assert(old_avg * old_qty == -(old_avg * w1)) by (nonlinear_arith)
                requires
                    old_qty == -w1,
            ;
            assert(price * delta == -(price * w2)) by (nonlinear_arith)
                requires
                    delta == -w2,
            ;
            assert(num == -x);
            assert(den == -w);
        }
    }
    if x >= 0 {
        let m: u128 = (x as u128) / w;
        assert(m <= 0x7fff_ffff_ffff_ffff) by (nonlinear_arith)
            requires
                m == (x as int) / (w as int),
                0 <= x <= 0x7fff_ffff_ffff_ffff * w,
                w > 0,
        ;
        m as i64
    } else {
        let m: u128 = ((-x) as u128) / w;
        assert(m <= 0x8000_0000_0000_0000) by (nonlinear_arith)
            requires
                m == (-(x as int)) / (w as int),
                0 <= -x <= 0x8000_0000_0000_0000 * w,
                w > 0,
        ;
        (-(m as i128)) as i64
    }
}

impl PositionStore {
    /// An empty store.
    pub fn new() -> (store: Self)
        ensures
            store@ == Seq::<PositionView>::empty(),
            store_wf(store@),
    {
        let store = PositionStore { entries: Vec::new() };
        assert(store@ =~= Seq::<PositionView>::empty());
        store
    }

    /// Where the position of `(user, symbol)` is stored, if it is.
    fn find(&self, user_id: UserId, symbol: &String) -> (r: Option<usize>)
        requires
            store_wf(self@),
        ensures
            match r {
                Some(i) => is_entry(self@, user_id, symbol@, i as int) && holds(self@, user_id, symbol@)
                    && entry_of(self@, user_id, symbol@) == i,
                None => !holds(self@, user_id, symbol@),
            },
    {
        let mut i: usize = 0;
        while i < self.entries.len()
            invariant
                0 <= i <= self.entries.len(),
                store_wf(self@),
                forall|j: int| 0 <= j < i ==> !is_entry(self@, user_id, symbol@, j),
            decreases self.entries.len() - i,
        {
            assert(self@[i as int] == self.entries[i as int]@);
            if self.entries[i].user_id == user_id && self.entries[i].symbol == *symbol {
                proof {
                    lemma_entry_unique(self@, user_id, symbol@, i as int);
                }
                return Some(i);
            }
            i = i + 1;
        }
        None
    }

    /// The number of positions in the store.
    pub fn len(&self) -> (n: usize)
        ensures
            n == self@.len(),
    {
        self.entries.len()
    }

    /// Whether the quantity after the leg can be held. `symbol` is the key
    /// as the store holds it.
    pub fn leg_fits(&self, user_id: UserId, symbol: &str, side: OrderSide, qty: Qty) -> (r: bool)
        requires
            store_wf(self@),
        ensures
            r == leg_fits(self@, user_id, symbol@, side, qty),
    {
        let key = symbol.to_owned();
        let held: i64 = match self.find(user_id, &key) {
            Some(i) => {
                assert(self@[i as int] == self.entries[i as int]@);
                self.entries[i].quantity
            },
            None => 0,
        };
        let delta: i128 = match side {
            OrderSide::Buy => qty as i128,
            OrderSide::Sell => -(qty as i128),
        };
        let next: i128 = held as i128 + delta;
        -0x8000_0000_0000_0000 <= next && next <= 0x7fff_ffff_ffff_ffff
    }

    /// Applies one trade leg to the position of `(user_id, symbol)`.
    /// `symbol` is the key as the store holds it.
    pub fn apply_leg(&mut self, user_id: UserId, symbol: &str, side: OrderSide, price: Price, qty: Qty)
        requires
            store_wf(old(self)@),
            leg_fits(old(self)@, user_id, symbol@, side, qty),
        ensures
            final(self)@ == after_leg(old(self)@, user_id, symbol@, side, price, qty),
            store_wf(final(self)@),
    {
        proof {
            lemma_after_leg_wf(self@, user_id, symbol@, side, price, qty);
        }
        if qty == 0 {
            return ;
        }
        let ghost before = self@;
        let key = symbol.to_owned();
        match self.find(user_id, &key) {
            Some(i) => {
                assert(before[i as int] == self.entries[i as int]@);
                let held = self.entries.remove(i);
                let delta: i128 = match side {
                    OrderSide::Buy => qty as i128,
                    OrderSide::Sell => -(qty as i128),
                };
                let next: i128 = held.quantity as i128 + delta;
                if next == 0 {
                    assert(self@ =~= before.remove(i as int));
                } else {
                    let same_direction = match side {
                        OrderSide::Buy => held.quantity > 0,
                        OrderSide::Sell => held.quantity < 0,
                    };
                    let average_price = if same_direction {
                        blend(held.average_price, held.quantity, price, side, qty)
                    } else {
                        held.average_price
                    };
                    let moved_to = Position {
                        user_id: held.user_id,
                        symbol: held.symbol,
                        quantity: next as i64,
                        average_price,
                    };
                    self.entries.insert(i, moved_to);
                    assert(self@ =~= before.update(i as int, moved(before[i as int], price, delta as int)));
                }
            },
            None => {
                let quantity: i64 = match side {
                    OrderSide::Buy => qty as i64,
                    OrderSide::Sell => (-(qty as i128)) as i64,
                };
                self.entries.push(Position { user_id, symbol: key, quantity, average_price: price });
                assert(self@ =~= before.push(
                    PositionView {
                        user_id,
                        symbol: symbol@,
                        quantity: signed_delta(side, qty),
                        average_price: price as int,
                    },
                ));
            },
        }
    }

    /// Puts a stored position back. Returns whether it did: a position of
    /// no quantity, or of a user and symbol that the store already holds,
    /// is refused and the store stays as it is.
    pub fn insert_position(&mut self, position: Position) -> (done: bool)
        requires
            store_wf(old(self)@),
        ensures
            done == (position.quantity != 0 && !holds(old(self)@, position.user_id, position.symbol@)),
            final(self)@ == (if done { old(self)@.push(position@) } else { old(self)@ }),
            store_wf(final(self)@),
    {
        if position.quantity == 0 {
            return false;
        }
        match self.find(position.user_id, &position.symbol) {
            Some(_) => false,
            None => {
                let ghost before = self@;
                self.entries.push(position);
                proof {
                    assert(self@ =~= before.push(position@));
                    assert forall|a: int, b: int| 0 <= a < b < self@.len() implies !((#[trigger] self@[a]).user_id == (
                    #[trigger] self@[b]).user_id && self@[a].symbol == self@[b].symbol) by {
                        if b < before.len() {
                            assert(!(before[a].user_id == before[b].user_id && before[a].symbol == before[b].symbol));
                        } else {
                            assert(!is_entry(before, position.user_id, position.symbol@, a));
                        }
                    }
                }
                true
            },
        }
    }

    /// The positions of a user, in the store's order; those in `symbol`
    /// where one is given. `symbol` is the key as the store holds it.
    pub fn positions_for(&self, user_id: UserId, symbol: Option<&str>) -> (r: Vec<Position>)
        ensures
            views(r@) == select(
                self@,
                user_id,
                match symbol {
                    Some(s) => Some(s@),
                    None => None,
                },
            ),
    {
        let ghost wanted: Option<Seq<char>> = match symbol {
            Some(s) => Some(s@),
            None => None,
        };
        let mut out: Vec<Position> = Vec::new();
        let mut i: usize = 0;
        assert(self@.take(0) =~= Seq::<PositionView>::empty());
        assert(views(out@) =~= Seq::<PositionView>::empty());
        while i < self.entries.len()
            invariant
                0 <= i <= self.entries.len(),
                wanted == (match symbol {
                    Some(s) => Some(s@),
                    None => None,
                }),
                views(out@) == select(self@.take(i as int), user_id, wanted),
            decreases self.entries.len() - i,
        {
            let entry = &self.entries[i];
            let ghost so_far = views(out@);
            proof {
                assert(self@.take(i as int + 1).drop_last() =~= self@.take(i as int));
                assert(self@.take(i as int + 1).last() == entry@);
            }
            let wanted_symbol = match symbol {
                Some(s) => same_text(entry.symbol.as_str(), s),
                None => true,
            };
            if entry.user_id == user_id && wanted_symbol {
                out.push(
                    Position {
                        user_id: entry.user_id,
                        symbol: entry.symbol.clone(),
                        quantity: entry.quantity,
                        average_price: entry.average_price,
                    },
                );
                assert(views(out@) =~= so_far.push(entry@));
            }
            i = i + 1;
        }
        assert(self@.take(i as int) =~= self@);
        out
    }
}

/// Applies one trade leg to the position of the user in the symbol, which
/// is taken in upper case. The quantity after the leg must be one that can
/// be held.
pub fn update_position(
    store: &mut PositionStore,
    user_id: UserId,
    symbol: &str,
    side: OrderSide,
    trade_price: Price,
    trade_qty: Qty,
)
    requires
        store_wf(old(store)@),
        leg_fits(old(store)@, user_id, uppercase(symbol@), side, trade_qty),
    ensures
        final(store)@ == after_leg(old(store)@, user_id, uppercase(symbol@), side, trade_price, trade_qty),
        store_wf(final(store)@),
{
    let key = to_upper(symbol);
    store.apply_leg(user_id, key.as_str(), side, trade_price, trade_qty);
}

/// Applies one trade leg to the position of the user in the symbol, which
/// is taken in upper case, if the quantity after the leg can be held.
/// Returns whether it did: a leg after which the quantity could not be held
/// is not applied, and the store stays as it is.
pub fn checked_update_position(
    store: &mut PositionStore,
    user_id: UserId,
    symbol: &str,
    side: OrderSide,
    trade_price: Price,
    trade_qty: Qty,
) -> (applied: bool)
    requires
        store_wf(old(store)@),
    ensures
        applied == leg_fits(old(store)@, user_id, uppercase(symbol@), side, trade_qty),
        final(store)@ == (if applied {
            after_leg(old(store)@, user_id, uppercase(symbol@), side, trade_price, trade_qty)
        } else {
            old(store)@
        }),
        store_wf(final(store)@),
{
    let key = to_upper(symbol);
    if store.leg_fits(user_id, key.as_str(), side, trade_qty) {
        update_position(store, user_id, symbol, side, trade_price, trade_qty);
        true
    } else {
        false
    }
}

/// The positions of a user; those in `symbol_filter`, taken in upper case,
/// where one is given.
pub fn get_positions(store: &PositionStore, user_id: UserId, symbol_filter: Option<&str>) -> (r: Vec<Position>)
    ensures
        views(r@) == select(
            store@,
            user_id,
            match symbol_filter {
                Some(s) => Some(uppercase(s@)),
                None => None,
            },
        ),
{
    match symbol_filter {
        Some(s) => {
            let key = to_upper(s);
            store.positions_for(user_id, Some(key.as_str()))
        },
        None => store.positions_for(user_id, None),
    }
}

/// The gain of `position` at `current_price`, not yet realised; `None`
/// where it cannot be held.
pub fn checked_unrealized_pnl(position: &Position, current_price: Price) -> (r: Option<i64>)
    ensures
        r == (if i64::MIN <= pnl(position@, current_price) <= i64::MAX {
            Some(pnl(position@, current_price) as i64)
        } else {
            None::<i64>
        }),
{
    let diff: i128 = current_price as i128 - position.average_price as i128;
    let quantity: i128 = position.quantity as i128;
    assert(-0xffff_ffff_ffff_ffff * 0x8000_0000_0000_0000 <= diff * quantity <= 0xffff_ffff_ffff_ffff
        * 0x8000_0000_0000_0000) by (nonlinear_arith)
        requires
            -0xffff_ffff_ffff_ffff <= diff <= 0xffff_ffff_ffff_ffff,
            -0x8000_0000_0000_0000 <= quantity <= 0x8000_0000_0000_0000,
    ;
    let gain: i128 = diff * quantity;
    if -0x8000_0000_0000_0000 <= gain && gain <= 0x7fff_ffff_ffff_ffff {
        Some(gain as i64)
    } else {
        None
    }
}

/// The gain of `position` at `current_price`, not yet realised:
/// `(current_price - average_price) * quantity`, for longs and shorts alike.
pub fn unrealized_pnl(position: &Position, current_price: Price) -> (r: i64)
    requires
        i64::MIN <= pnl(position@, current_price) <= i64::MAX,
    ensures
        r == pnl(position@, current_price),
{
    match checked_unrealized_pnl(position, current_price) {
        Some(gain) => gain,
        None => 0,
    }
}

/// One trade leg as the accountant sees it.
pub struct Leg {
    pub user_id: UserId,
    pub symbol: Seq<char>,
    pub side: OrderSide,
    pub price: Price,
    pub quantity: Qty,
}

/// The store after a run of legs, applied in order.
pub open spec fn after_legs(s: Seq<PositionView>, legs: Seq<Leg>) -> Seq<PositionView>
    decreases legs.len(),
{
    if legs.len() == 0 {
        s
    } else {
        let l = legs.last();
        after_leg(after_legs(s, legs.drop_last()), l.user_id, l.symbol, l.side, l.price, l.quantity)
    }
}

/// The signed sum of the legs of one user in one symbol.
pub open spec fn delta_sum(legs: Seq<Leg>, user: UserId, symbol: Seq<char>) -> int
    decreases legs.len(),
{
    if legs.len() == 0 {
        0
    } else {
        let l = legs.last();
        delta_sum(legs.drop_last(), user, symbol) + (if l.user_id == user && l.symbol == symbol {
            signed_delta(l.side, l.quantity)
        } else {
            0
        })
    }
}

/// One leg moves the quantity of its own user and symbol by its signed
/// quantity, and no other.
pub proof fn lemma_leg_moves_quantity(
    s: Seq<PositionView>,
    user: UserId,
    symbol: Seq<char>,
    side: OrderSide,
    price: Price,
    qty: Qty,
    other_user: UserId,
    other_symbol: Seq<char>,
)
    requires
        store_wf(s),
    ensures
        quantity_of(after_leg(s, user, symbol, side, price, qty), other_user, other_symbol) == quantity_of(
            s,
            other_user,
            other_symbol,
        ) + (if other_user == user && other_symbol == symbol {
            signed_delta(side, qty)
        } else {
            0
        }),
{
    let delta = signed_delta(side, qty);
    let t = after_leg(s, user, symbol, side, price, qty);
    lemma_after_leg_wf(s, user, symbol, side, price, qty);
    let own = other_user == user && other_symbol == symbol;
    if delta == 0 {
    } else if holds(s, user, symbol) {
        let i = entry_of(s, user, symbol);
        assert(is_entry(s, user, symbol, i));
        if s[i].quantity + delta == 0 {
            assert forall|a: int| 0 <= a < t.len() implies #[trigger] t[a] == s[if a < i { a } else { a + 1 }] by {}
            if holds(t, other_user, other_symbol) {
                let j = entry_of(t, other_user, other_symbol);
                assert(is_entry(t, other_user, other_symbol, j));
                let j0 = if j < i { j } else { j + 1 };
                assert(is_entry(s, other_user, other_symbol, j0));
                lemma_entry_unique(s, other_user, other_symbol, j0);
            } else if holds(s, other_user, other_symbol) {
                let j0 = entry_of(s, other_user, other_symbol);
                assert(is_entry(s, other_user, other_symbol, j0));
                lemma_entry_unique(s, other_user, other_symbol, j0);
                if !own {
                    let j = if j0 < i { j0 } else { j0 - 1 };
                    assert(is_entry(t, other_user, other_symbol, j));
                }
            }
        } else {
            if holds(s, other_user, other_symbol) {
                let j0 = entry_of(s, other_user, other_symbol);
                assert(is_entry(s, other_user, other_symbol, j0));
                assert(is_entry(t, other_user, other_symbol, j0));
                lemma_entry_unique(t, other_user, other_symbol, j0);
                lemma_entry_unique(s, other_user, other_symbol, j0);
            } else if holds(t, other_user, other_symbol) {
                let j = entry_of(t, other_user, other_symbol);
                assert(is_entry(t, other_user, other_symbol, j));
                assert(is_entry(s, other_user, other_symbol, j));
            }
        }
    } else {
        let n = s.len() as int;
        if own {
            assert(is_entry(t, user, symbol, n));
            lemma_entry_unique(t, user, symbol, n);
        } else if holds(s, other_user, other_symbol) {
            let j0 = entry_of(s, other_user, other_symbol);
            assert(is_entry(s, other_user, other_symbol, j0));
            assert(is_entry(t, other_user, other_symbol, j0));
            lemma_entry_unique(t, other_user, other_symbol, j0);
        } else if holds(t, other_user, other_symbol) {
            let j = entry_of(t, other_user, other_symbol);
            assert(is_entry(t, other_user, other_symbol, j));
            assert(is_entry(s, other_user, other_symbol, j));
        }
    }
}

/// Position round-trip. After any run of legs, the quantity that a user
/// holds in a symbol is what it held before plus the signed sum of its
/// legs in that symbol; it holds no position exactly where that is zero.
pub proof fn law_position_round_trip(s: Seq<PositionView>, legs: Seq<Leg>, user: UserId, symbol: Seq<char>)
    requires
        store_wf(s),
    ensures
        store_wf(after_legs(s, legs)),
        quantity_of(after_legs(s, legs), user, symbol) == quantity_of(s, user, symbol) + delta_sum(
            legs,
            user,
            symbol,
        ),
        holds(after_legs(s, legs), user, symbol) <==> quantity_of(after_legs(s, legs), user, symbol) != 0,
    decreases legs.len(),
{
    if legs.len() > 0 {
        let l = legs.last();
        let mid = after_legs(s, legs.drop_last());
        law_position_round_trip(s, legs.drop_last(), user, symbol);
        lemma_leg_moves_quantity(mid, l.user_id, l.symbol, l.side, l.price, l.quantity, user, symbol);
        lemma_after_leg_wf(mid, l.user_id, l.symbol, l.side, l.price, l.quantity);
    }
    let t = after_legs(s, legs);
    if holds(t, user, symbol) {
        let i = entry_of(t, user, symbol);
        assert(is_entry(t, user, symbol, i));
        assert(t[i].quantity != 0);
    }
}

} // verus!
