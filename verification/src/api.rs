//! The operations of the exchange as its callers see them: who may do what
//! to which order, and what each refusal is.

use vstd::prelude::*;
use vstd::string::*;
use crate::feed::{WsMessage, book_fits, is_book_update, message_views, submission_messages, trade_messages};
use crate::model::{
    BookView, Fill, LevelView, crosses, fills_of, incoming, match_book, match_levels, match_queue, remember,
    remove_order, rests_at, settle, side_wf,
};
use crate::orderbook::taken_by;
use crate::registry::{SymbolRegistry, absent, first_at, normalize_symbol};
use crate::orderbook::OrderBook;
use crate::clock::{fresh_id, now_micros};
use crate::positions::{
    Leg, PositionStore, PositionView, after_legs, checked_update_position, leg_fits, store_wf,
};
use crate::text::uppercase;
use crate::types::{Order, OrderId, OrderSide, OrderType, Price, Qty, Timestamp, Trade, UserId};

verus! {

/// Why the exchange refuses a request.
#[derive(Clone, Copy, Debug, PartialEq, Eq, Structural)]
pub enum ExchangeError {
    /// The request names no symbol.
    SymbolRequired,
    /// The symbol is not in the registry.
    SymbolNotFound,
    /// The order does not rest on the named ladder.
    OrderNotFound,
    /// The order belongs to another user.
    Forbidden,
    /// A market order found nothing to trade against.
    NoLiquidity,
    /// The identifier drawn for a new order is held by a resting order.
    IdentifierTaken,
}

impl ExchangeError {
    /// The HTTP status that reports this refusal.
    pub open spec fn spec_status_code(self) -> u16 {
        match self {
            ExchangeError::SymbolRequired => 400,
            ExchangeError::SymbolNotFound => 404,
            ExchangeError::OrderNotFound => 404,
            ExchangeError::Forbidden => 403,
            ExchangeError::NoLiquidity => 400,
            ExchangeError::IdentifierTaken => 500,
        }
    }

    /// The HTTP status that reports this refusal.
    #[verifier::when_used_as_spec(spec_status_code)]
    pub fn status_code(self) -> (code: u16)
        ensures
            code == self.spec_status_code(),
    {
        match self {
            ExchangeError::SymbolRequired => 400,
            ExchangeError::SymbolNotFound => 404,
            ExchangeError::OrderNotFound => 404,
            ExchangeError::Forbidden => 403,
            ExchangeError::NoLiquidity => 400,
            ExchangeError::IdentifierTaken => 500,
        }
    }
}

/// What a refusal says. `subject` is the symbol or the order that the
/// refusal is about, as it is to be shown.
pub open spec fn refusal_text(e: ExchangeError, subject: Seq<char>) -> Seq<char> {
    match e {
        ExchangeError::SymbolRequired => "Symbol parameter is required"@,
        ExchangeError::SymbolNotFound => "Symbol '"@ + subject + "' not found"@,
        ExchangeError::OrderNotFound => "Order '"@ + subject + "' not found"@,
        ExchangeError::Forbidden => "Forbidden: order does not belong to you"@,
        ExchangeError::NoLiquidity => "Market order could not be filled: no liquidity"@,
        ExchangeError::IdentifierTaken => "Order identifier already in use"@,
    }
}

impl ExchangeError {
    /// What this refusal says of `subject`, the symbol or the order that
    /// it is about.
    pub fn message(self, subject: &str) -> (r: String)
        ensures
            r@ == refusal_text(self, subject@),
    {
        match self {
            ExchangeError::SymbolRequired => String::from_str("Symbol parameter is required"),
            ExchangeError::SymbolNotFound => String::from_str("Symbol '").concat(subject).concat("' not found"),
            ExchangeError::OrderNotFound => String::from_str("Order '").concat(subject).concat("' not found"),
            ExchangeError::Forbidden => String::from_str("Forbidden: order does not belong to you"),
            ExchangeError::NoLiquidity => String::from_str("Market order could not be filled: no liquidity"),
            ExchangeError::IdentifierTaken => String::from_str("Order identifier already in use"),
        }
    }
}

/// The body of an error reply.
#[derive(Debug, Clone)]
pub struct ErrorResponse {
    pub error: String,
    pub code: u16,
}

impl ErrorResponse {
    /// The status and the body that report `message` under `status_code`.
    pub fn new(message: String, status_code: u16) -> (r: (u16, ErrorResponse))
        ensures
            r.0 == status_code,
            r.1.error == message,
            r.1.code == status_code,
    {
        (status_code, ErrorResponse { error: message, code: status_code })
    }
}

/// A request must name a symbol.
pub fn require_symbol(symbol: &str) -> (r: Result<(), ExchangeError>)
    ensures
        r == (if symbol@.len() == 0 {
            Err::<(), ExchangeError>(ExchangeError::SymbolRequired)
        } else {
            Ok::<(), ExchangeError>(())
        }),
{
    if symbol.unicode_len() == 0 {
        Err(ExchangeError::SymbolRequired)
    } else {
        Ok(())
    }
}

/// What `actor` gets when it asks for the order `order_id`.
pub open spec fn order_for(orders: Map<OrderId, Order>, order_id: OrderId, actor: UserId) -> Result<
    Order,
    ExchangeError,
> {
    if !orders.contains_key(order_id) {
        Err(ExchangeError::OrderNotFound)
    } else if orders[order_id].user_id != actor {
        Err(ExchangeError::Forbidden)
    } else {
        Ok(orders[order_id])
    }
}

/// The resting order `order_id`, for its owner.
pub fn get_order(book: &OrderBook, order_id: OrderId, actor: UserId) -> (r: Result<Order, ExchangeError>)
    ensures
        r == order_for(book@.orders, order_id, actor),
{
    match book.get_order_by_id(order_id) {
        None => Err(ExchangeError::OrderNotFound),
        Some(order) => {
            if order.user_id != actor {
                Err(ExchangeError::Forbidden)
            } else {
                Ok(order)
            }
        },
    }
}

/// Cancels the resting order `order_id` for its owner and returns its
/// record. A refusal leaves the book as it is.
pub fn cancel_order(book: &mut OrderBook, order_id: OrderId, actor: UserId) -> (r: Result<Order, ExchangeError>)
    requires
        old(book)@.wf(),
    ensures
        r == order_for(old(book)@.orders, order_id, actor),
        final(book)@ == (if r is Ok {
            remove_order(old(book)@, order_id)
        } else {
            old(book)@
        }),
        final(book)@.wf(),
{
    match get_order(book, order_id, actor) {
        Err(e) => Err(e),
        Ok(order) => {
            book.remove_order(order_id);
            Ok(order)
        },
    }
}

/// A market order that traded nothing is reported as want of liquidity;
/// every other submission stands.
pub fn check_liquidity(order_type: OrderType, trades: &Vec<Trade>) -> (r: Result<(), ExchangeError>)
    ensures
        r == (if order_type == OrderType::Market && trades@.len() == 0 {
            Err::<(), ExchangeError>(ExchangeError::NoLiquidity)
        } else {
            Ok::<(), ExchangeError>(())
        }),
{
    match order_type {
        OrderType::Market => {
            if trades.len() == 0 {
                Err(ExchangeError::NoLiquidity)
            } else {
                Ok(())
            }
        },
        OrderType::Limit => Ok(()),
    }
}

/// The legs of the trades of one taker, in the order in which they are
/// applied: for each trade the maker's leg, on the side opposite to the
/// taker's, then the taker's.
pub open spec fn trade_legs(trades: Seq<Trade>, symbol: Seq<char>, taker_side: OrderSide) -> Seq<Leg> {
    Seq::new(
        2 * trades.len(),
        |k: int|
            if k % 2 == 0 {
                Leg {
                    user_id: trades[k / 2].maker_user_id,
                    symbol,
                    side: taker_side.spec_opposite(),
                    price: trades[k / 2].price,
                    quantity: trades[k / 2].quantity,
                }
            } else {
                Leg {
                    user_id: trades[k / 2].taker_user_id,
                    symbol,
                    side: taker_side,
                    price: trades[k / 2].price,
                    quantity: trades[k / 2].quantity,
                }
            },
    )
}

/// How far the legs of a run of trades were applied.
#[derive(Clone, Copy, Debug, PartialEq, Eq, Structural)]
pub struct Settlement {
    /// The trades of which both legs were applied.
    pub trades: usize,
    /// Whether the maker's leg of the next trade was applied too.
    pub maker_leg: bool,
}

impl Settlement {
    /// The number of legs applied.
    pub open spec fn legs(self) -> int {
        2 * self.trades + (if self.maker_leg { 1int } else { 0int })
    }
}

/// Applies the legs of the trades of one taker to the positions in
/// `symbol`, which is taken in upper case: for each trade the maker's leg,
/// then the taker's. It stops before the first leg after which a quantity
/// could not be held, and says how far it came.
pub fn settle_positions(store: &mut PositionStore, symbol: &str, taker_side: OrderSide, trades: &Vec<Trade>) -> (r:
    Settlement)
    requires
        store_wf(old(store)@),
    ensures
        ({
            let legs = trade_legs(trades@, uppercase(symbol@), taker_side);
            &&& 0 <= r.legs() <= legs.len()
            &&& r.trades == trades@.len() ==> !r.maker_leg
            &&& final(store)@ == after_legs(old(store)@, legs.take(r.legs()))
            &&& r.legs() < legs.len() ==> !leg_fits(
                final(store)@,
                legs[r.legs()].user_id,
                legs[r.legs()].symbol,
                legs[r.legs()].side,
                legs[r.legs()].quantity,
            )
            &&& store_wf(final(store)@)
        }),
{
    let ghost legs = trade_legs(trades@, uppercase(symbol@), taker_side);
    let ghost before = store@;
    let maker_side = taker_side.opposite();
    let mut i: usize = 0;
    assert(legs.take(0) =~= Seq::<Leg>::empty());
    assert(legs.len() == 2 * trades@.len());
    while i < trades.len()
        invariant
            0 <= i <= trades.len(),
            legs == trade_legs(trades@, uppercase(symbol@), taker_side),
            maker_side == taker_side.spec_opposite(),
            before == old(store)@,
            legs.len() == 2 * trades@.len(),
            store@ == after_legs(before, legs.take(2 * i)),
            store_wf(store@),
        decreases trades.len() - i,
    {
        let trade = trades[i];
        proof {
            assert(legs.take(2 * i + 1).drop_last() =~= legs.take(2 * i));
            assert(legs.take(2 * i + 1).last() == legs[2 * i]);
            assert(legs.take(2 * i + 2).drop_last() =~= legs.take(2 * i + 1));
            assert(legs.take(2 * i + 2).last() == legs[2 * i + 1]);
            assert((2 * i) % 2 == 0 && (2 * i) / 2 == i) by (nonlinear_arith)
                requires
                    i >= 0,
            ;
            assert((2 * i + 1) % 2 == 1 && (2 * i + 1) / 2 == i) by (nonlinear_arith)
                requires
                    i >= 0,
            ;
        }
        let ghost maker_leg = legs[2 * i];
        let ghost taker_leg = legs[2 * i + 1];
        assert(maker_leg == Leg {
            user_id: trade.maker_user_id,
            symbol: uppercase(symbol@),
            side: maker_side,
            price: trade.price,
            quantity: trade.quantity,
        });
        assert(taker_leg == Leg {
            user_id: trade.taker_user_id,
            symbol: uppercase(symbol@),
            side: taker_side,
            price: trade.price,
            quantity: trade.quantity,
        });
        if !checked_update_position(store, trade.maker_user_id, symbol, maker_side, trade.price, trade.quantity) {
            return Settlement { trades: i, maker_leg: false };
        }
        assert(store@ == after_legs(before, legs.take(2 * i + 1)));
        if !checked_update_position(store, trade.taker_user_id, symbol, taker_side, trade.price, trade.quantity) {
            return Settlement { trades: i, maker_leg: true };
        }
        assert(store@ == after_legs(before, legs.take(2 * i + 2)));
        i = i + 1;
    }
    Settlement { trades: i, maker_leg: false }
}

/// `user` takes part in a submission: it is the user of the order, or the
/// maker or the taker of one of its trades.
pub open spec fn takes_part(user: UserId, order_user: UserId, trades: Seq<Trade>) -> bool {
    user == order_user || exists|i: int|
        0 <= i < trades.len() && ((#[trigger] trades[i]).maker_user_id == user || trades[i].taker_user_id == user)
}

/// The users whose positions a submission may have changed, each once.
pub fn touched_users(order_user: UserId, trades: &Vec<Trade>) -> (r: Vec<UserId>)
    ensures
        r@.no_duplicates(),
        forall|u: UserId| r@.contains(u) <==> takes_part(u, order_user, trades@),
{
    let mut out: Vec<UserId> = Vec::new();
    out.push(order_user);
    assert(out@[0] == order_user);
    let mut i: usize = 0;
    while i < trades.len()
        invariant
            0 <= i <= trades.len(),
            out@.no_duplicates(),
            forall|u: UserId| out@.contains(u) <==> takes_part(u, order_user, trades@.take(i as int)),
        decreases trades.len() - i,
    {
        let ghost seen = trades@.take(i as int);
        let ghost next = trades@.take(i as int + 1);
        let ghost start = out@;
        let trade = trades[i];
        add_user(&mut out, trade.maker_user_id);
        add_user(&mut out, trade.taker_user_id);
        proof {
            assert forall|u: UserId| out@.contains(u) <==> takes_part(u, order_user, next) by {
                if takes_part(u, order_user, seen) && u != order_user {
                    let k = choose|k: int| 0 <= k < seen.len() && ((#[trigger] seen[k]).maker_user_id == u
                        || seen[k].taker_user_id == u);
                    assert(next[k] == seen[k]);
                }
                if takes_part(u, order_user, next) && u != order_user {
                    let k = choose|k: int| 0 <= k < next.len() && ((#[trigger] next[k]).maker_user_id == u
                        || next[k].taker_user_id == u);
                    if k < i {
                        assert(seen[k] == next[k]);
                    } else {
                        assert(next[k] == trade);
                    }
                }
                if u == trade.maker_user_id || u == trade.taker_user_id {
                    assert(next[i as int] == trade);
                }
            }
        }
        i = i + 1;
    }
    assert(trades@.take(i as int) =~= trades@);
    out
}

/// Adds `user` to `users` unless it is there.
fn add_user(users: &mut Vec<UserId>, user: UserId)
    requires
        old(users)@.no_duplicates(),
    ensures
        final(users)@.no_duplicates(),
        forall|u: UserId| final(users)@.contains(u) <==> (old(users)@.contains(u) || u == user),
{
    let mut i: usize = 0;
    while i < users.len()
        invariant
            0 <= i <= users.len(),
            users@ == old(users)@,
            users@.no_duplicates(),
            forall|j: int| 0 <= j < i ==> users@[j] != user,
        decreases users.len() - i,
    {
        if users[i] == user {
            return ;
        }
        i = i + 1;
    }
    let ghost before = users@;
    users.push(user);
    proof {
        assert(users@[before.len() as int] == user);
        assert forall|u: UserId| users@.contains(u) <==> (before.contains(u) || u == user) by {
            if before.contains(u) {
                let k = choose|k: int| 0 <= k < before.len() && before[k] == u;
                assert(users@[k] == u);
            }
            if users@.contains(u) {
                let k = choose|k: int| 0 <= k < users@.len() && users@[k] == u;
                if k < before.len() {
                    assert(before[k] == u);
                }
            }
        }
    }
}

/// The handle of the ladder that a request names: the request must name
/// a symbol, and the registry must know it, taken in upper case.
pub fn resolve_symbol(registry: &SymbolRegistry, symbol: &str) -> (r: Result<usize, ExchangeError>)
    ensures
        match r {
            Ok(i) => symbol@.len() > 0 && first_at(registry@, uppercase(symbol@), i as int),
            Err(e) => if symbol@.len() == 0 {
                e == ExchangeError::SymbolRequired
            } else {
                e == ExchangeError::SymbolNotFound && absent(registry@, uppercase(symbol@))
            },
        },
{
    if symbol.is_empty() {
        return Err(ExchangeError::SymbolRequired);
    }
    match registry.lookup(symbol) {
        Some(i) => Ok(i),
        None => Err(ExchangeError::SymbolNotFound),
    }
}

/// A matching that fills nothing changes nothing.
pub proof fn lemma_no_fills_no_change(
    levels: Seq<LevelView>,
    orders: Map<OrderId, Order>,
    mside: OrderSide,
    side: OrderSide,
    kind: OrderType,
    price: Price,
    remaining: Qty,
)
    requires
        side_wf(levels, mside, orders),
        match_levels(levels, orders, side, kind, price, remaining).fills.len() == 0,
    ensures
        match_levels(levels, orders, side, kind, price, remaining).levels == levels,
        match_levels(levels, orders, side, kind, price, remaining).orders == orders,
        match_levels(levels, orders, side, kind, price, remaining).remaining == remaining,
{
    if remaining == 0 || levels.len() == 0 || !crosses(side, kind, price, levels[0].price) {
    } else {
        let l0 = levels[0];
        assert(l0.queue.len() > 0);
        assert(rests_at(orders, levels[0].queue[0], mside, levels[0].price));
        let q = match_queue(l0.queue, orders, l0.price, remaining);
        assert(q.fills.len() > 0);
    }
}

/// What a submission came to.
pub struct Placed {
    /// The order as matching left it.
    pub order: Order,
    /// Its trades, in execution order.
    pub trades: Vec<Trade>,
    /// How far the positions followed the trades.
    pub settlement: Settlement,
    /// The users whose positions may have changed, each once.
    pub users: Vec<UserId>,
    /// What to publish: the trades, then the book. `None` where a total of
    /// a level of the book does not fit.
    pub messages: Option<Vec<WsMessage>>,
}

/// The fills that an order of this side, kind, price and quantity finds on
/// the book; they do not depend on its identifier or its time.
pub open spec fn fills_for(book: BookView, side: OrderSide, order_type: OrderType, price: Price, qty: Qty) -> Seq<
    Fill,
> {
    match_levels(book.side(side.spec_opposite()), book.orders, side, order_type, price, qty).fills
}

/// Why a submission under the identifier `id` is refused, if it is: the
/// identifier is held by a resting order, or else the order is a market
/// order that finds nothing to trade against.
pub open spec fn refusal(
    book: BookView,
    id: OrderId,
    side: OrderSide,
    order_type: OrderType,
    price: Price,
    qty: Qty,
) -> Option<ExchangeError> {
    if book.orders.contains_key(id) {
        Some(ExchangeError::IdentifierTaken)
    } else if order_type == OrderType::Market && fills_for(book, side, order_type, price, qty).len() == 0 {
        Some(ExchangeError::NoLiquidity)
    } else {
        None
    }
}

/// What a submission that is taken in comes to: the order and the trades
/// are those of matching `taker`, the book is settled, the positions
/// follow the legs of the trades as far as they can be held, the users are
/// those that take part, and the messages are the trades, then the book.
pub open spec fn placed_as(
    p: Placed,
    taker: Order,
    symbol: Seq<char>,
    before: BookView,
    after: BookView,
    held: Seq<PositionView>,
    holds: Seq<PositionView>,
) -> bool {
    let key = uppercase(symbol);
    let legs = trade_legs(p.trades@, key, taker.side);
    &&& p.order == match_book(before, taker).order
    &&& fills_of(p.trades@) == match_book(before, taker).fills
    &&& taken_by(p.trades@, taker)
    &&& after == settle(before, taker, p.trades@)
    &&& 0 <= p.settlement.legs() <= legs.len()
    &&& holds == after_legs(held, legs.take(p.settlement.legs()))
    &&& p.settlement.legs() < legs.len() ==> !leg_fits(
        holds,
        legs[p.settlement.legs()].user_id,
        legs[p.settlement.legs()].symbol,
        legs[p.settlement.legs()].side,
        legs[p.settlement.legs()].quantity,
    )
    &&& p.users@.no_duplicates()
    &&& forall|u: UserId| p.users@.contains(u) <==> takes_part(u, taker.user_id, p.trades@)
    &&& match p.messages {
        Some(ms) => {
            &&& book_fits(after)
            &&& ms@.len() == p.trades@.len() + 1
            &&& message_views(ms@).take(p.trades@.len() as int) == trade_messages(key, p.trades@)
            &&& is_book_update(ms@[p.trades@.len() as int]@, key, after)
        },
        None => !book_fits(after),
    }
}

/// Takes in a new order on the ladder of `symbol` under the identifier and
/// the time given. It is refused, and nothing changes, exactly if a
/// resting order holds the identifier, or else if it is a market order
/// that finds nothing to trade against. Every other order is taken in: it
/// is matched, what is left of a limit order rests, the legs of the trades
/// are applied to the positions (for each trade the maker's, then the
/// taker's), and what to publish is made.
pub fn create_order_with(
    book: &mut OrderBook,
    store: &mut PositionStore,
    symbol: &str,
    id: OrderId,
    timestamp: Timestamp,
    user_id: UserId,
    price: Price,
    qty: Qty,
    side: OrderSide,
    order_type: OrderType,
) -> (r: Result<Placed, ExchangeError>)
    requires
        old(book)@.wf(),
        store_wf(old(store)@),
    ensures
        final(book)@.wf(),
        store_wf(final(store)@),
        match refusal(old(book)@, id, side, order_type, price, qty) {
            Some(e) => {
                &&& r matches Err(x) && x == e
                &&& final(book)@ == old(book)@
                &&& final(store)@ == old(store)@
            },
            None => r matches Ok(p) && placed_as(
                p,
                incoming(id, user_id, price, qty, side, order_type, timestamp),
                symbol@,
                old(book)@,
                final(book)@,
                old(store)@,
                final(store)@,
            ),
        },
{
    let key = normalize_symbol(symbol);
    let (order, trades) = match book.place_order(id, timestamp, user_id, price, qty, side, order_type) {
        Some(placed) => placed,
        None => { return Err(ExchangeError::IdentifierTaken); },
    };
    if check_liquidity(order_type, &trades).is_err() {
        proof {
            let makers = side.spec_opposite();
            lemma_no_fills_no_change(
                old(book)@.side(makers),
                old(book)@.orders,
                makers,
                side,
                order_type,
                price,
                qty,
            );
            assert(fills_of(trades@).len() == 0);
            assert(remember(old(book)@.trades, trades@) =~= old(book)@.trades);
            assert(book@ == old(book)@);
        }
        return Err(ExchangeError::NoLiquidity);
    }
    assert(fills_of(trades@).len() == trades@.len());
    let settlement = settle_positions(store, symbol, side, &trades);
    let users = touched_users(order.user_id, &trades);
    let messages = submission_messages(key.as_str(), &trades, book);
    Ok(Placed { order, trades, settlement, users, messages })
}

/// Takes in a new order on the ladder of `symbol` under a fresh identifier
/// and the current time. A market order that finds nothing to trade
/// against is refused; any other order is taken in unless the identifier
/// drawn is held by a resting order, which cannot be on a book on which no
/// order rests. A refusal changes nothing. An order that is taken in is
/// matched, what is left of a limit order rests, the legs of the trades are
/// applied to the positions (for each trade the maker's, then the
/// taker's), and what to publish is made.
pub fn create_order(
    book: &mut OrderBook,
    store: &mut PositionStore,
    symbol: &str,
    user_id: UserId,
    price: Price,
    qty: Qty,
    side: OrderSide,
    order_type: OrderType,
) -> (r: Result<Placed, ExchangeError>)
    requires
        old(book)@.wf(),
        store_wf(old(store)@),
    ensures
        final(book)@.wf(),
        store_wf(final(store)@),
        r matches Err(e) && e == ExchangeError::NoLiquidity ==> order_type == OrderType::Market && fills_for(
            old(book)@,
            side,
            order_type,
            price,
            qty,
        ).len() == 0,
        order_type == OrderType::Market && fills_for(old(book)@, side, order_type, price, qty).len() == 0 ==> r is Err,
        old(book)@.orders.dom().is_empty() && !(order_type == OrderType::Market && fills_for(
            old(book)@,
            side,
            order_type,
            price,
            qty,
        ).len() == 0) ==> r is Ok,
        match r {
            Err(e) => {
                &&& final(book)@ == old(book)@
                &&& final(store)@ == old(store)@
                &&& e == ExchangeError::IdentifierTaken || e == ExchangeError::NoLiquidity
                &&& e == ExchangeError::IdentifierTaken ==> !old(book)@.orders.dom().is_empty()
            },
            Ok(p) => {
                &&& !old(book)@.orders.contains_key(p.order.id)
                &&& !(order_type == OrderType::Market && p.trades@.len() == 0)
                &&& placed_as(
                    p,
                    incoming(p.order.id, user_id, price, qty, side, order_type, p.order.timestamp),
                    symbol@,
                    old(book)@,
                    final(book)@,
                    old(store)@,
                    final(store)@,
                )
            },
        },
{
    let id = fresh_id();
    let timestamp = now_micros();
    let r = create_order_with(book, store, symbol, id, timestamp, user_id, price, qty, side, order_type);
    proof {
        if old(book)@.orders.contains_key(id) {
            assert(old(book)@.orders.dom().contains(id));
        }
        if r is Ok {
            assert(fills_of(r->Ok_0.trades@).len() == r->Ok_0.trades@.len());
        }
    }
    r
}

} // verus!
