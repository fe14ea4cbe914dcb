//! Market data: the messages that a submission or a cancellation publishes,
//! and the session of one subscriber, which filters them by symbol.

use vstd::prelude::*;
use vstd::string::*;
use crate::model::{BookView, depth, depth_fits, widen};
use crate::orderbook::OrderBook;
use crate::registry::{SymbolRegistry, absent, first_at};
use crate::text::{same_text, to_upper, uppercase};
use crate::types::{OrderSide, Price, Qty, Trade};

verus! {

/// A message on the bus.
#[derive(Debug, Clone)]
pub enum WsMessage {
    OrderBookUpdate { symbol: String, bids: Vec<(Price, Qty)>, asks: Vec<(Price, Qty)> },
    Trade { symbol: String, trade: Trade },
}

/// A message as text, sequences and numbers.
pub enum MessageView {
    OrderBookUpdate { symbol: Seq<char>, bids: Seq<(Price, Qty)>, asks: Seq<(Price, Qty)> },
    Trade { symbol: Seq<char>, trade: Trade },
}

impl View for WsMessage {
    type V = MessageView;

    open spec fn view(&self) -> MessageView {
        match self {
            WsMessage::OrderBookUpdate { symbol, bids, asks } => MessageView::OrderBookUpdate {
                symbol: symbol@,
                bids: bids@,
                asks: asks@,
            },
            WsMessage::Trade { symbol, trade } => MessageView::Trade { symbol: symbol@, trade: *trade },
        }
    }
}

/// The symbol that a message is about.
pub open spec fn symbol_of(m: MessageView) -> Seq<char> {
    match m {
        MessageView::OrderBookUpdate { symbol, bids, asks } => symbol,
        MessageView::Trade { symbol, trade } => symbol,
    }
}

/// The views of a run of messages.
pub open spec fn message_views(messages: Seq<WsMessage>) -> Seq<MessageView> {
    Seq::new(messages.len(), |i: int| messages[i]@)
}

/// One trade message for each trade, in the order of the trades.
pub open spec fn trade_messages(symbol: Seq<char>, trades: Seq<Trade>) -> Seq<MessageView> {
    Seq::new(trades.len(), |i: int| MessageView::Trade { symbol, trade: trades[i] })
}

/// The messages that report the trades of one submission, in execution order.
pub fn broadcast_trades(symbol: &str, trades: &Vec<Trade>) -> (r: Vec<WsMessage>)
    ensures
        message_views(r@) == trade_messages(symbol@, trades@),
{
    let mut out: Vec<WsMessage> = Vec::new();
    let mut i: usize = 0;
    while i < trades.len()
        invariant
            0 <= i <= trades.len(),
            out@.len() == i,
            forall|j: int| 0 <= j < i ==> (#[trigger] out@[j])@ == (MessageView::Trade { symbol: symbol@, trade: trades@[j] }),
        decreases trades.len() - i,
    {
        out.push(WsMessage::Trade { symbol: symbol.to_owned(), trade: trades[i] });
        i = i + 1;
    }
    assert(message_views(out@) =~= trade_messages(symbol@, trades@));
    out
}

/// `m` reports the depth of `book` under `symbol`.
pub open spec fn is_book_update(m: MessageView, symbol: Seq<char>, book: BookView) -> bool {
    match m {
        MessageView::OrderBookUpdate { symbol: s, bids, asks } => {
            &&& s == symbol
            &&& widen(bids) == depth(book.bids, book.orders)
            &&& widen(asks) == depth(book.asks, book.orders)
        },
        MessageView::Trade { symbol: s, trade } => false,
    }
}

/// Both sides of the book have totals that fit.
pub open spec fn book_fits(book: BookView) -> bool {
    depth_fits(book.bids, book.orders) && depth_fits(book.asks, book.orders)
}

/// The message that reports the depth of `book`; `None` where a total of a
/// level does not fit.
pub fn broadcast_orderbook_update(symbol: &str, book: &OrderBook) -> (r: Option<WsMessage>)
    requires
        book@.wf(),
    ensures
        match r {
            Some(m) => book_fits(book@) && is_book_update(m@, symbol@, book@),
            None => !book_fits(book@),
        },
{
    let bids = match book.checked_depth(OrderSide::Buy) {
        Some(d) => d,
        None => { return None; },
    };
    let asks = match book.checked_depth(OrderSide::Sell) {
        Some(d) => d,
        None => { return None; },
    };
    Some(WsMessage::OrderBookUpdate { symbol: symbol.to_owned(), bids, asks })
}

/// What one submission publishes: a message for each trade in execution
/// order, then one update with the depth of the book as the submission
/// left it. `None` where a total of a level does not fit.
pub fn submission_messages(symbol: &str, trades: &Vec<Trade>, book: &OrderBook) -> (r: Option<Vec<WsMessage>>)
    requires
        book@.wf(),
    ensures
        match r {
            Some(ms) => {
                &&& book_fits(book@)
                &&& ms@.len() == trades@.len() + 1
                &&& message_views(ms@).take(trades@.len() as int) == trade_messages(symbol@, trades@)
                &&& is_book_update(ms@[trades@.len() as int]@, symbol@, book@)
            },
            None => !book_fits(book@),
        },
{
    let update = match broadcast_orderbook_update(symbol, book) {
        Some(m) => m,
        None => { return None; },
    };
    let mut out = broadcast_trades(symbol, trades);
    let ghost before = out@;
    out.push(update);
    assert(message_views(out@).take(trades@.len() as int) =~= message_views(before));
    Some(out)
}

/// What a subscriber asks for.
#[derive(Debug, Clone, Copy, PartialEq, Eq, Structural)]
pub enum SubscriptionAction {
    Subscribe,
    Unsubscribe,
}

/// How a request of a subscriber ended.
#[derive(Debug, Clone, Copy, PartialEq, Eq, Structural)]
pub enum SubscriptionStatus {
    Success,
    Error,
}

/// The answer to a request of a subscriber.
#[derive(Debug, Clone)]
pub struct SubscriptionAck {
    pub status: SubscriptionStatus,
    pub message: String,
    pub symbol: Option<String>,
}

/// An answer as text.
pub struct AckView {
    pub status: SubscriptionStatus,
    pub message: Seq<char>,
    pub symbol: Option<Seq<char>>,
}

impl View for SubscriptionAck {
    type V = AckView;

    open spec fn view(&self) -> AckView {
        AckView {
            status: self.status,
            message: self.message@,
            symbol: match self.symbol {
                Some(s) => Some(s@),
                None => None,
            },
        }
    }
}

/// The answer to a subscription to `key`.
pub open spec fn subscribe_ack(key: Seq<char>, known: bool) -> AckView {
    if known {
        AckView { status: SubscriptionStatus::Success, message: "Subscribed to "@ + key, symbol: Some(key) }
    } else {
        AckView { status: SubscriptionStatus::Error, message: "Symbol '"@ + key + "' not found"@, symbol: None }
    }
}

/// The answer to the end of a subscription to `key`.
pub open spec fn unsubscribe_ack(key: Seq<char>) -> AckView {
    AckView { status: SubscriptionStatus::Success, message: "Unsubscribed from "@ + key, symbol: Some(key) }
}

/// The answer to a frame that is no request.
pub open spec fn malformed_ack() -> AckView {
    AckView {
        status: SubscriptionStatus::Error,
        message: "Invalid message format. Expected: {\"action\": \"subscribe\", \"symbol\": \"BTCUSDT\"}"@,
        symbol: None,
    }
}

/// The symbols among `symbols`.
pub open spec fn symbol_set(symbols: Seq<String>) -> Set<Seq<char>> {
    Set::new(|s: Seq<char>| exists|i: int| 0 <= i < symbols.len() && (#[trigger] symbols[i])@ == s)
}

/// The session of one subscriber: the symbols it has subscribed to.
pub struct Session {
    symbols: Vec<String>,
}

impl View for Session {
    type V = Set<Seq<char>>;

    closed spec fn view(&self) -> Set<Seq<char>> {
        symbol_set(self.symbols@)
    }
}

impl Session {
    /// A session without subscriptions.
    pub fn new() -> (r: Self)
        ensures
            r@ == Set::<Seq<char>>::empty(),
    {
        let r = Session { symbols: Vec::new() };
        assert(r@ =~= Set::<Seq<char>>::empty());
        r
    }

    /// Whether the session has subscribed to the symbol written as `key`.
    pub fn is_subscribed(&self, key: &str) -> (r: bool)
        ensures
            r == self@.contains(key@),
    {
        let mut i: usize = 0;
        while i < self.symbols.len()
            invariant
                0 <= i <= self.symbols.len(),
                forall|j: int| 0 <= j < i ==> (#[trigger] self.symbols@[j])@ != key@,
            decreases self.symbols.len() - i,
        {
            if same_text(self.symbols[i].as_str(), key) {
                return true;
            }
            i = i + 1;
        }
        false
    }

    /// Subscribes to the symbol `key` if the registry knows it, and says
    /// what came of it.
    pub fn subscribe(&mut self, key: &str, known: bool) -> (ack: SubscriptionAck)
        ensures
            final(self)@ == (if known { old(self)@.insert(key@) } else { old(self)@ }),
            ack@ == subscribe_ack(key@, known),
    {
        if known {
            if !self.is_subscribed(key) {
                let ghost before = self.symbols@;
                self.symbols.push(key.to_owned());
                assert(self@ =~= old(self)@.insert(key@)) by {
                    assert forall|s: Seq<char>| self@.contains(s) implies old(self)@.insert(key@).contains(s) by {
                        let i = choose|i: int| 0 <= i < self.symbols@.len() && (#[trigger] self.symbols@[i])@ == s;
                        if i < before.len() {
                            assert(before[i]@ == s);
                        }
                    }
                    assert forall|s: Seq<char>| old(self)@.insert(key@).contains(s) implies self@.contains(s) by {
                        if s == key@ {
                            assert(self.symbols@[before.len() as int]@ == s);
                        } else {
                            let i = choose|i: int| 0 <= i < before.len() && (#[trigger] before[i])@ == s;
                            assert(self.symbols@[i]@ == s);
                        }
                    }
                }
            } else {
                assert(self@ =~= old(self)@.insert(key@));
            }
            SubscriptionAck {
                status: SubscriptionStatus::Success,
                message: String::from_str("Subscribed to ").concat(key),
                symbol: Some(key.to_owned()),
            }
        } else {
            SubscriptionAck {
                status: SubscriptionStatus::Error,
                message: String::from_str("Symbol '").concat(key).concat("' not found"),
                symbol: None,
            }
        }
    }

    /// Ends the subscription to the symbol `key`, whether there was one or
    /// not, and says so.
    pub fn unsubscribe(&mut self, key: &str) -> (ack: SubscriptionAck)
        ensures
            final(self)@ == old(self)@.remove(key@),
            ack@ == unsubscribe_ack(key@),
    {
        let mut kept: Vec<String> = Vec::new();
        let mut i: usize = 0;
        while i < self.symbols.len()
            invariant
                0 <= i <= self.symbols.len(),
                forall|j: int| 0 <= j < kept@.len() ==> (#[trigger] kept@[j])@ != key@ && symbol_set(
                    self.symbols@,
                ).contains(kept@[j]@),
                forall|j: int|
                    0 <= j < i && (#[trigger] self.symbols@[j])@ != key@ ==> symbol_set(kept@).contains(
                        self.symbols@[j]@,
                    ),
            decreases self.symbols.len() - i,
        {
            if !same_text(self.symbols[i].as_str(), key) {
                let ghost before = kept@;
                kept.push(self.symbols[i].clone());
                proof {
                    assert(kept@[before.len() as int]@ == self.symbols@[i as int]@);
                    assert forall|j: int| 0 <= j <= i && (#[trigger] self.symbols@[j])@ != key@ implies symbol_set(
                        kept@,
                    ).contains(self.symbols@[j]@) by {
                        if j < i {
                            let k = choose|k: int| 0 <= k < before.len() && (#[trigger] before[k])@ == self.symbols@[j]@;
                            assert(kept@[k]@ == self.symbols@[j]@);
                        }
                    }
                }
            }
            i = i + 1;
        }
        proof {
            assert(symbol_set(kept@) =~= old(self)@.remove(key@)) by {
                assert forall|s: Seq<char>| symbol_set(kept@).contains(s) implies old(self)@.remove(key@).contains(
                    s,
                ) by {
                    let k = choose|k: int| 0 <= k < kept@.len() && (#[trigger] kept@[k])@ == s;
                    assert(kept@[k]@ != key@);
                }
                assert forall|s: Seq<char>| old(self)@.remove(key@).contains(s) implies symbol_set(kept@).contains(
                    s,
                ) by {
                    let j = choose|j: int| 0 <= j < self.symbols@.len() && (#[trigger] self.symbols@[j])@ == s;
                    assert(self.symbols@[j]@ != key@);
                }
            }
        }
        self.symbols = kept;
        SubscriptionAck {
            status: SubscriptionStatus::Success,
            message: String::from_str("Unsubscribed from ").concat(key),
            symbol: Some(key.to_owned()),
        }
    }

    /// Carries out a request of the subscriber on the symbol `key`, which
    /// the registry knows or not.
    pub fn apply(&mut self, action: SubscriptionAction, key: &str, known: bool) -> (ack: SubscriptionAck)
        ensures
            final(self)@ == (match action {
                SubscriptionAction::Subscribe => if known { old(self)@.insert(key@) } else { old(self)@ },
                SubscriptionAction::Unsubscribe => old(self)@.remove(key@),
            }),
            ack@ == (match action {
                SubscriptionAction::Subscribe => subscribe_ack(key@, known),
                SubscriptionAction::Unsubscribe => unsubscribe_ack(key@),
            }),
    {
        match action {
            SubscriptionAction::Subscribe => self.subscribe(key, known),
            SubscriptionAction::Unsubscribe => self.unsubscribe(key),
        }
    }

    /// Carries out a request of the subscriber on `symbol`, which is taken
    /// in upper case and looked up in the registry.
    pub fn handle_request(&mut self, action: SubscriptionAction, symbol: &str, registry: &SymbolRegistry) -> (ack:
        SubscriptionAck)
        ensures
            ({
                let key = uppercase(symbol@);
                let known = !absent(registry@, key);
                &&& final(self)@ == (match action {
                    SubscriptionAction::Subscribe => if known { old(self)@.insert(key) } else { old(self)@ },
                    SubscriptionAction::Unsubscribe => old(self)@.remove(key),
                })
                &&& ack@ == (match action {
                    SubscriptionAction::Subscribe => subscribe_ack(key, known),
                    SubscriptionAction::Unsubscribe => unsubscribe_ack(key),
                })
            }),
    {
        let key = to_upper(symbol);
        let found = registry.find(key.as_str());
        let known = match found {
            Some(i) => {
                assert(first_at(registry@, key@, i as int));
                assert(registry@[i as int] == key@);
                true
            },
            None => false,
        };
        self.apply(action, key.as_str(), known)
    }

    /// Whether a message of the bus goes to this subscriber: it does if the
    /// subscriber has subscribed to the message's symbol.
    pub fn forwards(&self, message: &WsMessage) -> (r: bool)
        ensures
            r == self@.contains(symbol_of(message@)),
    {
        match message {
            WsMessage::OrderBookUpdate { symbol, bids, asks } => self.is_subscribed(symbol.as_str()),
            WsMessage::Trade { symbol, trade } => self.is_subscribed(symbol.as_str()),
        }
    }
}

/// The answer to a frame that is no request.
pub fn malformed_request() -> (ack: SubscriptionAck)
    ensures
        ack@ == malformed_ack(),
{
    SubscriptionAck {
        status: SubscriptionStatus::Error,
        message: String::from_str(
            "Invalid message format. Expected: {\"action\": \"subscribe\", \"symbol\": \"BTCUSDT\"}",
        ),
        symbol: None,
    }
}

/// What arrives from the subscriber.
#[derive(Debug, Clone)]
pub enum Inbound {
    /// A text frame that holds a request.
    Request { action: SubscriptionAction, symbol: String },
    /// A text frame that holds none.
    Malformed,
    /// The subscriber closes the session.
    Close,
    /// The connection failed or ended.
    Lost,
    /// A binary, ping or pong frame, or one of an unknown kind.
    Other,
}

/// What the session does about a frame.
#[derive(Debug, Clone)]
pub enum Reaction {
    /// Send the answer. If sending fails, the session ends where
    /// `stop_on_failure` is set, and goes on where it is not.
    Reply { ack: SubscriptionAck, stop_on_failure: bool },
    /// Nothing.
    Ignore,
    /// End the session.
    Stop,
}

/// What arrives from the bus.
#[derive(Debug, Clone)]
pub enum BusEvent {
    /// A message.
    Message(WsMessage),
    /// The subscriber fell behind and the bus dropped messages for it.
    Lagged,
    /// The bus is closed.
    Closed,
}

/// What the session does about an event of the bus.
#[derive(Debug, Clone)]
pub enum Delivery {
    /// Send the message to the subscriber; the session ends if that fails.
    Forward(WsMessage),
    /// Nothing.
    Skip,
    /// End the session.
    Stop,
}

/// The session's step on a frame of the subscriber. A request is carried
/// out and answered; a frame that holds no request gets one error answer
/// and the session goes on whatever becomes of that answer; a close or a
/// lost connection ends the session; other frames are ignored.
pub fn on_inbound(session: &mut Session, frame: Inbound, registry: &SymbolRegistry) -> (r: Reaction)
    ensures
        match frame {
            Inbound::Request { action, symbol } => {
                let key = uppercase(symbol@);
                let known = !absent(registry@, key);
                &&& final(session)@ == (match action {
                    SubscriptionAction::Subscribe => if known { old(session)@.insert(key) } else { old(session)@ },
                    SubscriptionAction::Unsubscribe => old(session)@.remove(key),
                })
                &&& r matches Reaction::Reply { ack, stop_on_failure } && stop_on_failure && ack@ == (match action {
                    SubscriptionAction::Subscribe => subscribe_ack(key, known),
                    SubscriptionAction::Unsubscribe => unsubscribe_ack(key),
                })
            },
            Inbound::Malformed => {
                &&& final(session)@ == old(session)@
                &&& r matches Reaction::Reply { ack, stop_on_failure } && !stop_on_failure && ack@ == malformed_ack()
            },
            Inbound::Close => final(session)@ == old(session)@ && r is Stop,
            Inbound::Lost => final(session)@ == old(session)@ && r is Stop,
            Inbound::Other => final(session)@ == old(session)@ && r is Ignore,
        },
{
    match frame {
        Inbound::Request { action, symbol } => {
            let ack = session.handle_request(action, symbol.as_str(), registry);
            Reaction::Reply { ack, stop_on_failure: true }
        },
        Inbound::Malformed => Reaction::Reply { ack: malformed_request(), stop_on_failure: false },
        Inbound::Close => Reaction::Stop,
        Inbound::Lost => Reaction::Stop,
        Inbound::Other => Reaction::Ignore,
    }
}

/// The session's step on an event of the bus. A message goes to the
/// subscriber exactly if it has subscribed to the message's symbol; a
/// subscriber that fell behind goes on without what it missed; a closed
/// bus ends the session.
pub fn on_bus(session: &Session, event: BusEvent) -> (r: Delivery)
    ensures
        match event {
            BusEvent::Message(m) => if session@.contains(symbol_of(m@)) {
                r matches Delivery::Forward(out) && out == m
            } else {
                r is Skip
            },
            BusEvent::Lagged => r is Skip,
            BusEvent::Closed => r is Stop,
        },
{
    match event {
        BusEvent::Message(m) => {
            if session.forwards(&m) {
                Delivery::Forward(m)
            } else {
                Delivery::Skip
            }
        },
        BusEvent::Lagged => Delivery::Skip,
        BusEvent::Closed => Delivery::Stop,
    }
}

} // verus!
