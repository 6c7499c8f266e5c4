//! The client side: a mirror of each exchange's book built from the events
//! the server sends, the client's own orders, cash and position, the
//! requests it queues for the server, and the commands a trader types.
use std::collections::HashMap;
use std::collections::HashSet;
use vstd::prelude::*;
use vstd::std_specs::iter::IteratorSpec;

use crate::book::{BookView, OrderBook, empty_book};
use crate::protocol::{
    ClientAction, ClientMessage, ExchangeEvent, ExchangeId, ExchangePrivateMessage, ServerMessage,
    SystemMessage,
};
use crate::text::{chars_eq, parse_u64, parse_u64_spec, split_whitespace, words};
use crate::types::{AccountId, Order, OrderId, Price, Quantity, Side};

verus! {

/// The side a wire code stands for: `1` a bid, anything else an ask.
pub open spec fn side_of(code: i8) -> Side {
    if code == 1 {
        Side::Bid
    } else {
        Side::Ask
    }
}

/// A client's mirror of one exchange as the specifications see it.
pub struct ClientBookView {
    pub book: BookView,
    pub our_orders: Set<OrderId>,
    pub cash: i64,
    pub position: i64,
    pub next_order_id: OrderId,
}

impl ClientBookView {
    /// The mirrored book is well formed and its ids are below the next local id.
    pub open spec fn inv(self) -> bool {
        &&& self.book.wf()
        &&& forall|id: OrderId| #[trigger] self.book.orders.contains_key(id) ==> id < self.next_order_id
    }

    /// The order an insert event puts in the mirror, under the next local id.
    pub open spec fn inserted_order(self, price: Price, qty: Quantity, side: i8) -> Order {
        Order { account_id: 0, side: side_of(side), price, qty, order_id: self.next_order_id }
    }

    /// The event can be applied: a cancel names a known order, an insert has
    /// a valid side and fits, a trade is possible. An insert under an id the
    /// mirror already holds, or a trade of more than an order has left, would
    /// put the mirror's orders and its levels out of step; such events are
    /// left out.
    pub open spec fn event_ok(self, event: ExchangeEvent) -> bool {
        match event {
            ExchangeEvent::Cancel { order_id, .. } => self.book.orders.contains_key(order_id),
            ExchangeEvent::Insert { price, qty, side, .. } => {
                &&& side == 1 || side == -1
                &&& self.next_order_id < u64::MAX
                &&& self.book.can_insert(self.inserted_order(price, qty, side))
            },
            ExchangeEvent::Trade { ask_id, bid_id, trade_volume, .. } => self.book.match_ok(
                bid_id,
                ask_id,
                trade_volume,
            ),
        }
    }

    /// The mirror after a public event.
    pub open spec fn apply_event(self, event: ExchangeEvent) -> ClientBookView {
        match event {
            ExchangeEvent::Cancel { order_id, .. } => {
                let o = self.book.orders[order_id];
                ClientBookView { book: self.book.remove(order_id, o.price, o.side), ..self }
            },
            ExchangeEvent::Insert { price, qty, side, .. } => ClientBookView {
                book: self.book.insert(self.inserted_order(price, qty, side)),
                next_order_id: (self.next_order_id + 1) as u64,
                ..self
            },
            ExchangeEvent::Trade { ask_id, bid_id, trade_volume, .. } => ClientBookView {
                book: self.book.match_orders(bid_id, ask_id, trade_volume),
                ..self
            },
        }
    }

    /// The cash a fill moves: price times volume, as an `i64`.
    pub open spec fn fill_value(trade_price: Price, trade_volume: Quantity) -> i64 {
        (trade_price * trade_volume) as i64
    }

    /// The private message can be applied: a trade confirmation has a valid
    /// side, and cash and position stay in range.
    pub open spec fn private_ok(self, message: ExchangePrivateMessage) -> bool {
        match message {
            ExchangePrivateMessage::TradeConfirm { trade_price, trade_volume, side, .. } => {
                &&& side == 1 || side == -1
                &&& trade_price * trade_volume <= u64::MAX
                &&& if side == 1 {
                    &&& i64::MIN <= self.cash - Self::fill_value(trade_price, trade_volume) <= i64::MAX
                    &&& i64::MIN <= self.position + (trade_volume as i64) <= i64::MAX
                } else {
                    &&& i64::MIN <= self.cash + Self::fill_value(trade_price, trade_volume) <= i64::MAX
                    &&& i64::MIN <= self.position - (trade_volume as i64) <= i64::MAX
                }
            },
            _ => true,
        }
    }

    /// The mirror after a private message: an insert confirmation makes the
    /// order ours, a cancel or trade confirmation makes it no longer ours, and
    /// a fill moves cash and position (a bid pays, an ask is paid).
    pub open spec fn apply_private(self, message: ExchangePrivateMessage) -> ClientBookView {
        match message {
            ExchangePrivateMessage::InsertConfirm { order_id, .. } => ClientBookView {
                our_orders: self.our_orders.insert(order_id),
                ..self
            },
            ExchangePrivateMessage::CancelConfirm { order_id, .. } => ClientBookView {
                our_orders: self.our_orders.remove(order_id),
                ..self
            },
            ExchangePrivateMessage::TradeConfirm { order_id, trade_price, trade_volume, side, .. } => {
                let v = Self::fill_value(trade_price, trade_volume);
                if side == 1 {
                    ClientBookView {
                        our_orders: self.our_orders.remove(order_id),
                        cash: (self.cash - v) as i64,
                        position: (self.position + (trade_volume as i64)) as i64,
                        ..self
                    }
                } else {
                    ClientBookView {
                        our_orders: self.our_orders.remove(order_id),
                        cash: (self.cash + v) as i64,
                        position: (self.position - (trade_volume as i64)) as i64,
                        ..self
                    }
                }
            },
        }
    }
}

/// A fill of `v` at price `p` moves the position by exactly `v` (up for a
/// bid, down for an ask) and the cash by exactly `p * v` the other way, so
/// cash plus position valued at the trade price is what it was; the order
/// is no longer counted as ours, and the book is untouched.
pub proof fn law_fill_conserves_value(c: ClientBookView, message: ExchangePrivateMessage)
    requires
        c.private_ok(message),
        message is TradeConfirm,
        message->TradeConfirm_trade_price * message->TradeConfirm_trade_volume <= i64::MAX,
        message->TradeConfirm_trade_volume <= i64::MAX,
    ensures
        ({
            let p = message->TradeConfirm_trade_price;
            let v = message->TradeConfirm_trade_volume;
            let side = message->TradeConfirm_side;
            let after = c.apply_private(message);
            &&& side == 1 ==> after.position == c.position + v && after.cash == c.cash - p * v
            &&& side == -1 ==> after.position == c.position - v && after.cash == c.cash + p * v
            &&& after.cash + after.position * p == c.cash + c.position * p
            &&& after.our_orders == c.our_orders.remove(message->TradeConfirm_order_id)
            &&& after.book == c.book
        }),
{
    let p = message->TradeConfirm_trade_price;
    let v = message->TradeConfirm_trade_volume;
    let after = c.apply_private(message);
    assert(ClientBookView::fill_value(p, v) == p * v);
    assert((v as i64) == v);
    if message->TradeConfirm_side == 1 {
        assert(after.position * p == c.position * p + v * p) by (nonlinear_arith)
            requires
                after.position == c.position + v,
        ;
    } else {
        assert(after.position * p == c.position * p - v * p) by (nonlinear_arith)
            requires
                after.position == c.position - v,
        ;
    }
    assert(v * p == p * v) by (nonlinear_arith);
}

/// A mirror with an empty book, no orders of ours, no cash and no position.
pub open spec fn empty_client_book() -> ClientBookView {
    ClientBookView {
        book: empty_book(),
        our_orders: Set::empty(),
        cash: 0,
        position: 0,
        next_order_id: 0,
    }
}

/// A client's mirror of one exchange.
pub struct ClientOrderBook {
    pub order_book: OrderBook,
    pub our_orders: HashSet<OrderId>,
    pub cash: i64,
    pub position: i64,
    /// The id the next order seen in an insert event gets in the mirror. The
    /// mirror numbers the orders of its exchange from 0 on its own, as that
    /// exchange does, so its ids are the exchange's.
    pub next_order_id: OrderId,
}

impl View for ClientOrderBook {
    type V = ClientBookView;

    open spec fn view(&self) -> ClientBookView {
        ClientBookView {
            book: self.order_book@,
            our_orders: self.our_orders@,
            cash: self.cash,
            position: self.position,
            next_order_id: self.next_order_id,
        }
    }
}

impl ClientOrderBook {
    pub open spec fn inv(&self) -> bool {
        &&& self.order_book.wf()
        &&& self@.inv()
    }

    /// An empty mirror.
    pub fn new() -> (b: ClientOrderBook)
        ensures
            b.inv(),
            b@ == empty_client_book(),
    {
        let b = ClientOrderBook {
            order_book: OrderBook::new(),
            our_orders: HashSet::new(),
            cash: 0,
            position: 0,
            next_order_id: 0,
        };
        assert(b@.our_orders =~= Set::<OrderId>::empty());
        b
    }

    /// Whether `event` can be applied to this mirror.
    pub fn accepts_event(&self, event: &ExchangeEvent) -> (r: bool)
        requires
            self.inv(),
        ensures
            r == self@.event_ok(*event),
    {
        match event {
            ExchangeEvent::Cancel { order_id, .. } => self.order_book.get_order(*order_id).is_some(),
            ExchangeEvent::Insert { price, qty, side, .. } => {
                if *side != 1 && *side != -1 {
                    return false;
                }
                if self.next_order_id == u64::MAX {
                    return false;
                }
                let s = if *side == 1 {
                    Side::Bid
                } else {
                    Side::Ask
                };
                proof {
                    assert(!self@.book.orders.contains_key(self.next_order_id));
                }
                self.order_book.level_has_room(s, *price, *qty)
            },
            ExchangeEvent::Trade { ask_id, bid_id, trade_volume, .. } => {
                match (self.order_book.get_order(*bid_id), self.order_book.get_order(*ask_id)) {
                    (Some(bid), Some(ask)) => {
                        bid.side == Side::Bid && ask.side == Side::Ask && *trade_volume <= bid.qty
                            && *trade_volume <= ask.qty
                    },
                    _ => true,
                }
            },
        }
    }

    /// Applies a public event of the exchange to the mirror.
    pub fn handle_exchange_event(&mut self, event: ExchangeEvent)
        requires
            old(self).inv(),
            old(self)@.event_ok(event),
        ensures
            final(self).inv(),
            final(self)@ == old(self)@.apply_event(event),
    {
        match event {
            ExchangeEvent::Cancel { order_id, .. } => {
                let order: Order = *self.order_book.get_order(order_id).expect(
                    "client book out of sync with server",
                );
                self.order_book.remove_order(order_id, order.price(), order.side(), order.qty());
                proof {
                    crate::book::lemma_remove_wf(
                        old(self)@.book,
                        order_id,
                        order.price,
                        order.side,
                        order.qty,
                    );
                    assert forall|id: OrderId| #[trigger]
                        self@.book.orders.contains_key(id) implies id < self.next_order_id by {
                        assert(old(self)@.book.orders.contains_key(id));
                    }
                }
            },
            ExchangeEvent::Insert { price, qty, side, .. } => {
                let side = match Side::from_i8(side) {
                    Some(s) => s,
                    None => {
                        proof {
                            assert(false);
                        }
                        Side::Ask
                    },
                };
                let order = Order::new_order(0, price, qty, side, &mut self.next_order_id);
                proof {
                    assert(order == old(self)@.inserted_order(price, qty, event->side));
                    crate::book::lemma_insert_wf(old(self)@.book, order);
                }
                self.order_book.insert_order(order);
                proof {
                    assert forall|id: OrderId| #[trigger]
                        self@.book.orders.contains_key(id) implies id < self.next_order_id by {
                        if id != order.order_id {
                            assert(old(self)@.book.orders.contains_key(id));
                        }
                    }
                }
            },
            ExchangeEvent::Trade { ask_id, bid_id, trade_volume, .. } => {
                proof {
                    crate::book::lemma_match_wf(old(self)@.book, bid_id, ask_id, trade_volume);
                    crate::book::lemma_match_keeps_ids(old(self)@.book, bid_id, ask_id, trade_volume);
                }
                self.order_book.match_order(bid_id, ask_id, trade_volume);
            },
        }
    }

    /// Whether `message` can be applied to this mirror.
    pub fn accepts_private_message(&self, message: &ExchangePrivateMessage) -> (r: bool)
        ensures
            r == self@.private_ok(*message),
    {
        match message {
            ExchangePrivateMessage::TradeConfirm { trade_price, trade_volume, side, .. } => {
                if *side != 1 && *side != -1 {
                    return false;
                }
                match trade_price.checked_mul(*trade_volume) {
                    None => false,
                    Some(value) => {
                        let v = value as i64;
                        let q = *trade_volume as i64;
                        if *side == 1 {
                            self.cash.checked_sub(v).is_some() && self.position.checked_add(q).is_some()
                        } else {
                            self.cash.checked_add(v).is_some() && self.position.checked_sub(q).is_some()
                        }
                    },
                }
            },
            _ => true,
        }
    }

    /// Applies a private confirmation to the mirror.
    pub fn handle_exchange_private_message(&mut self, message: ExchangePrivateMessage)
        requires
            old(self).inv(),
            old(self)@.private_ok(message),
        ensures
            final(self).inv(),
            final(self)@ == old(self)@.apply_private(message),
    {
        match message {
            ExchangePrivateMessage::InsertConfirm { order_id, .. } => {
                self.our_orders.insert(order_id);
            },
            ExchangePrivateMessage::CancelConfirm { order_id, .. } => {
                self.our_orders.remove(&order_id);
            },
            ExchangePrivateMessage::TradeConfirm { order_id, trade_price, trade_volume, side, .. } => {
                self.our_orders.remove(&order_id);
                let side = match Side::from_i8(side) {
                    Some(s) => s,
                    None => {
                        proof {
                            assert(false);
                        }
                        Side::Ask
                    },
                };
                match side {
                    Side::Bid => {
                        self.cash -= (trade_price * trade_volume) as i64;
                        self.position += trade_volume as i64;
                    },
                    Side::Ask => {
                        self.cash += (trade_price * trade_volume) as i64;
                        self.position -= trade_volume as i64;
                    },
                }
            },
        }
    }
}


/// The requests that cancel each of `ids` on exchange `exchange_id`, in order.
pub open spec fn cancels(exchange_id: ExchangeId, ids: Seq<OrderId>) -> Seq<ClientMessage> {
    ids.map_values(
        |id: OrderId| ClientMessage { exchange_id, action: ClientAction::CancelOrder { order_id: id } },
    )
}

/// The request that inserts a limit order; a bid is flagged `true`.
pub open spec fn insert_request(
    exchange_id: ExchangeId,
    side: Side,
    price: Price,
    qty: Quantity,
    client_order_id: u64,
) -> ClientMessage {
    ClientMessage {
        exchange_id,
        action: ClientAction::InsertOrder { side: side == Side::Bid, price, qty, client_order_id },
    }
}

/// A client as the specifications see it: its mirrors by exchange, its
/// account, the id of its next request, whether trading has started, and the
/// requests waiting to be sent.
pub struct ClientView {
    pub books: Map<ExchangeId, ClientBookView>,
    pub account_id: Option<AccountId>,
    pub next_client_order_id: u64,
    pub start: bool,
    pub outbox: Seq<ClientMessage>,
}

impl ClientView {
    pub open spec fn inv(self) -> bool {
        forall|e: ExchangeId| #[trigger] self.books.contains_key(e) ==> self.books[e].inv()
    }

    /// The message can be handled: events and confirmations name a known
    /// exchange and can be applied to its mirror; `End` is not handled.
    pub open spec fn message_ok(self, message: ServerMessage) -> bool {
        match message {
            ServerMessage::Event(id, event) => self.books.contains_key(id) && self.books[id].event_ok(event),
            ServerMessage::Private(id, m) => self.books.contains_key(id) && self.books[id].private_ok(m),
            ServerMessage::System(SystemMessage::End) => false,
            ServerMessage::System(_) => true,
        }
    }

    /// The client after a server message.
    pub open spec fn handle(self, message: ServerMessage) -> ClientView {
        match message {
            ServerMessage::Event(id, event) => ClientView {
                books: self.books.insert(id, self.books[id].apply_event(event)),
                ..self
            },
            ServerMessage::Private(id, m) => ClientView {
                books: self.books.insert(id, self.books[id].apply_private(m)),
                ..self
            },
            ServerMessage::System(SystemMessage::Start) => ClientView { start: true, ..self },
            ServerMessage::System(SystemMessage::ExchangeAdded { exchange_id }) => ClientView {
                books: self.books.insert(exchange_id, empty_client_book()),
                ..self
            },
            ServerMessage::System(SystemMessage::AccountId { account_id }) => ClientView {
                account_id: Some(account_id),
                ..self
            },
            ServerMessage::System(SystemMessage::End) => self,
        }
    }

    /// The client after the messages, in order.
    pub open spec fn handle_all(self, messages: Seq<ServerMessage>) -> ClientView
        decreases messages.len(),
    {
        if messages.len() == 0 {
            self
        } else {
            self.handle(messages[0]).handle_all(messages.drop_first())
        }
    }

    /// Each message can be handled in the state it meets.
    pub open spec fn all_ok(self, messages: Seq<ServerMessage>) -> bool
        decreases messages.len(),
    {
        if messages.len() == 0 {
            true
        } else {
            self.message_ok(messages[0]) && self.handle(messages[0]).all_ok(messages.drop_first())
        }
    }
}

/// A client of the server, without the connection: it keeps a mirror of each
/// exchange and queues its requests until they are sent.
pub struct Client {
    outbox: Vec<ClientMessage>,
    books: HashMap<ExchangeId, ClientOrderBook>,
    account_id: Option<AccountId>,
    client_order_id_counter: u64,
    start: bool,
}

impl View for Client {
    type V = ClientView;

    closed spec fn view(&self) -> ClientView {
        ClientView {
            books: self.books@.map_values(|b: ClientOrderBook| b@),
            account_id: self.account_id,
            next_client_order_id: self.client_order_id_counter,
            start: self.start,
            outbox: self.outbox@,
        }
    }
}

impl Client {
    pub closed spec fn inv(&self) -> bool {
        forall|e: ExchangeId| #[trigger] self.books@.contains_key(e) ==> self.books@[e].inv()
    }

    /// A client with no exchanges, no account and nothing to send.
    pub fn new() -> (c: Client)
        ensures
            c.inv(),
            c@.books.is_empty(),
            c@.account_id is None,
            c@.next_client_order_id == 0,
            !c@.start,
            c@.outbox.len() == 0,
    {
        let c = Client {
            outbox: Vec::new(),
            books: HashMap::new(),
            account_id: None,
            client_order_id_counter: 0,
            start: false,
        };
        assert(c@.books.dom() =~= Set::<ExchangeId>::empty());
        c
    }

    /// Whether the server has said trading started.
    pub fn start(&self) -> (r: bool)
        ensures
            r == self@.start,
    {
        self.start
    }

    /// The account the server gave this client.
    pub fn account_id(&self) -> (r: Option<AccountId>)
        ensures
            r == self@.account_id,
    {
        self.account_id
    }

    /// The client order id the next limit order gets.
    pub fn next_client_order_id(&self) -> (r: u64)
        ensures
            r == self@.next_client_order_id,
    {
        self.client_order_id_counter
    }

    /// The mirrors, by exchange.
    pub fn books(&self) -> (r: &HashMap<ExchangeId, ClientOrderBook>)
        ensures
            r@.map_values(|b: ClientOrderBook| b@) == self@.books,
            self.inv() ==> forall|e: ExchangeId| #[trigger] r@.contains_key(e) ==> r@[e].inv(),
    {
        &self.books
    }

    /// Hands over the queued requests, oldest first, and empties the queue.
    pub fn take_outbox(&mut self) -> (r: Vec<ClientMessage>)
        ensures
            r@ == old(self)@.outbox,
            final(self)@ == (ClientView { outbox: Seq::empty(), ..old(self)@ }),
            final(self).inv() == old(self).inv(),
    {
        let mut out: Vec<ClientMessage> = Vec::new();
        std::mem::swap(&mut out, &mut self.outbox);
        assert(self@.outbox =~= Seq::<ClientMessage>::empty());
        out
    }

    /// Queues a cancel of every order of ours on `exchange_id`, in no
    /// particular order. `None` when the client knows no such exchange.
    pub fn cancel_all(&mut self, exchange_id: ExchangeId) -> (r: Option<()>)
        ensures
            final(self).inv() == old(self).inv(),
            r is None <==> !old(self)@.books.contains_key(exchange_id),
            r is None ==> final(self)@ == old(self)@,
            r is Some ==> exists|ids: Seq<OrderId>|
                {
                    &&& ids.no_duplicates()
                    &&& ids.to_set() == old(self)@.books[exchange_id].our_orders
                    &&& final(self)@ == (ClientView {
                        outbox: old(self)@.outbox + cancels(exchange_id, ids),
                        ..old(self)@
                    })
                },
    {
        let book = match self.books.get(&exchange_id) {
            Some(b) => b,
            None => {
                return None;
            },
        };
        let ghost out0 = self.outbox@;
        let ghost total = vstd::std_specs::hash::spec_hash_keys_iter(&book.our_orders).remaining().unref();
        assert(total.take(total.len() as int) =~= total);
        for order_id in it: book.our_orders.iter()
            invariant
                it.seq().unref() == total,
                self.outbox@ == out0 + cancels(exchange_id, total.take(it.index())),
                self.books@ == old(self).books@,
                self.account_id == old(self).account_id,
                self.client_order_id_counter == old(self).client_order_id_counter,
                self.start == old(self).start,
        {
            self.outbox.push(
                ClientMessage { exchange_id, action: ClientAction::CancelOrder { order_id: *order_id } },
            );
            assert(total.take(it.index() + 1) =~= total.take(it.index()).push(*order_id));
            assert(self.outbox@ =~= out0 + cancels(exchange_id, total.take(it.index() + 1)));
        }
        proof {
            assert(total.no_duplicates());
        }
        Some(())
    }

    /// Queues a cancel of order `order_id` on `exchange_id` and gives the
    /// order, if the mirror of that exchange knows it; otherwise does nothing.
    pub fn cancel_order(&mut self, exchange_id: ExchangeId, order_id: OrderId) -> (r: Option<Order>)
        requires
            old(self).inv(),
        ensures
            final(self).inv(),
            match r {
                Some(o) => {
                    &&& old(self)@.books.contains_key(exchange_id)
                    &&& old(self)@.books[exchange_id].book.orders.contains_key(order_id)
                    &&& o == old(self)@.books[exchange_id].book.orders[order_id]
                    &&& final(self)@ == (ClientView {
                        outbox: old(self)@.outbox.push(
                            ClientMessage { exchange_id, action: ClientAction::CancelOrder { order_id } },
                        ),
                        ..old(self)@
                    })
                },
                None => {
                    &&& !(old(self)@.books.contains_key(exchange_id)
                        && old(self)@.books[exchange_id].book.orders.contains_key(order_id))
                    &&& final(self)@ == old(self)@
                },
            },
    {
        let order: Order = match self.books.get(&exchange_id) {
            Some(book) => match book.order_book.get_order(order_id) {
                Some(o) => *o,
                None => {
                    return None;
                },
            },
            None => {
                return None;
            },
        };
        self.outbox.push(ClientMessage { exchange_id, action: ClientAction::CancelOrder { order_id } });
        Some(order)
    }

    /// Queues a limit order on `exchange_id`, numbered with the next client
    /// order id.
    pub fn limit_order(&mut self, exchange_id: ExchangeId, side: Side, price: Price, qty: Quantity)
        requires
            old(self)@.next_client_order_id < u64::MAX,
        ensures
            final(self).inv() == old(self).inv(),
            final(self)@ == (ClientView {
                next_client_order_id: (old(self)@.next_client_order_id + 1) as u64,
                outbox: old(self)@.outbox.push(
                    insert_request(exchange_id, side, price, qty, old(self)@.next_client_order_id),
                ),
                ..old(self)@
            }),
    {
        let client_order_id = self.client_order_id_counter;
        self.client_order_id_counter += 1;
        let side = match side {
            Side::Bid => true,
            Side::Ask => false,
        };
        let action = ClientAction::InsertOrder { side, price, qty, client_order_id };
        let message = ClientMessage { exchange_id, action };
        self.outbox.push(message);
    }

    /// Whether `message` can be handled now.
    pub fn accepts(&self, message: &ServerMessage) -> (r: bool)
        requires
            self.inv(),
        ensures
            r == self@.message_ok(*message),
    {
        match message {
            ServerMessage::Event(id, event) => match self.books.get(id) {
                Some(book) => book.accepts_event(event),
                None => false,
            },
            ServerMessage::Private(id, m) => match self.books.get(id) {
                Some(book) => book.accepts_private_message(m),
                None => false,
            },
            ServerMessage::System(SystemMessage::End) => false,
            ServerMessage::System(_) => true,
        }
    }

    /// Handles one message from the server.
    pub fn handle_server_message(&mut self, message: ServerMessage)
        requires
            old(self).inv(),
            old(self)@.message_ok(message),
        ensures
            final(self).inv(),
            final(self)@ == old(self)@.handle(message),
    {
        let ghost v0 = self@;
        match message {
            ServerMessage::Event(id, event) => {
                let mut book = self.books.remove(&id).expect("events come from known exchanges");
                book.handle_exchange_event(event);
                self.books.insert(id, book);
                proof {
                    assert(self@.books =~= v0.books.insert(id, v0.books[id].apply_event(event)));
                }
            },
            ServerMessage::Private(id, private_msg) => {
                let mut book = self.books.remove(&id).expect("messages come from known exchanges");
                book.handle_exchange_private_message(private_msg);
                self.books.insert(id, book);
                proof {
                    assert(self@.books =~= v0.books.insert(id, v0.books[id].apply_private(private_msg)));
                }
            },
            ServerMessage::System(msg) => match msg {
                SystemMessage::Start => {
                    self.start = true;
                },
                SystemMessage::ExchangeAdded { exchange_id } => {
                    self.books.insert(exchange_id, ClientOrderBook::new());
                    proof {
                        assert(self@.books =~= v0.books.insert(exchange_id, empty_client_book()));
                    }
                },
                SystemMessage::AccountId { account_id } => {
                    self.account_id = Some(account_id);
                },
                SystemMessage::End => {
                    proof {
                        assert(false);
                    }
                },
            },
        }
    }

    /// Handles the messages from the server, in order.
    pub fn update(&mut self, messages: Vec<ServerMessage>)
        requires
            old(self).inv(),
            old(self)@.all_ok(messages@),
        ensures
            final(self).inv(),
            final(self)@ == old(self)@.handle_all(messages@),
    {
        let n = messages.len();
        assert(messages@.skip(0) =~= messages@);
        for i in 0..n
            invariant
                n == messages@.len(),
                self.inv(),
                self@.all_ok(messages@.skip(i as int)),
                self@.handle_all(messages@.skip(i as int)) == old(self)@.handle_all(messages@),
        {
            let ghost rest = messages@.skip(i as int);
            assert(rest[0] == messages@[i as int]);
            assert(rest.drop_first() =~= messages@.skip(i + 1));
            self.handle_server_message(messages[i]);
        }
        assert(messages@.skip(n as int) =~= Seq::<ServerMessage>::empty());
    }
}

/// A command a trader types in the trading screen.
#[derive(Debug, Clone, Copy, PartialEq, Eq, Structural)]
pub enum InternalAction {
    InsertOrder { side: Side, price: Price, qty: Quantity },
    Hit,
    Lift,
    CancelLevel { price: Price },
    CancelAll,
    SetVolume(Quantity),
}

/// An insert command, if its price and quantity were read.
pub open spec fn insert_action(side: Side, price: Option<u64>, qty: Option<u64>) -> Option<InternalAction> {
    match (price, qty) {
        (Some(p), Some(q)) => Some(InternalAction::InsertOrder { side, price: p, qty: q }),
        _ => None,
    }
}

/// The command a line names, with `default_qty` for an order without a
/// quantity: `hit` or `yours`, `lift` or `mine`, `bid`/`ask` with a price and
/// an optional quantity, `volume` with a quantity, `cancel` with a price, or
/// `cancel_all`.
pub open spec fn internal_action_of(line: Seq<char>, default_qty: Quantity) -> Option<InternalAction> {
    let w = words(line);
    if w.len() == 1 {
        if w[0] == seq!['h', 'i', 't'] || w[0] == seq!['y', 'o', 'u', 'r', 's'] {
            Some(InternalAction::Hit)
        } else if w[0] == seq!['l', 'i', 'f', 't'] || w[0] == seq!['m', 'i', 'n', 'e'] {
            Some(InternalAction::Lift)
        } else if w[0] == seq!['c', 'a', 'n', 'c', 'e', 'l', '_', 'a', 'l', 'l'] {
            Some(InternalAction::CancelAll)
        } else {
            None
        }
    } else if w.len() == 2 {
        if w[0] == seq!['b', 'i', 'd'] {
            insert_action(Side::Bid, parse_u64_spec(w[1]), Some(default_qty))
        } else if w[0] == seq!['a', 's', 'k'] {
            insert_action(Side::Ask, parse_u64_spec(w[1]), Some(default_qty))
        } else if w[0] == seq!['v', 'o', 'l', 'u', 'm', 'e'] {
            match parse_u64_spec(w[1]) {
                Some(q) => Some(InternalAction::SetVolume(q)),
                None => None,
            }
        } else if w[0] == seq!['c', 'a', 'n', 'c', 'e', 'l'] {
            match parse_u64_spec(w[1]) {
                Some(p) => Some(InternalAction::CancelLevel { price: p }),
                None => None,
            }
        } else {
            None
        }
    } else if w.len() == 3 {
        if w[0] == seq!['b', 'i', 'd'] {
            insert_action(Side::Bid, parse_u64_spec(w[1]), parse_u64_spec(w[2]))
        } else if w[0] == seq!['a', 's', 'k'] {
            insert_action(Side::Ask, parse_u64_spec(w[1]), parse_u64_spec(w[2]))
        } else {
            None
        }
    } else {
        None
    }
}

fn read_insert(side: Side, price: &Vec<char>, qty: Option<&Vec<char>>, default_qty: Quantity) -> (r: Option<
    InternalAction,
>)
    ensures
        r == insert_action(
            side,
            parse_u64_spec(price@),
            match qty {
                Some(q) => parse_u64_spec(q@),
                None => Some(default_qty),
            },
        ),
{
    let p = match parse_u64(price) {
        Some(p) => p,
        None => {
            return None;
        },
    };
    let q = match qty {
        Some(q) => match parse_u64(q) {
            Some(q) => q,
            None => {
                return None;
            },
        },
        None => default_qty,
    };
    Some(InternalAction::InsertOrder { side, price: p, qty: q })
}

/// Reads a trader's command; `default_qty` is the quantity of an order typed
/// without one.
pub fn parse_internal_action(input: &str, default_qty: Quantity) -> (r: Option<InternalAction>)
    ensures
        r == internal_action_of(input@, default_qty),
{
    let parts = split_whitespace(input);
    let ghost w = words(input@);
    assert(parts@.len() == w.len());
    if parts.len() == 1 {
        let a = &parts[0];
        assert(a@ == w[0]);
        if chars_eq(a, &vec!['h', 'i', 't']) || chars_eq(a, &vec!['y', 'o', 'u', 'r', 's']) {
            Some(InternalAction::Hit)
        } else if chars_eq(a, &vec!['l', 'i', 'f', 't']) || chars_eq(a, &vec!['m', 'i', 'n', 'e']) {
            Some(InternalAction::Lift)
        } else if chars_eq(a, &vec!['c', 'a', 'n', 'c', 'e', 'l', '_', 'a', 'l', 'l']) {
            Some(InternalAction::CancelAll)
        } else {
            None
        }
    } else if parts.len() == 2 {
        let a = &parts[0];
        let b = &parts[1];
        assert(a@ == w[0] && b@ == w[1]);
        if chars_eq(a, &vec!['b', 'i', 'd']) {
            read_insert(Side::Bid, b, None, default_qty)
        } else if chars_eq(a, &vec!['a', 's', 'k']) {
            read_insert(Side::Ask, b, None, default_qty)
        } else if chars_eq(a, &vec!['v', 'o', 'l', 'u', 'm', 'e']) {
            match parse_u64(b) {
                Some(q) => Some(InternalAction::SetVolume(q)),
                None => None,
            }
        } else if chars_eq(a, &vec!['c', 'a', 'n', 'c', 'e', 'l']) {
            match parse_u64(b) {
                Some(p) => Some(InternalAction::CancelLevel { price: p }),
                None => None,
            }
        } else {
            None
        }
    } else if parts.len() == 3 {
        let a = &parts[0];
        let b = &parts[1];
        let c = &parts[2];
        assert(a@ == w[0] && b@ == w[1] && c@ == w[2]);
        if chars_eq(a, &vec!['b', 'i', 'd']) {
            read_insert(Side::Bid, b, Some(c), default_qty)
        } else if chars_eq(a, &vec!['a', 's', 'k']) {
            read_insert(Side::Ask, b, Some(c), default_qty)
        } else {
            None
        }
    } else {
        None
    }
}

} // verus!
