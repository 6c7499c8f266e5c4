//! The matching engine: an exchange takes messages one at a time, keeps its
//! book, matches crossing orders at once, and tells a broadcaster what
//! happened.
use vstd::prelude::*;

use crate::book::{
    BookView, OrderBook, empty_book, lemma_rests_after_insert, lemma_rests_after_remove, lemma_rests_behind_best,
    qty_of, rests_at, summary,
};
use crate::types::{Message, Order, OrderId, Price, Quantity, Side};

verus! {

/// Where an exchange reports inserts, cancels and trades.
pub trait Broadcaster: Sized {
    /// `after` is a state this broadcaster may be in once it has reported
    /// `out`. By default any state is allowed: an implementation that keeps
    /// the default gets no guarantee about its state from the contracts of
    /// `broadcast_insert`, `broadcast_cancel`, `broadcast_trade` or
    /// `Exchange::run`, and should define this relation to get one.
    open spec fn reported(self, out: ExchangeOutput, after: Self) -> bool {
        true
    }

    fn broadcast_insert(&mut self, order: &Order, message: &Message)
        ensures
            (*old(self)).reported(ExchangeOutput::Insert { order: *order, message: *message }, *final(self)),
    ;

    fn broadcast_cancel(&mut self, order: &Order, message: &Message)
        ensures
            (*old(self)).reported(ExchangeOutput::Cancel { order: *order, message: *message }, *final(self)),
    ;

    fn broadcast_trade(
        &mut self,
        ask_order: &Order,
        bid_order: &Order,
        trade_price: Price,
        trade_volume: Quantity,
    )
        ensures
            (*old(self)).reported(
                ExchangeOutput::Trade {
                    ask_order: *ask_order,
                    bid_order: *bid_order,
                    trade_price,
                    trade_volume,
                },
                *final(self),
            ),
    ;
}

/// `after` is a state broadcaster `b` may be in once it has reported
/// `outs`, one after another, in order.
pub open spec fn reported_all<B: Broadcaster>(b: B, outs: Seq<ExchangeOutput>, after: B) -> bool
    decreases outs.len(),
{
    if outs.len() == 0 {
        after == b
    } else {
        exists|mid: B| #[trigger] b.reported(outs[0], mid) && reported_all(mid, outs.drop_first(), after)
    }
}

/// Two runs of reports, one after the other, make one run.
pub proof fn lemma_reported_concat<B: Broadcaster>(
    b: B,
    s: Seq<ExchangeOutput>,
    mid: B,
    t: Seq<ExchangeOutput>,
    after: B,
)
    requires
        reported_all(b, s, mid),
        reported_all(mid, t, after),
    ensures
        reported_all(b, s + t, after),
    decreases s.len(),
{
    if s.len() == 0 {
        assert(s + t =~= t);
    } else {
        let m1 = choose|m1: B| #[trigger] b.reported(s[0], m1) && reported_all(m1, s.drop_first(), mid);
        lemma_reported_concat(m1, s.drop_first(), mid, t, after);
        assert((s + t).drop_first() =~= s.drop_first() + t);
        assert((s + t)[0] == s[0]);
    }
}

/// Reporting one more output after a run of reports extends the run.
pub proof fn lemma_reported_push<B: Broadcaster>(
    b: B,
    outs: Seq<ExchangeOutput>,
    mid: B,
    out: ExchangeOutput,
    after: B,
)
    requires
        reported_all(b, outs, mid),
        mid.reported(out, after),
    ensures
        reported_all(b, outs.push(out), after),
    decreases outs.len(),
{
    if outs.len() == 0 {
        assert(outs.push(out).drop_first() =~= Seq::<ExchangeOutput>::empty());
        assert(reported_all(after, Seq::<ExchangeOutput>::empty(), after));
        assert(outs.push(out)[0] == out);
    } else {
        let m1 = choose|m1: B| #[trigger] b.reported(outs[0], m1) && reported_all(m1, outs.drop_first(), mid);
        lemma_reported_push(m1, outs.drop_first(), mid, out, after);
        assert(outs.push(out).drop_first() =~= outs.drop_first().push(out));
        assert(outs.push(out)[0] == outs[0]);
    }
}

/// A broadcaster that reports nothing.
pub struct NoBroadcaster;

impl NoBroadcaster {
    pub fn new() -> NoBroadcaster {
        NoBroadcaster
    }
}

impl Default for NoBroadcaster {
    fn default() -> (b: NoBroadcaster)
        ensures
            b == NoBroadcaster,
    {
        NoBroadcaster
    }
}

impl Broadcaster for NoBroadcaster {
    /// Reporting leaves nothing behind.
    open spec fn reported(self, out: ExchangeOutput, after: Self) -> bool {
        true
    }

    fn broadcast_insert(&mut self, order: &Order, message: &Message) {
    }

    fn broadcast_cancel(&mut self, order: &Order, message: &Message) {
    }

    fn broadcast_trade(
        &mut self,
        ask_order: &Order,
        bid_order: &Order,
        trade_price: Price,
        trade_volume: Quantity,
    ) {
    }
}

/// One report of an exchange to its broadcaster.
#[derive(Debug, Clone, Copy, PartialEq, Eq, Structural)]
pub enum ExchangeOutput {
    Insert { order: Order, message: Message },
    Cancel { order: Order, message: Message },
    Trade { ask_order: Order, bid_order: Order, trade_price: Price, trade_volume: Quantity },
}

/// The trade between the best bid and the best ask of a crossed book: at the
/// price of the order that rested first (the smaller id), for the smaller of
/// the two quantities. The orders are reported as they were before the trade.
pub open spec fn next_trade(b: BookView) -> ExchangeOutput {
    let bid_id = b.best(Side::Bid)->0;
    let ask_id = b.best(Side::Ask)->0;
    let bid = b.orders[bid_id];
    let ask = b.orders[ask_id];
    ExchangeOutput::Trade {
        ask_order: ask,
        bid_order: bid,
        trade_price: if bid_id < ask_id {
            bid.price
        } else {
            ask.price
        },
        trade_volume: if bid.qty <= ask.qty {
            bid.qty
        } else {
            ask.qty
        },
    }
}

/// The book once `trade` (of the kind `next_trade` gives) is applied.
pub open spec fn apply_trade(b: BookView, trade: ExchangeOutput) -> BookView {
    match trade {
        ExchangeOutput::Trade { ask_order, bid_order, trade_volume, .. } => b.match_orders(
            bid_order.order_id,
            ask_order.order_id,
            trade_volume,
        ),
        _ => b,
    }
}

/// Matching to the end: while the book is crossed, trade the best bid
/// against the best ask. Gives the final book and the trades, in order.
pub open spec fn settle(b: BookView) -> (BookView, Seq<ExchangeOutput>)
    decreases b.orders.len(),
{
    if b.wf() && b.in_cross() {
        let t = next_trade(b);
        let b2 = apply_trade(b, t);
        if b2.orders.len() < b.orders.len() {
            let (b3, ts) = settle(b2);
            (b3, seq![t] + ts)
        } else {
            (b, seq![])
        }
    } else {
        (b, seq![])
    }
}

/// The order that an insert message creates, with id `order_id`.
pub open spec fn order_of(message: Message, order_id: OrderId) -> Order {
    match message {
        Message::InsertOrder { account_id, side, price, qty, .. } => Order {
            account_id,
            side,
            price,
            qty,
            order_id,
        },
        _ => Order { account_id: 0, side: Side::Bid, price: 0, qty: 0, order_id },
    }
}

/// The state of an exchange as the specifications see it: its book and the
/// id its next order gets.
pub struct ExchangeView {
    pub book: BookView,
    pub next_order_id: OrderId,
}

impl ExchangeView {
    /// Every order in the book has an id below the next one.
    pub open spec fn inv(self) -> bool {
        &&& self.book.wf()
        &&& forall|id: OrderId| #[trigger]
            self.book.orders.contains_key(id) ==> id < self.next_order_id
    }

    /// The message can be handled without running out of order ids or
    /// overflowing the volume of a price level.
    pub open spec fn accepts(self, message: Message) -> bool {
        match message {
            Message::InsertOrder { .. } => {
                &&& self.next_order_id < u64::MAX
                &&& self.book.can_insert(order_of(message, self.next_order_id))
            },
            _ => true,
        }
    }

    /// The effect of one message: the state after it and the reports it
    /// gives. A cancel from the order's own account removes it; an insert
    /// adds the new order and settles the book; `End` changes nothing.
    pub open spec fn step(self, message: Message) -> (ExchangeView, Seq<ExchangeOutput>) {
        match message {
            Message::End => (self, seq![]),
            Message::CancelOrder { order_id, account_id } => {
                if self.book.orders.contains_key(order_id) && self.book.orders[order_id].account_id
                    == account_id {
                    let o = self.book.orders[order_id];
                    (
                        ExchangeView {
                            book: self.book.remove(order_id, o.price, o.side),
                            next_order_id: self.next_order_id,
                        },
                        seq![ExchangeOutput::Cancel { order: o, message }],
                    )
                } else {
                    (self, seq![])
                }
            },
            Message::InsertOrder { .. } => {
                let o = order_of(message, self.next_order_id);
                let (b2, trades) = settle(self.book.insert(o));
                (
                    ExchangeView { book: b2, next_order_id: (self.next_order_id + 1) as u64 },
                    seq![ExchangeOutput::Insert { order: o, message }] + trades,
                )
            },
        }
    }

    /// The state after the messages up to the first `End`.
    pub open spec fn run(self, messages: Seq<Message>) -> ExchangeView
        decreases messages.len(),
    {
        if messages.len() == 0 || messages[0] is End {
            self
        } else {
            self.step(messages[0]).0.run(messages.drop_first())
        }
    }

    /// The reports of the messages up to the first `End`, in order.
    pub open spec fn run_outputs(self, messages: Seq<Message>) -> Seq<ExchangeOutput>
        decreases messages.len(),
    {
        if messages.len() == 0 || messages[0] is End {
            seq![]
        } else {
            self.step(messages[0]).1 + self.step(messages[0]).0.run_outputs(messages.drop_first())
        }
    }

    /// Every message up to the first `End` is accepted in the state it meets.
    pub open spec fn runs_ok(self, messages: Seq<Message>) -> bool
        decreases messages.len(),
    {
        if messages.len() == 0 || messages[0] is End {
            true
        } else {
            self.accepts(messages[0]) && self.step(messages[0]).0.runs_ok(messages.drop_first())
        }
    }
}

/// Some message of `messages` is `End`.
pub open spec fn has_end(messages: Seq<Message>) -> bool {
    exists|i: int| 0 <= i < messages.len() && messages[i] is End
}

// ---------------------------------------------------------------------------
// Lemmas
// ---------------------------------------------------------------------------
/// In a crossed well-formed book the best bid and ask are known orders of
/// their sides, and the trade between them is possible and shrinks the book.
pub proof fn lemma_trade_step(b: BookView)
    requires
        b.wf(),
        b.in_cross(),
    ensures
        b.best(Side::Bid) is Some,
        b.best(Side::Ask) is Some,
        b.orders.contains_key(b.best(Side::Bid)->0),
        b.orders.contains_key(b.best(Side::Ask)->0),
        b.orders[b.best(Side::Bid)->0].side == Side::Bid,
        b.orders[b.best(Side::Ask)->0].side == Side::Ask,
        b.orders[b.best(Side::Bid)->0].price == b.bids.last().price,
        b.orders[b.best(Side::Ask)->0].price == b.asks.last().price,
        b.best(Side::Bid)->0 != b.best(Side::Ask)->0,
        ({
            let t = next_trade(b);
            &&& b.match_ok(t->bid_order.order_id, t->ask_order.order_id, t->trade_volume)
            &&& t->bid_order.order_id == b.best(Side::Bid)->0
            &&& t->ask_order.order_id == b.best(Side::Ask)->0
            &&& apply_trade(b, t).wf()
            &&& apply_trade(b, t).orders.len() < b.orders.len()
            &&& apply_trade(b, t).orders.dom().subset_of(b.orders.dom())
        }),
{
    let nb = b.bids.len() - 1;
    let na = b.asks.len() - 1;
    assert(b.bids[nb].orders.len() > 0);
    assert(b.asks[na].orders.len() > 0);
    let bid_id = b.bids[nb].orders[0];
    let ask_id = b.asks[na].orders[0];
    assert(b.orders.contains_key(bid_id));
    assert(b.orders.contains_key(ask_id));
    let bid = b.orders[bid_id];
    let ask = b.orders[ask_id];
    assert(bid.order_id == bid_id && ask.order_id == ask_id);
    let vol: u64 = if bid.qty <= ask.qty {
        bid.qty
    } else {
        ask.qty
    };
    crate::book::lemma_match_wf(b, bid_id, ask_id, vol);
    let m = b.orders;
    let after_bid = if bid.qty == vol {
        b.remove(bid_id, bid.price, Side::Bid)
    } else {
        b.reduce(bid_id, vol)
    };
    if bid.qty == vol {
        crate::book::lemma_remove_wf(b, bid_id, bid.price, Side::Bid, bid.qty);
        assert(after_bid.orders.dom() =~= m.dom().remove(bid_id));
    } else {
        crate::book::lemma_reduce_wf(b, bid_id, vol);
        assert(after_bid.orders.dom() =~= m.dom());
    }
    assert(after_bid.orders.contains_key(ask_id) && after_bid.orders[ask_id] == ask);
    let fin = b.match_orders(bid_id, ask_id, vol);
    if ask.qty == vol {
        crate::book::lemma_remove_wf(after_bid, ask_id, ask.price, Side::Ask, ask.qty);
        assert(fin.orders.dom() =~= after_bid.orders.dom().remove(ask_id));
    } else {
        crate::book::lemma_reduce_wf(after_bid, ask_id, vol);
        assert(fin.orders.dom() =~= after_bid.orders.dom());
    }
}

/// Unfolds one round of `settle` on a crossed well-formed book.
pub proof fn lemma_settle_unfold(b: BookView)
    requires
        b.wf(),
        b.in_cross(),
    ensures
        settle(b) == ({
            let t = next_trade(b);
            let (b3, ts) = settle(apply_trade(b, t));
            (b3, seq![t] + ts)
        }),
{
    lemma_trade_step(b);
}

// ---------------------------------------------------------------------------
// Laws of the exchange
// ---------------------------------------------------------------------------
/// A trade between a bid and an ask, at a price both accept: the limit of
/// the order that rested first, for the smaller of the two quantities.
pub open spec fn fair_trade(t: ExchangeOutput) -> bool {
    match t {
        ExchangeOutput::Trade { ask_order, bid_order, trade_price, trade_volume } => {
            &&& bid_order.side == Side::Bid
            &&& ask_order.side == Side::Ask
            &&& ask_order.price <= trade_price <= bid_order.price
            &&& trade_price == if bid_order.order_id < ask_order.order_id {
                bid_order.price
            } else {
                ask_order.price
            }
            &&& trade_volume <= bid_order.qty
            &&& trade_volume <= ask_order.qty
            &&& (trade_volume == bid_order.qty || trade_volume == ask_order.qty)
        },
        _ => false,
    }
}

/// Matching leaves a well-formed book that is not crossed, only takes orders
/// out, and makes only fair trades.
pub proof fn law_settle(b: BookView)
    requires
        b.wf(),
    ensures
        settle(b).0.wf(),
        !settle(b).0.in_cross(),
        settle(b).0.orders.dom().subset_of(b.orders.dom()),
        forall|i: int| 0 <= i < settle(b).1.len() ==> fair_trade(#[trigger] settle(b).1[i]),
    decreases b.orders.len(),
{
    if b.in_cross() {
        lemma_trade_step(b);
        let t = next_trade(b);
        let b2 = apply_trade(b, t);
        law_settle(b2);
        let (b3, ts) = settle(b2);
        assert(fair_trade(t));
        assert forall|i: int| 0 <= i < settle(b).1.len() implies fair_trade(#[trigger] settle(b).1[i]) by {
            if i > 0 {
                assert(settle(b).1[i] == ts[i - 1]);
            }
        }
    }
}

/// Handling an accepted message keeps the invariant of an exchange.
pub proof fn lemma_step_inv(v: ExchangeView, m: Message)
    requires
        v.inv(),
        v.accepts(m),
    ensures
        v.step(m).0.inv(),
{
    match m {
        Message::End => {},
        Message::CancelOrder { order_id, account_id } => {
            if v.book.orders.contains_key(order_id) && v.book.orders[order_id].account_id == account_id {
                let o = v.book.orders[order_id];
                crate::book::lemma_remove_wf(v.book, order_id, o.price, o.side, o.qty);
                let v2 = v.step(m).0;
                assert forall|id: OrderId| #[trigger] v2.book.orders.contains_key(id) implies id < v2.next_order_id by {
                    assert(v.book.orders.contains_key(id));
                }
            }
        },
        Message::InsertOrder { .. } => {
            let o = order_of(m, v.next_order_id);
            assert(!v.book.orders.contains_key(o.order_id));
            crate::book::lemma_insert_wf(v.book, o);
            law_settle(v.book.insert(o));
            let v2 = v.step(m).0;
            assert forall|id: OrderId| #[trigger] v2.book.orders.contains_key(id) implies id < v2.next_order_id by {
                assert(v.book.insert(o).orders.contains_key(id));
            }
        },
    }
}

/// Handling an accepted message keeps the invariant of an exchange and never
/// leaves its book crossed; the trades it reports are fair.
pub proof fn law_step(v: ExchangeView, m: Message)
    requires
        v.inv(),
        v.accepts(m),
        !v.book.in_cross(),
    ensures
        v.step(m).0.inv(),
        !v.step(m).0.book.in_cross(),
        forall|i: int|
            0 <= i < v.step(m).1.len() && (#[trigger] v.step(m).1[i]) is Trade ==> fair_trade(
                v.step(m).1[i],
            ),
{
    lemma_step_inv(v, m);
    match m {
        Message::End => {},
        Message::CancelOrder { order_id, account_id } => {
            if v.book.orders.contains_key(order_id) && v.book.orders[order_id].account_id == account_id {
                let o = v.book.orders[order_id];
                crate::book::law_remove_keeps_uncrossed(v.book, order_id, o.price, o.side, o.qty);
            }
        },
        Message::InsertOrder { .. } => {
            let o = order_of(m, v.next_order_id);
            assert(!v.book.orders.contains_key(o.order_id));
            crate::book::lemma_insert_wf(v.book, o);
            law_settle(v.book.insert(o));
            let (b2, trades) = settle(v.book.insert(o));
            let outs = v.step(m).1;
            assert forall|i: int| 0 <= i < outs.len() && (#[trigger] outs[i]) is Trade implies fair_trade(outs[i]) by {
                assert(outs[i] == trades[i - 1]);
            }
        },
    }
}

/// From a state whose book is not crossed, a run of accepted messages keeps
/// the invariant and leaves the book not crossed.
pub proof fn law_run(v: ExchangeView, messages: Seq<Message>)
    requires
        v.inv(),
        v.runs_ok(messages),
        !v.book.in_cross(),
    ensures
        v.run(messages).inv(),
        !v.run(messages).book.in_cross(),
    decreases messages.len(),
{
    if messages.len() > 0 && !(messages[0] is End) {
        law_step(v, messages[0]);
        law_run(v.step(messages[0]).0, messages.drop_first());
    }
}

/// From a state whose book is not crossed, every trade a run of accepted
/// messages reports is fair.
pub proof fn law_run_reports_fair(v: ExchangeView, messages: Seq<Message>)
    requires
        v.inv(),
        v.runs_ok(messages),
        !v.book.in_cross(),
    ensures
        forall|i: int|
            0 <= i < v.run_outputs(messages).len() && (#[trigger] v.run_outputs(messages)[i]) is Trade
                ==> fair_trade(v.run_outputs(messages)[i]),
    decreases messages.len(),
{
    if messages.len() > 0 && !(messages[0] is End) {
        let m = messages[0];
        law_step(v, m);
        let (v2, outs) = v.step(m);
        law_run_reports_fair(v2, messages.drop_first());
        let rest = v2.run_outputs(messages.drop_first());
        assert forall|i: int|
            0 <= i < v.run_outputs(messages).len() && (#[trigger] v.run_outputs(messages)[i]) is Trade
                implies fair_trade(v.run_outputs(messages)[i]) by {
            if i < outs.len() {
                assert(v.run_outputs(messages)[i] == outs[i]);
            } else {
                assert(v.run_outputs(messages)[i] == rest[i - outs.len()]);
            }
        }
    }
}

/// An exchange takes every insert it has room for: an insert is accepted
/// exactly when an order id is left and the level of its price on its own
/// side can take its quantity without overflow. Nothing on the other side
/// matters, so an order that crosses the book is accepted (and then traded).
pub proof fn law_accepts_insert(v: ExchangeView, m: Message)
    requires
        v.inv(),
        m is InsertOrder,
    ensures
        v.accepts(m) == ({
            let side = m->InsertOrder_side;
            let price = m->InsertOrder_price;
            let qty = m->InsertOrder_qty;
            &&& v.next_order_id < u64::MAX
            &&& forall|k: int|
                0 <= k < v.book.levels(side).len() && #[trigger] v.book.levels(side)[k].price == price
                    ==> crate::book::volume(v.book.levels(side)[k].orders, v.book.orders) + qty <= u64::MAX
        }),
{
    let o = order_of(m, v.next_order_id);
    assert(!v.book.orders.contains_key(o.order_id));
}

/// Leaving order `id` aside, no resting bid crosses a resting ask: every bid
/// is priced below every ask.
pub open spec fn only_crossed_by(b: BookView, id: OrderId) -> bool {
    forall|p: Price, x: OrderId, q: Price, y: OrderId|
        #[trigger] rests_at(b.bids, p, x) && #[trigger] rests_at(b.asks, q, y) && x != id && y != id ==> p < q
}

/// A trade set off by order `o`: between `o` and an older order of the other
/// side, at the older order's price.
pub open spec fn aggressed_by(t: ExchangeOutput, o: Order) -> bool {
    match t {
        ExchangeOutput::Trade { ask_order, bid_order, trade_price, .. } => match o.side {
            Side::Bid => {
                &&& bid_order.order_id == o.order_id
                &&& ask_order.order_id < o.order_id
                &&& trade_price == ask_order.price
            },
            Side::Ask => {
                &&& ask_order.order_id == o.order_id
                &&& bid_order.order_id < o.order_id
                &&& trade_price == bid_order.price
            },
        },
        _ => false,
    }
}

/// The total volume of the trades among `outs`.
pub open spec fn traded_volume(outs: Seq<ExchangeOutput>) -> nat
    decreases outs.len(),
{
    if outs.len() == 0 {
        0
    } else {
        (match outs[0] {
            ExchangeOutput::Trade { trade_volume, .. } => trade_volume as nat,
            _ => 0,
        }) + traded_volume(outs.drop_first())
    }
}

/// A trade only takes orders out of the levels, never moves them.
proof fn lemma_match_rests(b: BookView, bid_id: OrderId, ask_id: OrderId, vol: Quantity)
    ensures
        forall|p: Price, x: OrderId|
            #[trigger] rests_at(b.match_orders(bid_id, ask_id, vol).bids, p, x) ==> rests_at(b.bids, p, x),
        forall|p: Price, x: OrderId|
            #[trigger] rests_at(b.match_orders(bid_id, ask_id, vol).asks, p, x) ==> rests_at(b.asks, p, x),
{
    if b.orders.contains_key(bid_id) && b.orders.contains_key(ask_id) {
        let bid = b.orders[bid_id];
        let ask = b.orders[ask_id];
        let b1 = if bid.qty == vol {
            b.remove(bid_id, bid.price, Side::Bid)
        } else {
            b.reduce(bid_id, vol)
        };
        assert(b1.asks == b.asks);
        assert forall|p: Price, x: OrderId| #[trigger] rests_at(b1.bids, p, x) implies rests_at(b.bids, p, x) by {
            if bid.qty == vol {
                lemma_rests_after_remove(b.bids, bid_id, bid.price, Side::Bid, b.orders.remove(bid_id), p, x);
            }
        }
        let b2 = b.match_orders(bid_id, ask_id, vol);
        assert(b2.bids == b1.bids);
        assert forall|p: Price, x: OrderId| #[trigger] rests_at(b2.asks, p, x) implies rests_at(b.asks, p, x) by {
            if ask.qty == vol {
                lemma_rests_after_remove(b1.asks, ask_id, ask.price, Side::Ask, b1.orders.remove(ask_id), p, x);
            }
        }
    }
}

/// While the book is crossed only through order `o`, each trade of matching
/// is set off by `o`, and what `o` trades is what it loses.
proof fn lemma_settle_aggressor(b: BookView, o: Order)
    requires
        b.wf(),
        only_crossed_by(b, o.order_id),
        forall|x: OrderId| #[trigger] b.orders.contains_key(x) && x != o.order_id ==> x < o.order_id,
        b.orders.contains_key(o.order_id) ==> b.orders[o.order_id].side == o.side,
    ensures
        forall|i: int| 0 <= i < settle(b).1.len() ==> aggressed_by(#[trigger] settle(b).1[i], o),
        traded_volume(settle(b).1) + qty_of(settle(b).0.orders, o.order_id) == qty_of(b.orders, o.order_id),
    decreases b.orders.len(),
{
    if b.in_cross() {
        lemma_trade_step(b);
        let bid_id = b.best(Side::Bid)->0;
        let ask_id = b.best(Side::Ask)->0;
        let lb = b.bids.last();
        let la = b.asks.last();
        assert(lb == b.bids[b.bids.len() - 1]);
        assert(la == b.asks[b.asks.len() - 1]);
        assert(lb.orders.contains(bid_id));
        assert(la.orders.contains(ask_id));
        assert(rests_at(b.bids, lb.price, bid_id));
        assert(rests_at(b.asks, la.price, ask_id));
        assert(bid_id == o.order_id || ask_id == o.order_id);
        let bid = b.orders[bid_id];
        let ask = b.orders[ask_id];
        let t = next_trade(b);
        let vol = t->trade_volume;
        match o.side {
            Side::Bid => {
                assert(bid_id == o.order_id);
                assert(ask_id < o.order_id);
            },
            Side::Ask => {
                assert(ask_id == o.order_id);
                assert(bid_id < o.order_id);
            },
        }
        assert(aggressed_by(t, o));
        let b2 = apply_trade(b, t);
        lemma_match_rests(b, bid_id, ask_id, vol);
        assert forall|p: Price, x: OrderId, q: Price, y: OrderId|
            #[trigger] rests_at(b2.bids, p, x) && #[trigger] rests_at(b2.asks, q, y) && x != o.order_id && y
                != o.order_id implies p < q by {
            assert(rests_at(b.bids, p, x));
            assert(rests_at(b.asks, q, y));
        }
        // what the trade leaves of each order
        let after_bid = if bid.qty == vol {
            b.remove(bid_id, bid.price, Side::Bid)
        } else {
            b.reduce(bid_id, vol)
        };
        assert(after_bid.orders.contains_key(ask_id) && after_bid.orders[ask_id] == ask);
        if bid.qty == vol {
            assert(after_bid.orders == b.orders.remove(bid_id));
        }
        assert(qty_of(b2.orders, o.order_id) + vol == qty_of(b.orders, o.order_id));
        assert forall|x: OrderId| #[trigger] b2.orders.contains_key(x) && x != o.order_id implies x < o.order_id by {
            assert(b.orders.contains_key(x));
        }
        assert(b2.orders.contains_key(o.order_id) ==> b2.orders[o.order_id].side == o.side);
        lemma_settle_aggressor(b2, o);
        let (b3, ts) = settle(b2);
        assert(settle(b).1 == seq![t] + ts);
        assert((seq![t] + ts).drop_first() =~= ts);
        assert forall|i: int| 0 <= i < settle(b).1.len() implies aggressed_by(#[trigger] settle(b).1[i], o) by {
            if i > 0 {
                assert(settle(b).1[i] == ts[i - 1]);
            }
        }
    }
}

/// On a book that is not crossed, an inserted order is the aggressor: each
/// trade it sets off is between it and an older order of the other side, at
/// the older order's price; and what it trades plus what rests of it is its
/// quantity.
pub proof fn law_insert_aggressor(v: ExchangeView, m: Message)
    requires
        v.inv(),
        v.accepts(m),
        !v.book.in_cross(),
        m is InsertOrder,
    ensures
        ({
            let o = order_of(m, v.next_order_id);
            let outs = v.step(m).1;
            &&& outs.len() >= 1
            &&& outs[0] == (ExchangeOutput::Insert { order: o, message: m })
            &&& forall|i: int| 1 <= i < outs.len() ==> aggressed_by(#[trigger] outs[i], o)
            &&& traded_volume(outs) + qty_of(v.step(m).0.book.orders, o.order_id) == o.qty
        }),
{
    let o = order_of(m, v.next_order_id);
    let b = v.book;
    assert(!b.orders.contains_key(o.order_id));
    crate::book::lemma_insert_wf(b, o);
    let b1 = b.insert(o);
    crate::book::lemma_with_side(b, o.side, crate::book::insert_into_levels(b.levels(o.side), o), b.orders.insert(o.order_id, o));
    assert forall|p: Price, x: OrderId, q: Price, y: OrderId|
        #[trigger] rests_at(b1.bids, p, x) && #[trigger] rests_at(b1.asks, q, y) && x != o.order_id && y
            != o.order_id implies p < q by {
        match o.side {
            Side::Bid => {
                lemma_rests_after_insert(b.bids, o, p, x);
                assert(rests_at(b.asks, q, y));
            },
            Side::Ask => {
                lemma_rests_after_insert(b.asks, o, q, y);
                assert(rests_at(b.bids, p, x));
            },
        }
        lemma_rests_behind_best(b.bids, Side::Bid, p, x);
        lemma_rests_behind_best(b.asks, Side::Ask, q, y);
    }
    assert forall|x: OrderId| #[trigger] b1.orders.contains_key(x) && x != o.order_id implies x < o.order_id by {
        assert(b.orders.contains_key(x));
    }
    lemma_settle_aggressor(b1, o);
    let (b2, trades) = settle(b1);
    let outs = v.step(m).1;
    assert(outs == seq![ExchangeOutput::Insert { order: o, message: m }] + trades);
    assert(outs.drop_first() =~= trades);
    assert forall|i: int| 1 <= i < outs.len() implies aggressed_by(#[trigger] outs[i], o) by {
        assert(outs[i] == trades[i - 1]);
    }
}

// ---------------------------------------------------------------------------
// The exchange
// ---------------------------------------------------------------------------
/// An exchange: a book, the broadcaster it reports to, and the id of its
/// next order. Each exchange numbers its orders from 0 with a counter of its
/// own; there is no count shared between the exchanges of one process.
pub struct Exchange<B> {
    order_book: OrderBook,
    pub broadcaster: B,
    next_order_id: OrderId,
}

impl<B: Broadcaster> Exchange<B> {
    pub closed spec fn view(&self) -> ExchangeView {
        ExchangeView { book: self.order_book@, next_order_id: self.next_order_id }
    }

    /// The broadcaster's state.
    pub closed spec fn reporter(&self) -> B {
        self.broadcaster
    }

    /// The invariant of an exchange.
    pub closed spec fn inv(&self) -> bool {
        &&& self.order_book.wf()
        &&& self.view().inv()
    }

    /// An exchange that keeps its invariant has a model that keeps it too.
    pub proof fn lemma_inv(&self)
        requires
            self.inv(),
        ensures
            self.view().inv(),
    {
    }

    /// A new exchange with an empty book, reporting to `broadcaster`.
    pub fn new(broadcaster: B) -> (e: Self)
        ensures
            e.inv(),
            e.view().book == empty_book(),
            e.view().next_order_id == 0,
    {
        Exchange { order_book: OrderBook::new(), broadcaster, next_order_id: 0 }
    }

    /// The book of the exchange.
    pub fn order_book(&self) -> (b: &OrderBook)
        ensures
            b@ == self.view().book,
            self.inv() ==> b.wf(),
    {
        &self.order_book
    }

    /// The (price, volume) of each level of the book, bids then asks.
    pub fn summarise_book(&self) -> (r: (Vec<(u64, u64)>, Vec<(u64, u64)>))
        requires
            self.inv(),
        ensures
            r.0@ == summary(self.view().book.bids, self.view().book.orders),
            r.1@ == summary(self.view().book.asks, self.view().book.orders),
    {
        self.order_book.summarise()
    }

    /// Whether `message` can be handled: it is not an insert that would run
    /// out of order ids or overflow the volume of a price level.
    pub fn accepts(&self, message: &Message) -> (r: bool)
        requires
            self.inv(),
        ensures
            r == self.view().accepts(*message),
    {
        match message {
            Message::InsertOrder { account_id, side, price, qty, .. } => {
                if self.next_order_id == u64::MAX {
                    return false;
                }
                proof {
                    assert(!self.view().book.orders.contains_key(self.next_order_id));
                }
                self.order_book.level_has_room(*side, *price, *qty)
            },
            _ => true,
        }
    }

    /// Trades the best bid against the best ask while the book is crossed,
    /// appending the trades to `out`.
    fn settle_book(&mut self, out: &mut Vec<ExchangeOutput>)
        requires
            old(self).inv(),
        ensures
            final(self).inv(),
            final(self).view().next_order_id == old(self).view().next_order_id,
            final(self).broadcaster == old(self).broadcaster,
            (final(self).view().book, final(out)@) == ({
                let (b, ts) = settle(old(self).view().book);
                (b, old(out)@ + ts)
            }),
    {
        let ghost b0 = self.order_book@;
        let ghost out0 = out@;
        while self.order_book.is_in_cross()
            invariant
                self.inv(),
                self.next_order_id == old(self).next_order_id,
                self.broadcaster == old(self).broadcaster,
                ({
                    let (b, ts) = settle(self.order_book@);
                    settle(b0) == (b, out@.subrange(out0.len() as int, out@.len() as int) + ts)
                }),
                out0.len() <= out@.len(),
                out@.subrange(0, out0.len() as int) == out0,
            decreases self.order_book@.orders.len(),
        {
            let ghost cur = self.order_book@;
            proof {
                lemma_trade_step(cur);
                lemma_settle_unfold(cur);
            }
            let best_bid_id: OrderId = self.order_book.best_order(Side::Bid).expect("Orderbook is in cross");
            let best_ask_id: OrderId = self.order_book.best_order(Side::Ask).expect("Orderbook is in cross");
            let best_bid: Order = *self.order_book.get_order(best_bid_id).expect("Orderbook is in cross");
            let best_ask: Order = *self.order_book.get_order(best_ask_id).expect("Orderbook is in cross");
            // the price is the limit of the passive order, the one that came first
            let trade_price = if best_bid_id < best_ask_id {
                best_bid.price
            } else {
                best_ask.price
            };
            let trade_volume = if best_bid.qty <= best_ask.qty {
                best_bid.qty
            } else {
                best_ask.qty
            };
            let ghost before = out@;
            out.push(
                ExchangeOutput::Trade {
                    ask_order: best_ask,
                    bid_order: best_bid,
                    trade_price,
                    trade_volume,
                },
            );
            self.order_book.match_order(best_bid_id, best_ask_id, trade_volume);
            proof {
                let t = next_trade(cur);
                assert(t == out@.last());
                assert(self.order_book@ == apply_trade(cur, t));
                assert(out@.subrange(out0.len() as int, out@.len() as int) =~= before.subrange(
                    out0.len() as int,
                    before.len() as int,
                ).push(t));
                let (bb, ts) = settle(self.order_book@);
                assert(before.subrange(out0.len() as int, before.len() as int) + (seq![t] + ts)
                    =~= before.subrange(out0.len() as int, before.len() as int).push(t) + ts);
                assert(out@.subrange(0, out0.len() as int) =~= before.subrange(0, out0.len() as int));
            }
        }
        proof {
            assert(out@ =~= out0 + out@.subrange(out0.len() as int, out@.len() as int));
            assert(settle(self.order_book@) == (self.order_book@, Seq::<ExchangeOutput>::empty()));
            assert(out@.subrange(out0.len() as int, out@.len() as int) + Seq::<ExchangeOutput>::empty()
                =~= out@.subrange(out0.len() as int, out@.len() as int));
        }
    }

    /// Handles one message and gives the reports it makes, as `step` says.
    pub fn process_message(&mut self, message: Message) -> (out: Vec<ExchangeOutput>)
        requires
            old(self).inv(),
            old(self).view().accepts(message),
        ensures
            final(self).inv(),
            (final(self).view(), out@) == old(self).view().step(message),
            final(self).reporter() == old(self).reporter(),
    {
        let mut out: Vec<ExchangeOutput> = Vec::new();
        match message {
            Message::End => {},
            Message::CancelOrder { account_id, order_id } => {
                if let Some(order) = self.order_book.get_order(order_id) {
                    if order.account_id() == account_id {
                        let order: Order = *order;
                        out.push(ExchangeOutput::Cancel { order, message });
                        self.order_book.remove_order(order_id, order.price, order.side, order.qty);
                        proof {
                            crate::book::lemma_remove_wf(
                                old(self).view().book,
                                order_id,
                                order.price,
                                order.side,
                                order.qty,
                            );
                            assert(out@ =~= seq![ExchangeOutput::Cancel { order, message }]);
                        }
                    }
                }
            },
            Message::InsertOrder { account_id, price, qty, side, .. } => {
                let ghost v0 = self.view();
                let order = Order::new_order(account_id, price, qty, side, &mut self.next_order_id);
                out.push(ExchangeOutput::Insert { order, message });
                proof {
                    assert(order == order_of(message, v0.next_order_id));
                    assert(!v0.book.orders.contains_key(order.order_id));
                    crate::book::lemma_insert_wf(v0.book, order);
                }
                self.order_book.insert_order(order);
                proof {
                    assert forall|id: OrderId| #[trigger]
                        self.order_book@.orders.contains_key(id) implies id < self.next_order_id by {
                        if id != order.order_id {
                            assert(v0.book.orders.contains_key(id));
                        }
                    }
                    assert(out@ =~= seq![ExchangeOutput::Insert { order, message }]);
                }
                self.settle_book(&mut out);
                proof {
                    lemma_settle_keeps_ids(v0.book.insert(order));
                    assert forall|id: OrderId| #[trigger]
                        self.order_book@.orders.contains_key(id) implies id < self.next_order_id by {
                        assert(v0.book.insert(order).orders.contains_key(id));
                    }
                }
            },
        }
        out
    }

    /// Reports `outputs` to the broadcaster, in order.
    fn dispatch(&mut self, outputs: &Vec<ExchangeOutput>)
        ensures
            final(self).view() == old(self).view(),
            final(self).inv() == old(self).inv(),
            reported_all(old(self).broadcaster, outputs@, final(self).broadcaster),
    {
        let n = outputs.len();
        assert(outputs@.take(0) =~= Seq::<ExchangeOutput>::empty());
        for i in 0..n
            invariant
                n == outputs@.len(),
                self.view() == old(self).view(),
                self.inv() == old(self).inv(),
                reported_all(old(self).broadcaster, outputs@.take(i as int), self.broadcaster),
        {
            let ghost before = self.broadcaster;
            assert(outputs@.take(i + 1) =~= outputs@.take(i as int).push(outputs@[i as int]));
            match &outputs[i] {
                ExchangeOutput::Insert { order, message } => {
                    self.broadcaster.broadcast_insert(order, message);
                },
                ExchangeOutput::Cancel { order, message } => {
                    self.broadcaster.broadcast_cancel(order, message);
                },
                ExchangeOutput::Trade { ask_order, bid_order, trade_price, trade_volume } => {
                    self.broadcaster.broadcast_trade(ask_order, bid_order, *trade_price, *trade_volume);
                },
            }
            proof {
                lemma_reported_push(
                    old(self).broadcaster,
                    outputs@.take(i as int),
                    before,
                    outputs@[i as int],
                    self.broadcaster,
                );
            }
        }
        assert(outputs@.take(n as int) =~= outputs@);
    }

    /// Handles `messages` in order, reporting each to the broadcaster, and
    /// stops at the first `End`. Returns whether an `End` was met.
    pub fn run(&mut self, messages: Vec<Message>) -> (ended: bool)
        requires
            old(self).inv(),
            old(self).view().runs_ok(messages@),
        ensures
            final(self).inv(),
            final(self).view() == old(self).view().run(messages@),
            reported_all(old(self).reporter(), old(self).view().run_outputs(messages@), final(self).reporter()),
            ended == has_end(messages@),
    {
        let n = messages.len();
        let mut i: usize = 0;
        let ghost mut done: Seq<ExchangeOutput> = Seq::empty();
        assert(messages@.skip(0) =~= messages@);
        assert(done + old(self).view().run_outputs(messages@) =~= old(self).view().run_outputs(messages@));
        while i < n
            invariant
                n == messages@.len(),
                0 <= i <= n,
                self.inv(),
                self.view().runs_ok(messages@.skip(i as int)),
                self.view().run(messages@.skip(i as int)) == old(self).view().run(messages@),
                done + self.view().run_outputs(messages@.skip(i as int)) == old(self).view().run_outputs(messages@),
                reported_all(old(self).broadcaster, done, self.broadcaster),
                forall|j: int| 0 <= j < i ==> !(#[trigger] messages@[j] is End),
            decreases n - i,
        {
            let message = messages[i];
            let ghost rest = messages@.skip(i as int);
            assert(rest[0] == message);
            assert(rest.drop_first() =~= messages@.skip(i + 1));
            if let Message::End = message {
                assert(has_end(messages@));
                assert(done =~= done + self.view().run_outputs(rest));
                return true;
            }
            let ghost v0 = self.view();
            let ghost b0 = self.broadcaster;
            let outputs = self.process_message(message);
            let ghost b1 = self.broadcaster;
            self.dispatch(&outputs);
            proof {
                lemma_reported_concat(old(self).broadcaster, done, b1, outputs@, self.broadcaster);
                assert(v0.run_outputs(rest) == outputs@ + self.view().run_outputs(messages@.skip(i + 1)));
                assert(done + outputs@ + self.view().run_outputs(messages@.skip(i + 1)) =~= done + v0.run_outputs(rest));
                done = done + outputs@;
            }
            i += 1;
        }
        assert(!has_end(messages@));
        assert(messages@.skip(n as int) =~= Seq::<Message>::empty());
        assert(done + self.view().run_outputs(messages@.skip(n as int)) =~= done);
        false
    }
}

/// Settling only takes orders out.
pub proof fn lemma_settle_keeps_ids(b: BookView)
    ensures
        settle(b).0.orders.dom().subset_of(b.orders.dom()),
    decreases b.orders.len(),
{
    if b.wf() && b.in_cross() {
        lemma_trade_step(b);
        lemma_settle_keeps_ids(apply_trade(b, next_trade(b)));
    }
}

} // verus!
