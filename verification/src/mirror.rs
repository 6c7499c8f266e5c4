//! A client that applies the public events of an exchange keeps a faithful
//! copy of the exchange's book: the same levels and the same orders, except
//! that the owners of the orders are not known to it.
use vstd::prelude::*;

use crate::book::{
    BookView, LevelView, insert_into_levels, lemma_insert_wf, lemma_match_keeps_ids, lemma_volume_frame,
    level_holds, levels_wf, qty_of, remove_from_levels, volume,
};
use crate::client::ClientBookView;
use crate::exchange::{ExchangeOutput, ExchangeView, apply_trade, lemma_trade_step, next_trade, order_of, settle};
use crate::protocol::ExchangeEvent;
use crate::types::{Message, Order, OrderId, Side};

verus! {

/// An order with its owner forgotten.
pub open spec fn anon(o: Order) -> Order {
    Order { account_id: 0, side: o.side, price: o.price, qty: o.qty, order_id: o.order_id }
}

/// Orders with their owners forgotten.
pub open spec fn anon_orders(m: Map<OrderId, Order>) -> Map<OrderId, Order> {
    m.map_values(|o: Order| anon(o))
}

/// A book with the owners of its orders forgotten.
pub open spec fn anon_book(b: BookView) -> BookView {
    BookView { bids: b.bids, asks: b.asks, orders: anon_orders(b.orders) }
}

/// The public event an exchange report becomes, numbered `id`.
pub open spec fn event_of(out: ExchangeOutput, id: u64) -> ExchangeEvent {
    match out {
        ExchangeOutput::Insert { order, .. } => ExchangeEvent::Insert {
            price: order.price,
            qty: order.qty,
            side: order.side.code(),
            order_id: order.order_id,
            id,
        },
        ExchangeOutput::Cancel { order, .. } => ExchangeEvent::Cancel { order_id: order.order_id, id },
        ExchangeOutput::Trade { ask_order, bid_order, trade_price, trade_volume } => ExchangeEvent::Trade {
            ask_id: ask_order.order_id,
            bid_id: bid_order.order_id,
            trade_price,
            trade_volume,
            id,
        },
    }
}

/// The number of an event.
pub open spec fn event_id(e: ExchangeEvent) -> u64 {
    match e {
        ExchangeEvent::Cancel { id, .. } => id,
        ExchangeEvent::Insert { id, .. } => id,
        ExchangeEvent::Trade { id, .. } => id,
    }
}

/// `events` are the public events of the reports `outs`, one each, in order,
/// however they are numbered.
pub open spec fn describes(events: Seq<ExchangeEvent>, outs: Seq<ExchangeOutput>) -> bool {
    &&& events.len() == outs.len()
    &&& forall|i: int| 0 <= i < outs.len() ==> #[trigger] events[i] == event_of(outs[i], event_id(events[i]))
}

/// A client mirror after the events, in order.
pub open spec fn apply_events(c: ClientBookView, events: Seq<ExchangeEvent>) -> ClientBookView
    decreases events.len(),
{
    if events.len() == 0 {
        c
    } else {
        apply_events(c.apply_event(events[0]), events.drop_first())
    }
}

/// Each event can be applied to the mirror it meets.
pub open spec fn events_ok(c: ClientBookView, events: Seq<ExchangeEvent>) -> bool
    decreases events.len(),
{
    if events.len() == 0 {
        true
    } else {
        c.event_ok(events[0]) && events_ok(c.apply_event(events[0]), events.drop_first())
    }
}

/// The mirror `c` is a copy of the exchange state `v`.
pub open spec fn mirrors(c: ClientBookView, v: ExchangeView) -> bool {
    &&& c.book == anon_book(v.book)
    &&& c.next_order_id == v.next_order_id
}

// ---------------------------------------------------------------------------
// Forgetting owners commutes with every operation of the book
// ---------------------------------------------------------------------------
proof fn lemma_anon_orders(m: Map<OrderId, Order>)
    ensures
        anon_orders(m).dom() == m.dom(),
        forall|k: OrderId| #[trigger] anon_orders(m).contains_key(k) == m.contains_key(k),
        forall|k: OrderId| m.contains_key(k) ==> #[trigger] anon_orders(m)[k] == anon(m[k]),
        forall|k: OrderId| #[trigger] qty_of(anon_orders(m), k) == qty_of(m, k),
        forall|ids: Seq<OrderId>| #[trigger] volume(ids, anon_orders(m)) == volume(ids, m),
{
    assert(anon_orders(m).dom() =~= m.dom());
    assert forall|ids: Seq<OrderId>| #[trigger] volume(ids, anon_orders(m)) == volume(ids, m) by {
        lemma_volume_frame(ids, anon_orders(m), m);
    }
}

proof fn lemma_anon_levels_wf(levels: Seq<LevelView>, side: Side, m: Map<OrderId, Order>)
    requires
        levels_wf(levels, side, m),
    ensures
        levels_wf(levels, side, anon_orders(m)),
{
    lemma_anon_orders(m);
    let a = anon_orders(m);
    assert forall|i: int, j: int| 0 <= i < levels.len() && 0 <= j < levels[i].orders.len() implies {
        let id = #[trigger] levels[i].orders[j];
        &&& a.contains_key(id)
        &&& a[id].side == side
        &&& a[id].price == levels[i].price
    } by {
        let id = levels[i].orders[j];
        assert(m.contains_key(id));
    }
    assert forall|i: int| 0 <= i < levels.len() implies volume(#[trigger] levels[i].orders, a) <= u64::MAX by {
        assert(volume(levels[i].orders, a) == volume(levels[i].orders, m));
    }
}

/// Forgetting owners keeps a book well formed.
pub proof fn lemma_anon_wf(b: BookView)
    requires
        b.wf(),
    ensures
        anon_book(b).wf(),
{
    lemma_anon_orders(b.orders);
    lemma_anon_levels_wf(b.bids, Side::Bid, b.orders);
    lemma_anon_levels_wf(b.asks, Side::Ask, b.orders);
    let a = anon_book(b);
    assert forall|id: OrderId| #[trigger] a.orders.contains_key(id) && a.orders[id].qty > 0 implies level_holds(
        a.levels(a.orders[id].side),
        id,
    ) by {
        assert(b.orders.contains_key(id) && b.orders[id].qty > 0);
        assert(level_holds(b.levels(b.orders[id].side), id));
        match b.orders[id].side {
            Side::Bid => {},
            Side::Ask => {},
        }
    }
}

/// Forgetting owners before or after an insert gives the same book.
pub proof fn lemma_anon_insert(b: BookView, o: Order)
    ensures
        anon_book(b.insert(o)) == anon_book(b).insert(anon(o)),
        anon_book(b).can_insert(anon(o)) == b.can_insert(o),
{
    lemma_anon_orders(b.orders);
    assert(insert_into_levels(b.levels(o.side), o) == insert_into_levels(b.levels(o.side), anon(o)));
    assert(anon_orders(b.orders.insert(o.order_id, o)) =~= anon_orders(b.orders).insert(o.order_id, anon(o)));
    match o.side {
        Side::Bid => {},
        Side::Ask => {},
    }
}

/// Forgetting owners before or after a removal gives the same book.
pub proof fn lemma_anon_remove(b: BookView, id: OrderId, price: u64, side: Side)
    ensures
        anon_book(b.remove(id, price, side)) == anon_book(b).remove(id, price, side),
{
    let m = b.orders;
    lemma_anon_orders(m);
    lemma_anon_orders(m.remove(id));
    assert(anon_orders(m.remove(id)) =~= anon_orders(m).remove(id));
    let l = b.levels(side);
    assert(remove_from_levels(l, id, price, side, m.remove(id)) == remove_from_levels(
        l,
        id,
        price,
        side,
        anon_orders(m).remove(id),
    ));
    match side {
        Side::Bid => {},
        Side::Ask => {},
    }
}

/// Forgetting owners before or after lowering a quantity gives the same book.
pub proof fn lemma_anon_reduce(b: BookView, id: OrderId, vol: u64)
    requires
        b.orders.contains_key(id),
    ensures
        anon_book(b.reduce(id, vol)) == anon_book(b).reduce(id, vol),
{
    lemma_anon_orders(b.orders);
    let o = b.orders[id];
    assert(anon_orders(b.reduce(id, vol).orders) =~= anon_book(b).reduce(id, vol).orders);
}

/// Forgetting owners before or after a trade gives the same book, and a trade
/// possible in one is possible in the other.
pub proof fn lemma_anon_match(b: BookView, bid_id: OrderId, ask_id: OrderId, vol: u64)
    ensures
        anon_book(b.match_orders(bid_id, ask_id, vol)) == anon_book(b).match_orders(bid_id, ask_id, vol),
        anon_book(b).match_ok(bid_id, ask_id, vol) == b.match_ok(bid_id, ask_id, vol),
{
    lemma_anon_orders(b.orders);
    if b.orders.contains_key(bid_id) && b.orders.contains_key(ask_id) {
        let bid = b.orders[bid_id];
        let ask = b.orders[ask_id];
        let b1 = if bid.qty == vol {
            b.remove(bid_id, bid.price, Side::Bid)
        } else {
            b.reduce(bid_id, vol)
        };
        if bid.qty == vol {
            lemma_anon_remove(b, bid_id, bid.price, Side::Bid);
        } else {
            lemma_anon_reduce(b, bid_id, vol);
        }
        if ask.qty == vol {
            lemma_anon_remove(b1, ask_id, ask.price, Side::Ask);
        } else {
            assert(b1.orders.contains_key(ask_id));
            lemma_anon_reduce(b1, ask_id, vol);
        }
    }
}

// ---------------------------------------------------------------------------
// The mirror follows the exchange
// ---------------------------------------------------------------------------
proof fn lemma_mirror_inv(c: ClientBookView, v: ExchangeView)
    requires
        v.inv(),
        mirrors(c, v),
    ensures
        c.inv(),
{
    lemma_anon_wf(v.book);
    lemma_anon_orders(v.book.orders);
    assert forall|id: OrderId| #[trigger] c.book.orders.contains_key(id) implies id < c.next_order_id by {
        assert(v.book.orders.contains_key(id));
    }
}

/// Applying the trade events of matching to a copy of a book gives a copy of
/// the settled book, and every one of them can be applied.
pub proof fn lemma_mirror_settle(b: BookView, c: ClientBookView, events: Seq<ExchangeEvent>)
    requires
        b.wf(),
        c.inv(),
        c.book == anon_book(b),
        describes(events, settle(b).1),
    ensures
        events_ok(c, events),
        apply_events(c, events) == (ClientBookView { book: anon_book(settle(b).0), ..c }),
    decreases b.orders.len(),
{
    if b.in_cross() {
        lemma_trade_step(b);
        let t = next_trade(b);
        let b2 = apply_trade(b, t);
        let (b3, ts) = settle(b2);
        assert(settle(b).1 == seq![t] + ts);
        assert(events[0] == event_of(t, event_id(events[0])));
        let bid_id = t->bid_order.order_id;
        let ask_id = t->ask_order.order_id;
        let vol = t->trade_volume;
        lemma_anon_match(b, bid_id, ask_id, vol);
        let c2 = c.apply_event(events[0]);
        assert(c.event_ok(events[0]));
        assert(c2 == ClientBookView { book: anon_book(b2), ..c });
        lemma_match_keeps_ids(b, bid_id, ask_id, vol);
        lemma_anon_wf(b2);
        lemma_anon_orders(b2.orders);
        lemma_anon_orders(b.orders);
        assert forall|id: OrderId| #[trigger] c2.book.orders.contains_key(id) implies id < c2.next_order_id by {
            assert(b2.orders.contains_key(id));
            assert(b.orders.contains_key(id));
            assert(c.book.orders.contains_key(id));
        }
        let rest = events.drop_first();
        assert forall|i: int| 0 <= i < ts.len() implies #[trigger] rest[i] == event_of(ts[i], event_id(rest[i])) by {
            assert(rest[i] == events[i + 1]);
            assert(settle(b).1[i + 1] == ts[i]);
        }
        lemma_mirror_settle(b2, c2, rest);
    } else {
        assert(events.len() == 0);
        assert(c == ClientBookView { book: anon_book(settle(b).0), ..c });
    }
}

proof fn lemma_mirror_cancel(v: ExchangeView, c: ClientBookView, m: Message, events: Seq<ExchangeEvent>)
    requires
        v.inv(),
        m is CancelOrder,
        c.inv(),
        mirrors(c, v),
        describes(events, v.step(m).1),
    ensures
        events_ok(c, events),
        mirrors(apply_events(c, events), v.step(m).0),
        apply_events(c, events).our_orders == c.our_orders,
        apply_events(c, events).cash == c.cash,
        apply_events(c, events).position == c.position,
{
    let order_id = m->CancelOrder_order_id;
    let account_id = m->CancelOrder_account_id;
    if v.book.orders.contains_key(order_id) && v.book.orders[order_id].account_id == account_id {
        let o = v.book.orders[order_id];
        lemma_anon_orders(v.book.orders);
        lemma_anon_remove(v.book, order_id, o.price, o.side);
        assert(events.len() == 1);
        assert(events[0] == event_of(ExchangeOutput::Cancel { order: o, message: m }, event_id(events[0])));
        let c2 = c.apply_event(events[0]);
        assert(c.event_ok(events[0]));
        assert(c.book.orders[order_id] == anon(o));
        assert(c2 == ClientBookView { book: anon_book(v.step(m).0.book), ..c });
        assert(events.drop_first() =~= Seq::<ExchangeEvent>::empty());
        assert(apply_events(c2, events.drop_first()) == c2);
        assert(events_ok(c2, events.drop_first()));
    } else {
        assert(events.len() == 0);
    }
}

proof fn lemma_mirror_insert(v: ExchangeView, c: ClientBookView, m: Message, events: Seq<ExchangeEvent>)
    requires
        v.inv(),
        v.accepts(m),
        m is InsertOrder,
        c.inv(),
        mirrors(c, v),
        describes(events, v.step(m).1),
    ensures
        events_ok(c, events),
        mirrors(apply_events(c, events), v.step(m).0),
        apply_events(c, events).our_orders == c.our_orders,
        apply_events(c, events).cash == c.cash,
        apply_events(c, events).position == c.position,
{
    let o = order_of(m, v.next_order_id);
    let outs = v.step(m).1;
    let (b2, trades) = settle(v.book.insert(o));
    assert(outs == seq![ExchangeOutput::Insert { order: o, message: m }] + trades);
    assert(events[0] == event_of(outs[0], event_id(events[0])));
    lemma_anon_insert(v.book, o);
    assert(!v.book.orders.contains_key(o.order_id));
    assert(c.inserted_order(o.price, o.qty, o.side.code()) == anon(o)) by {
        match o.side {
            Side::Bid => {},
            Side::Ask => {},
        }
    }
    assert(c.event_ok(events[0]));
    let c2 = c.apply_event(events[0]);
    assert(c2 == ClientBookView {
        book: anon_book(v.book.insert(o)),
        next_order_id: (c.next_order_id + 1) as u64,
        ..c
    });
    lemma_insert_wf(v.book, o);
    lemma_anon_wf(v.book.insert(o));
    lemma_anon_orders(v.book.insert(o).orders);
    lemma_anon_orders(v.book.orders);
    assert forall|id: OrderId| #[trigger] c2.book.orders.contains_key(id) implies id < c2.next_order_id by {
        assert(v.book.insert(o).orders.contains_key(id));
        if id != o.order_id {
            assert(v.book.orders.contains_key(id));
        }
    }
    let rest = events.drop_first();
    assert forall|i: int| 0 <= i < trades.len() implies #[trigger] rest[i] == event_of(trades[i], event_id(rest[i])) by {
        assert(rest[i] == events[i + 1]);
        assert(outs[i + 1] == trades[i]);
    }
    lemma_mirror_settle(v.book.insert(o), c2, rest);
}

/// A client mirror that is a copy of an exchange stays a copy: applying the
/// public events of the reports the exchange makes on a message (numbered in
/// any way) is always possible and gives a copy of the exchange's new state;
/// the client's own orders, cash and position are left alone.
pub proof fn law_mirror_follows_exchange(
    v: ExchangeView,
    c: ClientBookView,
    m: Message,
    events: Seq<ExchangeEvent>,
)
    requires
        v.inv(),
        v.accepts(m),
        mirrors(c, v),
        describes(events, v.step(m).1),
    ensures
        events_ok(c, events),
        mirrors(apply_events(c, events), v.step(m).0),
        apply_events(c, events).our_orders == c.our_orders,
        apply_events(c, events).cash == c.cash,
        apply_events(c, events).position == c.position,
        apply_events(c, events).inv(),
{
    lemma_mirror_inv(c, v);
    match m {
        Message::End => {
            assert(events.len() == 0);
            assert(apply_events(c, events) == c);
        },
        Message::CancelOrder { .. } => {
            lemma_mirror_cancel(v, c, m, events);
        },
        Message::InsertOrder { .. } => {
            lemma_mirror_insert(v, c, m, events);
        },
    }
    crate::exchange::lemma_step_inv(v, m);
    lemma_mirror_inv(apply_events(c, events), v.step(m).0);
}

} // verus!
