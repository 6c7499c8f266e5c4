//! The trading screen without its drawing: a client, the order size a
//! trader has set for each exchange, and what a typed command does.
use std::collections::HashMap;
use vstd::prelude::*;

use vstd::std_specs::iter::IteratorSpec;

use crate::book::summary;
use crate::client::{
    cancels, insert_request, internal_action_of, parse_internal_action, Client, ClientBookView, ClientView,
    InternalAction,
};
use crate::ladder::{add_price, falling, is_ladder, ladder, LadderRow};
use crate::protocol::ExchangeId;
use crate::types::{OrderId, Quantity};

verus! {

/// The order size for `exchange_id`: the one set there, else 1.
pub open spec fn preset_volume(presets: Map<ExchangeId, Quantity>, exchange_id: ExchangeId) -> Quantity {
    if presets.contains_key(exchange_id) {
        presets[exchange_id]
    } else {
        1
    }
}

/// `after` is `before` with a cancel of each order of ours on `exchange_id`
/// queued, each once, in some order; or `before` itself when the client does
/// not know that exchange.
pub open spec fn cancel_all_queued(before: ClientView, after: ClientView, exchange_id: ExchangeId) -> bool {
    if before.books.contains_key(exchange_id) {
        exists|ids: Seq<OrderId>|
            {
                &&& ids.no_duplicates()
                &&& ids.to_set() == before.books[exchange_id].our_orders
                &&& after == (ClientView { outbox: before.outbox + cancels(exchange_id, ids), ..before })
            }
    } else {
        after == before
    }
}

/// A command can be carried out: an order still has a client order id left,
/// and it does not cancel a price level, which the client cannot do.
pub open spec fn command_ok(client: ClientView, action: Option<InternalAction>) -> bool {
    match action {
        Some(InternalAction::InsertOrder { .. }) => client.next_client_order_id < u64::MAX,
        Some(InternalAction::CancelLevel { .. }) => false,
        _ => true,
    }
}

/// What the screen shows for one exchange: the ladder of its book, and the
/// client's cash and position there.
pub struct Panel {
    pub exchange_id: ExchangeId,
    pub rows: Vec<LadderRow>,
    pub cash: i64,
    pub position: i64,
}

/// `panel` shows the mirror `b` of exchange `exchange_id`.
pub open spec fn shows(panel: Panel, exchange_id: ExchangeId, b: ClientBookView) -> bool {
    &&& panel.exchange_id == exchange_id
    &&& is_ladder(panel.rows@, summary(b.book.bids, b.book.orders), summary(b.book.asks, b.book.orders))
    &&& panel.cash == b.cash
    &&& panel.position == b.position
}

/// A trader at the screen: the client it trades through and the order size
/// set for each exchange.
pub struct Trader {
    pub client: Client,
    pub volume_preset: HashMap<ExchangeId, Quantity>,
}

impl Trader {
    /// The order sizes set so far, by exchange.
    pub open spec fn presets(&self) -> Map<ExchangeId, Quantity> {
        self.volume_preset@
    }

    /// A trader with no order size set.
    pub fn new(client: Client) -> (t: Trader)
        ensures
            t.client == client,
            t.presets() == Map::<ExchangeId, Quantity>::empty(),
    {
        let t = Trader { client, volume_preset: HashMap::new() };
        assert(t.presets() =~= Map::<ExchangeId, Quantity>::empty());
        t
    }

    /// The order size for `exchange_id`.
    pub fn volume(&self, exchange_id: ExchangeId) -> (q: Quantity)
        ensures
            q == preset_volume(self.presets(), exchange_id),
    {
        match self.volume_preset.get(&exchange_id) {
            Some(q) => *q,
            None => 1,
        }
    }

    /// Reads a command typed for `exchange_id` and carries it out: an order
    /// (of the set size when none is typed) is queued, `cancel_all` queues a
    /// cancel of each of our orders there, `volume` sets the size. `hit` and
    /// `lift` are read but queue nothing: the client has no such request.
    /// Gives the command read, `None` when the line is not one.
    pub fn command(&mut self, exchange_id: ExchangeId, input: &str) -> (r: Option<InternalAction>)
        requires
            command_ok(
                old(self).client@,
                internal_action_of(input@, preset_volume(old(self).presets(), exchange_id)),
            ),
        ensures
            r == internal_action_of(input@, preset_volume(old(self).presets(), exchange_id)),
            final(self).client.inv() == old(self).client.inv(),
            match r {
                Some(InternalAction::InsertOrder { side, price, qty }) => {
                    &&& final(self).client@ == (ClientView {
                        next_client_order_id: (old(self).client@.next_client_order_id + 1) as u64,
                        outbox: old(self).client@.outbox.push(
                            insert_request(exchange_id, side, price, qty, old(self).client@.next_client_order_id),
                        ),
                        ..old(self).client@
                    })
                    &&& final(self).presets() == old(self).presets()
                },
                Some(InternalAction::CancelAll) => {
                    &&& cancel_all_queued(old(self).client@, final(self).client@, exchange_id)
                    &&& final(self).presets() == old(self).presets()
                },
                Some(InternalAction::SetVolume(q)) => {
                    &&& final(self).client@ == old(self).client@
                    &&& final(self).presets() == old(self).presets().insert(exchange_id, q)
                },
                _ => {
                    &&& final(self).client@ == old(self).client@
                    &&& final(self).presets() == old(self).presets()
                },
            },
    {
        let default_qty = self.volume(exchange_id);
        let action = parse_internal_action(input, default_qty);
        match action {
            Some(InternalAction::InsertOrder { side, price, qty }) => {
                self.client.limit_order(exchange_id, side, price, qty);
            },
            Some(InternalAction::CancelAll) => {
                self.client.cancel_all(exchange_id);
            },
            Some(InternalAction::SetVolume(qty)) => {
                self.volume_preset.insert(exchange_id, qty);
            },
            _ => {},
        }
        action
    }

    /// One panel for each exchange the client knows, by rising exchange id.
    pub fn panels(&self) -> (ps: Vec<Panel>)
        requires
            self.client.inv(),
        ensures
            forall|i: int, j: int| 0 <= i < j < ps@.len() ==> ps@[i].exchange_id < ps@[j].exchange_id,
            forall|e: ExchangeId|
                self.client@.books.contains_key(e) <==> exists|i: int|
                    0 <= i < ps@.len() && #[trigger] ps@[i].exchange_id == e,
            forall|i: int|
                0 <= i < ps@.len() ==> shows(
                    #[trigger] ps@[i],
                    ps@[i].exchange_id,
                    self.client@.books[ps@[i].exchange_id],
                ),
    {
        let books = self.client.books();
        let ghost total = vstd::std_specs::hash::spec_keys_iter(books).remaining().unref();
        let mut ids: Vec<ExchangeId> = Vec::new();
        for e in it: books.keys()
            invariant
                it.seq().unref() == total,
                falling(ids@),
                forall|p: ExchangeId| #[trigger] ids@.contains(p) <==> total.take(it.index()).contains(p),
        {
            let ghost t0 = total.take(it.index());
            assert(total.take(it.index() + 1) =~= t0.push(*e));
            add_price(&mut ids, *e);
            assert forall|p: ExchangeId| #[trigger] ids@.contains(p) <==> t0.push(*e).contains(p) by {
                let t1 = t0.push(*e);
                if t1.contains(p) {
                    let j = choose|j: int| 0 <= j < t1.len() && t1[j] == p;
                    if j < t0.len() {
                        assert(t0[j] == p);
                    }
                }
                if t0.contains(p) {
                    let j = choose|j: int| 0 <= j < t0.len() && t0[j] == p;
                    assert(t1[j] == p);
                }
                if p == *e {
                    assert(t1[t0.len() as int] == p);
                }
            }
        }
        proof {
            assert(total.take(total.len() as int) =~= total);
            assert(total.to_set() == books@.dom());
        }
        let n = ids.len();
        let mut ps: Vec<Panel> = Vec::new();
        let mut k: usize = n;
        while k > 0
            invariant
                n == ids@.len(),
                0 <= k <= n,
                falling(ids@),
                ps@.len() == n - k,
                forall|i: int| 0 <= i < ps@.len() ==> (#[trigger] ps@[i]).exchange_id == ids@[n - 1 - i],
                forall|p: ExchangeId| #[trigger] ids@.contains(p) <==> books@.contains_key(p),
                forall|i: int|
                    0 <= i < ps@.len() ==> shows(
                        #[trigger] ps@[i],
                        ps@[i].exchange_id,
                        books@[ps@[i].exchange_id]@,
                    ),
                books@.map_values(|b: crate::client::ClientOrderBook| b@) == self.client@.books,
                forall|e: ExchangeId| #[trigger] books@.contains_key(e) ==> books@[e].inv(),
            decreases k,
        {
            k -= 1;
            let e = ids[k];
            assert(ids@.contains(e));
            if let Some(book) = books.get(&e) {
                let (bids, asks) = book.order_book.summarise();
                let rows = ladder(&bids, &asks);
                ps.push(Panel { exchange_id: e, rows, cash: book.cash, position: book.position });
            } else {
                proof {
                    assert(false);
                }
            }
        }
        proof {
            assert forall|i: int, j: int| 0 <= i < j < ps@.len() implies ps@[i].exchange_id < ps@[j].exchange_id by {
                assert(ps@[i].exchange_id == ids@[n - 1 - i]);
                assert(ps@[j].exchange_id == ids@[n - 1 - j]);
                assert(0 <= n - 1 - j < n - 1 - i < ids@.len());
                assert(ids@[n - 1 - j] > ids@[n - 1 - i]);
            }
            assert forall|e: ExchangeId|
                self.client@.books.contains_key(e) <==> exists|i: int|
                    0 <= i < ps@.len() && #[trigger] ps@[i].exchange_id == e by {
                if self.client@.books.contains_key(e) {
                    assert(books@.contains_key(e));
                    assert(ids@.contains(e));
                    let j = choose|j: int| 0 <= j < ids@.len() && ids@[j] == e;
                    assert(ps@[n - 1 - j].exchange_id == e);
                }
                if exists|i: int| 0 <= i < ps@.len() && #[trigger] ps@[i].exchange_id == e {
                    let i = choose|i: int| 0 <= i < ps@.len() && #[trigger] ps@[i].exchange_id == e;
                    assert(ids@[n - 1 - i] == e);
                    assert(ids@.contains(e));
                }
            }
        }
        ps
    }
}

} // verus!
