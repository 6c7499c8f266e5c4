//! A market-making bot: it moves its fair value one tick up or down, pulls
//! its orders and quotes one tick either side of the new value.
use rand::RngExt;
use vstd::prelude::*;

use crate::client::{Client, ClientView, cancels, insert_request};
use crate::protocol::ExchangeId;
use crate::types::{OrderId, Quantity, Side};

verus! {

/// The exchange the bot trades on.
pub const EXCHANGE_ID: ExchangeId = 0;

/// A fair coin: `rand::rng().random_ratio(1, 2)`, true with probability one
/// half. Nothing is claimed of the result.
#[verifier::external_body]
fn coin_flip() -> bool {
    rand::rng().random_ratio(1, 2)
}

/// A market maker quoting around its fair value `theo`.
pub struct MarketMaker {
    pub client: Client,
    pub theo: u64,
    pub qty: Quantity,
}

/// The requests a requote queues after the client's: cancels of `cancelled`,
/// then a bid one tick under `theo` and an ask one tick over it.
pub open spec fn requote_requests(
    theo: u64,
    qty: Quantity,
    cancelled: Seq<OrderId>,
    next_client_order_id: u64,
) -> Seq<crate::protocol::ClientMessage> {
    cancels(EXCHANGE_ID, cancelled) + seq![
        insert_request(EXCHANGE_ID, Side::Bid, (theo - 1) as u64, qty, next_client_order_id),
        insert_request(EXCHANGE_ID, Side::Ask, (theo + 1) as u64, qty, (next_client_order_id + 1) as u64),
    ]
}

/// The client after a requote around `theo` that cancelled `cancelled`.
pub open spec fn requoted(c: ClientView, theo: u64, qty: Quantity, cancelled: Seq<OrderId>) -> ClientView {
    ClientView {
        next_client_order_id: (c.next_client_order_id + 2) as u64,
        outbox: c.outbox + requote_requests(theo, qty, cancelled, c.next_client_order_id),
        ..c
    }
}

/// `cancelled` lists, once each, the orders of ours on the bot's exchange,
/// and nothing when the client does not know that exchange.
pub open spec fn cancels_all_ours(c: ClientView, cancelled: Seq<OrderId>) -> bool {
    if c.books.contains_key(EXCHANGE_ID) {
        &&& cancelled.no_duplicates()
        &&& cancelled.to_set() == c.books[EXCHANGE_ID].our_orders
    } else {
        cancelled.len() == 0
    }
}

impl MarketMaker {
    /// A bot with fair value 100 that quotes `qty` a side.
    pub fn new(client: Client, qty: Quantity) -> (m: MarketMaker)
        ensures
            m.client@ == client@,
            m.client.inv() == client.inv(),
            m.theo == 100,
            m.qty == qty,
    {
        MarketMaker { client, theo: 100, qty }
    }

    /// Moves the fair value a tick up (`raise`) or down, cancels all our
    /// orders and quotes a tick either side of the new value.
    pub fn requote(&mut self, raise: bool)
        requires
            old(self).client.inv(),
            2 <= old(self).theo <= u64::MAX - 2,
            old(self).client@.next_client_order_id <= u64::MAX - 2,
        ensures
            final(self).client.inv(),
            final(self).qty == old(self).qty,
            final(self).theo == if raise {
                old(self).theo + 1
            } else {
                old(self).theo - 1
            },
            exists|cancelled: Seq<OrderId>|
                cancels_all_ours(old(self).client@, cancelled) && final(self).client@ == requoted(
                    old(self).client@,
                    final(self).theo,
                    old(self).qty,
                    cancelled,
                ),
    {
        let ghost c0 = self.client@;
        if raise {
            self.theo += 1;
        } else {
            self.theo -= 1;
        }
        let r = self.client.cancel_all(EXCHANGE_ID);
        let ghost c1 = self.client@;
        let ghost cancelled: Seq<OrderId> = if r is Some {
            choose|ids: Seq<OrderId>|
                {
                    &&& ids.no_duplicates()
                    &&& ids.to_set() == c0.books[EXCHANGE_ID].our_orders
                    &&& c1 == (ClientView { outbox: c0.outbox + cancels(EXCHANGE_ID, ids), ..c0 })
                }
        } else {
            Seq::empty()
        };
        proof {
            if r is None {
                assert(c0.outbox + cancels(EXCHANGE_ID, cancelled) =~= c0.outbox);
            }
        }
        let bid_price = self.theo - 1;
        let ask_price = self.theo + 1;
        self.client.limit_order(EXCHANGE_ID, Side::Bid, bid_price, self.qty);
        self.client.limit_order(EXCHANGE_ID, Side::Ask, ask_price, self.qty);
        proof {
            let req = requote_requests(self.theo, self.qty, cancelled, c0.next_client_order_id);
            assert(self.client@.outbox =~= c0.outbox + req);
            assert(self.client@ == requoted(c0, self.theo, self.qty, cancelled));
            assert(cancels_all_ours(c0, cancelled));
        }
    }

    /// Flips a fair coin and requotes with it.
    pub fn act(&mut self)
        requires
            old(self).client.inv(),
            2 <= old(self).theo <= u64::MAX - 2,
            old(self).client@.next_client_order_id <= u64::MAX - 2,
        ensures
            final(self).client.inv(),
            final(self).qty == old(self).qty,
            final(self).theo == old(self).theo + 1 || final(self).theo == old(self).theo - 1,
            exists|cancelled: Seq<OrderId>|
                cancels_all_ours(old(self).client@, cancelled) && final(self).client@ == requoted(
                    old(self).client@,
                    final(self).theo,
                    old(self).qty,
                    cancelled,
                ),
    {
        let coin = coin_flip();
        self.requote(coin);
    }
}

} // verus!
