//! The messages between clients, the server and its exchanges.
use vstd::prelude::*;

use crate::types::{OrderId, Price, Quantity};

verus! {

pub type ExchangeId = u64;

pub type ExchangeEventId = u64;

/// What a client asks of an exchange.
#[derive(Debug, Clone, Copy, PartialEq, Eq, Structural)]
pub enum ClientAction {
    CancelOrder { order_id: u64 },
    InsertOrder { side: bool, price: u64, qty: u64, client_order_id: u64 },
    End,
}

/// A client action addressed to one exchange.
#[derive(Debug, Clone, Copy, PartialEq, Eq, Structural)]
pub struct ClientMessage {
    pub exchange_id: u64,
    pub action: ClientAction,
}

/// What the server sends a client.
#[derive(Debug, Clone, Copy, PartialEq, Eq, Structural)]
pub enum ServerMessage {
    Event(u64, ExchangeEvent),
    Private(u64, ExchangePrivateMessage),
    System(SystemMessage),
}

#[derive(Debug, Clone, Copy, PartialEq, Eq, Structural)]
pub enum SystemMessage {
    Start,
    ExchangeAdded { exchange_id: u64 },
    AccountId { account_id: u64 },
    End,
}

/// A public event of an exchange, seen by every client.
#[derive(Debug, Clone, Copy, PartialEq, Eq, Structural)]
pub enum ExchangeEvent {
    Cancel { order_id: OrderId, id: ExchangeEventId },
    Insert { price: Price, qty: Quantity, side: i8, order_id: OrderId, id: ExchangeEventId },
    Trade {
        ask_id: OrderId,
        bid_id: OrderId,
        trade_price: Price,
        trade_volume: Quantity,
        id: ExchangeEventId,
    },
}

/// A private confirmation of an exchange, seen by the owner of an order.
#[derive(Debug, Clone, Copy, PartialEq, Eq, Structural)]
pub enum ExchangePrivateMessage {
    InsertConfirm { client_order_id: u64, order_id: OrderId, id: ExchangeEventId },
    CancelConfirm { order_id: OrderId, id: ExchangeEventId },
    TradeConfirm {
        order_id: OrderId,
        trade_price: Price,
        trade_volume: Quantity,
        side: i8,
        id: ExchangeEventId,
    },
}

} // verus!
