//! The basic vocabulary of the exchange: sides, orders and the messages an
//! exchange consumes.
use vstd::prelude::*;

verus! {

pub type AccountId = u64;

pub type Price = u64;

pub type Quantity = u64;

pub type OrderId = u64;

/// The side of the book an order rests on.
#[derive(Debug, Clone, Copy, PartialEq, Eq, Structural)]
pub enum Side {
    Bid,
    Ask,
}

impl Side {
    /// The other side of the book.
    pub open spec fn opposite(self) -> Side {
        match self {
            Side::Bid => Side::Ask,
            Side::Ask => Side::Bid,
        }
    }

    /// The signed code of a side on the wire: `1` for a bid, `-1` for an ask.
    pub open spec fn code(self) -> i8 {
        match self {
            Side::Bid => 1i8,
            Side::Ask => -1i8,
        }
    }

    /// The signed code of this side: `1` for a bid, `-1` for an ask.
    pub fn as_i8(self) -> (c: i8)
        ensures
            c == self.code(),
    {
        match self {
            Side::Bid => 1,
            Side::Ask => -1,
        }
    }

    /// The side whose code is `code`, if `code` is `1` or `-1`.
    pub fn from_i8(code: i8) -> (s: Option<Side>)
        ensures
            s matches Some(side) ==> side.code() == code,
            s is None <==> (code != 1 && code != -1),
    {
        if code == 1 {
            Some(Side::Bid)
        } else if code == -1 {
            Some(Side::Ask)
        } else {
            None
        }
    }
}

impl core::ops::Neg for Side {
    type Output = Side;

    fn neg(self) -> (r: Side) {
        match self {
            Side::Bid => Side::Ask,
            Side::Ask => Side::Bid,
        }
    }
}

impl vstd::std_specs::ops::NegSpecImpl for Side {
    open spec fn obeys_neg_spec() -> bool {
        true
    }

    open spec fn neg_req(self) -> bool {
        true
    }

    open spec fn neg_spec(self) -> Side {
        self.opposite()
    }
}

/// Negating a side twice gives it back, and no side is its own negation.
pub proof fn law_neg_involution(s: Side)
    ensures
        s.opposite().opposite() == s,
        s.opposite() != s,
{
}

/// A request handed to an exchange.
#[derive(Debug, Clone, Copy, PartialEq, Eq, Structural)]
pub enum Message {
    CancelOrder { order_id: OrderId, account_id: AccountId },
    InsertOrder {
        account_id: AccountId,
        side: Side,
        price: Price,
        qty: Quantity,
        client_order_id: u64,
    },
    End,
}

/// A resting limit order.
#[derive(Debug, Clone, Copy, PartialEq, Eq, Structural)]
pub struct Order {
    pub account_id: AccountId,
    pub side: Side,
    pub price: Price,
    pub qty: Quantity,
    pub order_id: OrderId,
}

impl Order {
    pub fn side(&self) -> (s: Side)
        ensures
            s == self.side,
    {
        self.side
    }

    pub fn price(&self) -> (p: Price)
        ensures
            p == self.price,
    {
        self.price
    }

    pub fn qty(&self) -> (q: Quantity)
        ensures
            q == self.qty,
    {
        self.qty
    }

    pub fn order_id(&self) -> (id: OrderId)
        ensures
            id == self.order_id,
    {
        self.order_id
    }

    pub fn account_id(&self) -> (a: AccountId)
        ensures
            a == self.account_id,
    {
        self.account_id
    }

    /// A new order whose id is taken from the counter `next_id`, which then
    /// moves on by one (wrapping, as an atomic fetch-and-add does). The
    /// counter belongs to the caller: ids are unique per counter, not per
    /// process, so two exchanges (each with its own counter) hand out the
    /// same ids.
    pub fn new_order(
        account_id: AccountId,
        price: Price,
        qty: Quantity,
        side: Side,
        next_id: &mut OrderId,
    ) -> (o: Order)
        ensures
            o == (Order { account_id, side, price, qty, order_id: *old(next_id) }),
            *final(next_id) == (if *old(next_id) == u64::MAX {
                0
            } else {
                (*old(next_id) + 1) as u64
            }),
    {
        let order_id = *next_id;
        *next_id = next_id.wrapping_add(1);
        Order { account_id, side, price, qty, order_id }
    }

    /// A new order with the given id.
    pub fn new_order_with_order_id(
        account_id: AccountId,
        price: Price,
        qty: Quantity,
        side: Side,
        order_id: OrderId,
    ) -> (o: Order)
        ensures
            o == (Order { account_id, side, price, qty, order_id }),
    {
        Order { account_id, side, price, qty, order_id }
    }
}

} // verus!
