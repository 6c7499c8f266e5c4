//! A continuous limit-order-book exchange: the order book and its matching
//! engine, the messages exchanged between clients and the server, the
//! client-side mirror of a book, and the decisions of the server and of a
//! simple market-making bot.
use vstd::prelude::*;

pub mod types;
pub mod book;
pub mod exchange;
pub mod protocol;
pub mod text;
pub mod server;
pub mod client;
pub mod bot;
pub mod mirror;
pub mod ladder;
pub mod trader;

verus! {
} // verus!
