//! The decisions of the server: its operator commands and the states they
//! move it between, what a new connection is told, how client actions become
//! exchange messages, and the events and confirmations an exchange sends out.
use vstd::prelude::*;

use crate::protocol::{
    ClientAction, ExchangeEvent, ExchangeId, ExchangePrivateMessage, ServerMessage, SystemMessage,
};
use crate::text::{all_whitespace, chars_eq, law_words_ignore_surrounding_whitespace, split_whitespace, words};
use crate::types::{AccountId, Message, Order, Price, Quantity, Side};

verus! {

/// A command typed by the operator of the server.
#[derive(Debug, Clone, Copy, PartialEq, Eq, Structural)]
pub enum Command {
    Stop,
    Play,
    Pause,
    AddExchange,
}

/// The command a line names: a single word `play`, `pause`, `add_exchange`
/// or `stop`, with any whitespace around it.
pub open spec fn command_of(line: Seq<char>) -> Option<Command> {
    let w = words(line);
    if w.len() != 1 {
        None
    } else if w[0] == seq!['p', 'l', 'a', 'y'] {
        Some(Command::Play)
    } else if w[0] == seq!['p', 'a', 'u', 's', 'e'] {
        Some(Command::Pause)
    } else if w[0] == seq!['a', 'd', 'd', '_', 'e', 'x', 'c', 'h', 'a', 'n', 'g', 'e'] {
        Some(Command::AddExchange)
    } else if w[0] == seq!['s', 't', 'o', 'p'] {
        Some(Command::Stop)
    } else {
        None
    }
}

/// An operator command reads the same with any whitespace around it; in
/// particular a line ended by `\r\n` reads as the bare line.
pub proof fn law_command_ignores_surrounding_whitespace(t: Seq<char>, s: Seq<char>, u: Seq<char>)
    requires
        all_whitespace(t),
        all_whitespace(u),
    ensures
        command_of(t + s + u) == command_of(s),
        command_of(s.push('\r').push('\n')) == command_of(s),
{
    law_words_ignore_surrounding_whitespace(t, s, u);
    let crlf = seq!['\r', '\n'];
    assert(all_whitespace(crlf)) by {
        assert forall|i: int| 0 <= i < crlf.len() implies crate::text::is_whitespace(#[trigger] crlf[i]) by {
            assert(crlf[0] == '\r' && crlf[1] == '\n');
        }
    }
    law_words_ignore_surrounding_whitespace(Seq::empty(), s, crlf);
    assert(Seq::<char>::empty() + s + crlf =~= s.push('\r').push('\n'));
}

/// Reads an operator command; any other line is an unknown command.
pub fn parse_command(input: &str) -> (r: Result<Command, String>)
    ensures
        match r {
            Ok(c) => command_of(input@) == Some(c),
            Err(e) => command_of(input@) is None && e@ == "Unknown command"@,
        },
{
    let parts = split_whitespace(input);
    if parts.len() == 1 {
        let word = &parts[0];
        assert(word@ == words(input@)[0]);
        if chars_eq(word, &vec!['p', 'l', 'a', 'y']) {
            return Ok(Command::Play);
        } else if chars_eq(word, &vec!['p', 'a', 'u', 's', 'e']) {
            return Ok(Command::Pause);
        } else if chars_eq(
            word,
            &vec!['a', 'd', 'd', '_', 'e', 'x', 'c', 'h', 'a', 'n', 'g', 'e'],
        ) {
            return Ok(Command::AddExchange);
        } else if chars_eq(word, &vec!['s', 't', 'o', 'p']) {
            return Ok(Command::Stop);
        }
    }
    Err("Unknown command".to_string())
}

/// Whether the key a connecting client presents is the server's secret key.
pub fn key_matches(presented: &[u8], secret: &[u8]) -> (r: bool)
    ensures
        r == (presented@ == secret@),
{
    if presented.len() != secret.len() {
        return false;
    }
    let n = presented.len();
    for i in 0..n
        invariant
            n == presented@.len(),
            n == secret@.len(),
            forall|j: int| 0 <= j < i ==> presented@[j] == secret@[j],
    {
        if presented[i] != secret[i] {
            return false;
        }
    }
    assert(presented@ =~= secret@);
    true
}

/// The state of the server: paused and taking connections, running
/// (trading), or paused for good with no more connections taken.
#[derive(Debug, Clone, Copy, PartialEq, Eq, Structural)]
pub enum ServerState {
    Paused,
    Running,
    Closed,
}

/// What the server does on a command.
#[derive(Debug)]
pub enum ServerAction {
    /// Stop taking connections.
    StopAccepting,
    /// Add a new exchange.
    AddExchange,
    /// Stop taking connections, wire connections and exchanges together, and start them.
    Start,
    /// Stop the connections and exchanges and take connections again.
    Pause,
    /// Tell the operator the command does not apply now.
    Reply(String),
}

/// A command the server can take in `state`: once it has stopped taking
/// connections it can neither stop doing so again nor start.
pub open spec fn takes_command(state: ServerState, cmd: Command) -> bool {
    !(state == ServerState::Closed && (cmd == Command::Stop || cmd == Command::Play))
}

/// The state a command leads to, with the answer it gets: a paused server
/// stops taking connections, adds an exchange or starts; a running server
/// only pauses; a server that no longer takes connections only adds
/// exchanges; anything else is refused with a message that names the
/// current state.
pub open spec fn command_step(state: ServerState, cmd: Command) -> (ServerState, Option<Seq<char>>) {
    match state {
        ServerState::Paused => match cmd {
            Command::Stop => (ServerState::Closed, None),
            Command::AddExchange => (ServerState::Paused, None),
            Command::Play => (ServerState::Running, None),
            Command::Pause => (ServerState::Paused, Some("Command not Available. Server is Paused"@)),
        },
        ServerState::Running => match cmd {
            Command::Pause => (ServerState::Paused, None),
            _ => (ServerState::Running, Some("Command not available. Server is Running"@)),
        },
        ServerState::Closed => match cmd {
            Command::Pause => (ServerState::Closed, Some("Command not Available. Server is Paused"@)),
            _ => (ServerState::Closed, None),
        },
    }
}

/// Decides what the server does on an operator command.
pub fn on_command(state: ServerState, cmd: Command) -> (r: (ServerState, ServerAction))
    requires
        takes_command(state, cmd),
    ensures
        r.0 == command_step(state, cmd).0,
        match r.1 {
            ServerAction::Reply(s) => command_step(state, cmd).1 == Some(s@),
            ServerAction::StopAccepting => state == ServerState::Paused && cmd == Command::Stop,
            ServerAction::AddExchange => state != ServerState::Running && cmd == Command::AddExchange,
            ServerAction::Start => state == ServerState::Paused && cmd == Command::Play,
            ServerAction::Pause => state == ServerState::Running && cmd == Command::Pause,
        },
{
    match state {
        ServerState::Paused => match cmd {
            Command::Stop => (ServerState::Closed, ServerAction::StopAccepting),
            Command::AddExchange => (ServerState::Paused, ServerAction::AddExchange),
            Command::Play => (ServerState::Running, ServerAction::Start),
            Command::Pause => (
                ServerState::Paused,
                ServerAction::Reply("Command not Available. Server is Paused".to_string()),
            ),
        },
        ServerState::Running => match cmd {
            Command::Pause => (ServerState::Paused, ServerAction::Pause),
            _ => (
                ServerState::Running,
                ServerAction::Reply("Command not available. Server is Running".to_string()),
            ),
        },
        ServerState::Closed => match cmd {
            Command::Pause => (
                ServerState::Closed,
                ServerAction::Reply("Command not Available. Server is Paused".to_string()),
            ),
            _ => (ServerState::Closed, ServerAction::AddExchange),
        },
    }
}

/// What a new connection is told, in order: its account id, each exchange,
/// and that trading starts.
pub open spec fn greeting(account_id: AccountId, exchange_ids: Seq<ExchangeId>) -> Seq<ServerMessage> {
    seq![ServerMessage::System(SystemMessage::AccountId { account_id })] + exchange_ids.map_values(
        |e: ExchangeId| ServerMessage::System(SystemMessage::ExchangeAdded { exchange_id: e }),
    ) + seq![ServerMessage::System(SystemMessage::Start)]
}

/// The messages a connection of `account_id` gets when it starts.
pub fn connection_greeting(account_id: AccountId, exchange_ids: &Vec<ExchangeId>) -> (r: Vec<ServerMessage>)
    ensures
        r@ == greeting(account_id, exchange_ids@),
{
    let mut out: Vec<ServerMessage> = Vec::new();
    out.push(ServerMessage::System(SystemMessage::AccountId { account_id }));
    let n = exchange_ids.len();
    for i in 0..n
        invariant
            n == exchange_ids@.len(),
            out@ == seq![ServerMessage::System(SystemMessage::AccountId { account_id })]
                + exchange_ids@.take(i as int).map_values(
                |e: ExchangeId| ServerMessage::System(SystemMessage::ExchangeAdded { exchange_id: e }),
            ),
    {
        let ghost before = out@;
        out.push(ServerMessage::System(SystemMessage::ExchangeAdded { exchange_id: exchange_ids[i] }));
        assert(exchange_ids@.take(i + 1) =~= exchange_ids@.take(i as int).push(exchange_ids@[i as int]));
        assert(out@ =~= seq![ServerMessage::System(SystemMessage::AccountId { account_id })]
            + exchange_ids@.take(i + 1).map_values(
            |e: ExchangeId| ServerMessage::System(SystemMessage::ExchangeAdded { exchange_id: e }),
        ));
    }
    assert(exchange_ids@.take(n as int) =~= exchange_ids@);
    out.push(ServerMessage::System(SystemMessage::Start));
    out
}

/// The exchange message a client action of `account_id` becomes: a cancel
/// names the account; an insert is a bid when its flag is set.
pub open spec fn message_of(account_id: AccountId, action: ClientAction) -> Message {
    match action {
        ClientAction::CancelOrder { order_id } => Message::CancelOrder { order_id, account_id },
        ClientAction::InsertOrder { side, price, qty, client_order_id } => Message::InsertOrder {
            account_id,
            price,
            qty,
            client_order_id,
            side: if side {
                Side::Bid
            } else {
                Side::Ask
            },
        },
        ClientAction::End => Message::End,
    }
}

/// Turns a client action into an exchange message. A client's `End` has no
/// exchange message.
pub fn client_action_to_message(account_id: AccountId, action: ClientAction) -> (m: Message)
    requires
        !(action is End),
    ensures
        m == message_of(account_id, action),
{
    match action {
        ClientAction::CancelOrder { order_id } => Message::CancelOrder { order_id, account_id },
        ClientAction::InsertOrder { side, price, qty, client_order_id } => Message::InsertOrder {
            account_id,
            price,
            qty,
            client_order_id,
            side: match side {
                true => Side::Bid,
                false => Side::Ask,
            },
        },
        ClientAction::End => {
            proof {
                assert(false);
            }
            Message::End
        },
    }
}

/// A private confirmation addressed to the owner of an order.
#[derive(Debug, Clone, Copy, PartialEq, Eq, Structural)]
pub struct PrivateDelivery {
    pub account_id: AccountId,
    pub exchange_id: ExchangeId,
    pub message: ExchangePrivateMessage,
}

/// Numbers the events of one exchange and writes its public events and
/// private confirmations.
pub struct EventSequencer {
    exchange_id: ExchangeId,
    counter: u64,
}

/// The id after `id`, wrapping as an atomic counter does.
pub open spec fn next_event_id(id: u64) -> u64 {
    if id == u64::MAX {
        0
    } else {
        (id + 1) as u64
    }
}

impl EventSequencer {
    /// The exchange whose events these are.
    pub closed spec fn exchange(&self) -> ExchangeId {
        self.exchange_id
    }

    /// The exchange whose events these are.
    pub fn exchange_id(&self) -> (e: ExchangeId)
        ensures
            e == self.exchange(),
    {
        self.exchange_id
    }

    /// The id the next event gets.
    pub closed spec fn next_id(&self) -> u64 {
        self.counter
    }

    pub fn new(exchange_id: ExchangeId) -> (s: EventSequencer)
        ensures
            s.exchange() == exchange_id,
            s.next_id() == 0,
    {
        EventSequencer { exchange_id, counter: 0 }
    }

    fn take_id(&mut self) -> (id: u64)
        ensures
            id == old(self).counter,
            final(self).counter == next_event_id(old(self).counter),
            final(self).exchange() == old(self).exchange(),
    {
        let id = self.counter;
        self.counter = self.counter.wrapping_add(1);
        id
    }

    /// The public event and the owner's confirmation of an insert.
    pub fn insert_events(&mut self, order: &Order, message: &Message) -> (r: (
        ExchangeEvent,
        PrivateDelivery,
    ))
        requires
            message is InsertOrder,
        ensures
            final(self).exchange() == old(self).exchange(),
            final(self).next_id() == next_event_id(old(self).next_id()),
            r.0 == (ExchangeEvent::Insert {
                price: order.price,
                qty: order.qty,
                side: order.side.code(),
                order_id: order.order_id,
                id: old(self).next_id(),
            }),
            r.1 == (PrivateDelivery {
                account_id: order.account_id,
                exchange_id: old(self).exchange(),
                message: ExchangePrivateMessage::InsertConfirm {
                    client_order_id: message->client_order_id,
                    order_id: order.order_id,
                    id: old(self).next_id(),
                },
            }),
    {
        let id = self.take_id();
        let event = ExchangeEvent::Insert {
            price: order.price(),
            qty: order.qty(),
            side: order.side().as_i8(),
            id,
            order_id: order.order_id(),
        };
        let client_order_id = match message {
            Message::InsertOrder { client_order_id, .. } => *client_order_id,
            _ => {
                proof {
                    assert(false);
                }
                0
            },
        };
        let confirm = PrivateDelivery {
            account_id: order.account_id(),
            exchange_id: self.exchange_id,
            message: ExchangePrivateMessage::InsertConfirm {
                client_order_id,
                order_id: order.order_id(),
                id,
            },
        };
        (event, confirm)
    }

    /// The public event and the owner's confirmation of a cancel.
    pub fn cancel_events(&mut self, order: &Order, message: &Message) -> (r: (
        ExchangeEvent,
        PrivateDelivery,
    ))
        requires
            message is CancelOrder,
        ensures
            final(self).exchange() == old(self).exchange(),
            final(self).next_id() == next_event_id(old(self).next_id()),
            r.0 == (ExchangeEvent::Cancel { order_id: order.order_id, id: old(self).next_id() }),
            r.1 == (PrivateDelivery {
                account_id: order.account_id,
                exchange_id: old(self).exchange(),
                message: ExchangePrivateMessage::CancelConfirm {
                    order_id: order.order_id,
                    id: old(self).next_id(),
                },
            }),
    {
        let id = self.take_id();
        let event = ExchangeEvent::Cancel { order_id: order.order_id(), id };
        let confirm = PrivateDelivery {
            account_id: order.account_id(),
            exchange_id: self.exchange_id,
            message: ExchangePrivateMessage::CancelConfirm { order_id: order.order_id(), id },
        };
        (event, confirm)
    }

    /// The public event of a trade and the confirmations of its two orders,
    /// the ask's first.
    pub fn trade_events(
        &mut self,
        ask_order: &Order,
        bid_order: &Order,
        trade_price: Price,
        trade_volume: Quantity,
    ) -> (r: (ExchangeEvent, Vec<PrivateDelivery>))
        ensures
            final(self).exchange() == old(self).exchange(),
            final(self).next_id() == next_event_id(old(self).next_id()),
            r.0 == (ExchangeEvent::Trade {
                ask_id: ask_order.order_id,
                bid_id: bid_order.order_id,
                trade_price,
                trade_volume,
                id: old(self).next_id(),
            }),
            r.1@ == seq![
                PrivateDelivery {
                    account_id: ask_order.account_id,
                    exchange_id: old(self).exchange(),
                    message: ExchangePrivateMessage::TradeConfirm {
                        order_id: ask_order.order_id,
                        trade_price,
                        trade_volume,
                        side: Side::Ask.code(),
                        id: old(self).next_id(),
                    },
                },
                PrivateDelivery {
                    account_id: bid_order.account_id,
                    exchange_id: old(self).exchange(),
                    message: ExchangePrivateMessage::TradeConfirm {
                        order_id: bid_order.order_id,
                        trade_price,
                        trade_volume,
                        side: Side::Bid.code(),
                        id: old(self).next_id(),
                    },
                },
            ],
    {
        let id = self.take_id();
        let event = ExchangeEvent::Trade {
            ask_id: ask_order.order_id(),
            bid_id: bid_order.order_id(),
            trade_price,
            trade_volume,
            id,
        };
        let mut confirms: Vec<PrivateDelivery> = Vec::new();
        let sides = [(Side::Ask, *ask_order), (Side::Bid, *bid_order)];
        for k in 0..2usize
            invariant
                confirms@.len() == k,
                sides@ == seq![(Side::Ask, *ask_order), (Side::Bid, *bid_order)],
                forall|j: int|
                    0 <= j < k ==> #[trigger] confirms@[j] == (PrivateDelivery {
                        account_id: sides@[j].1.account_id,
                        exchange_id: self.exchange_id,
                        message: ExchangePrivateMessage::TradeConfirm {
                            order_id: sides@[j].1.order_id,
                            trade_price,
                            trade_volume,
                            side: sides@[j].0.code(),
                            id,
                        },
                    }),
        {
            let (side, order) = sides[k];
            confirms.push(
                PrivateDelivery {
                    account_id: order.account_id(),
                    exchange_id: self.exchange_id,
                    message: ExchangePrivateMessage::TradeConfirm {
                        order_id: order.order_id(),
                        trade_price,
                        trade_volume,
                        side: side.as_i8(),
                        id,
                    },
                },
            );
        }
        assert(confirms@ =~= seq![
            PrivateDelivery {
                account_id: ask_order.account_id,
                exchange_id: self.exchange_id,
                message: ExchangePrivateMessage::TradeConfirm {
                    order_id: ask_order.order_id,
                    trade_price,
                    trade_volume,
                    side: Side::Ask.code(),
                    id,
                },
            },
            PrivateDelivery {
                account_id: bid_order.account_id,
                exchange_id: self.exchange_id,
                message: ExchangePrivateMessage::TradeConfirm {
                    order_id: bid_order.order_id,
                    trade_price,
                    trade_volume,
                    side: Side::Bid.code(),
                    id,
                },
            },
        ]);
        (event, confirms)
    }
}

} // verus!
