use exchange::protocol::{ClientAction, ExchangeEvent, ExchangePrivateMessage, ServerMessage, SystemMessage};
use exchange::server::{
    client_action_to_message, connection_greeting, on_command, parse_command, Command, EventSequencer,
    ServerAction, ServerState,
};
use exchange::types::{Message, Order, Side};

#[test]
fn parse_command_reads_single_words() {
    assert_eq!(parse_command("play"), Ok(Command::Play));
    assert_eq!(parse_command("  pause \n"), Ok(Command::Pause));
    assert_eq!(parse_command("add_exchange"), Ok(Command::AddExchange));
    assert_eq!(parse_command("stop"), Ok(Command::Stop));
    assert_eq!(parse_command("stop now"), Err("Unknown command".to_string()));
    assert_eq!(parse_command("Play"), Err("Unknown command".to_string()));
    assert_eq!(parse_command(""), Err("Unknown command".to_string()));
}

#[test]
fn a_paused_server_stops_adds_or_starts() {
    assert!(matches!(on_command(ServerState::Paused, Command::Stop), (ServerState::Closed, ServerAction::StopAccepting)));
    assert!(matches!(on_command(ServerState::Paused, Command::AddExchange), (ServerState::Paused, ServerAction::AddExchange)));
    assert!(matches!(on_command(ServerState::Paused, Command::Play), (ServerState::Running, ServerAction::Start)));
    match on_command(ServerState::Paused, Command::Pause) {
        (ServerState::Paused, ServerAction::Reply(s)) => assert_eq!(s, "Command not Available. Server is Paused"),
        _ => panic!("expected a reply"),
    }
}

#[test]
fn a_running_server_only_pauses() {
    assert!(matches!(on_command(ServerState::Running, Command::Pause), (ServerState::Paused, ServerAction::Pause)));
    for c in [Command::Stop, Command::Play, Command::AddExchange] {
        match on_command(ServerState::Running, c) {
            (ServerState::Running, ServerAction::Reply(s)) => assert_eq!(s, "Command not available. Server is Running"),
            _ => panic!("expected a reply"),
        }
    }
}

#[test]
fn a_server_that_stopped_taking_connections_still_adds_exchanges() {
    assert!(matches!(on_command(ServerState::Closed, Command::AddExchange), (ServerState::Closed, ServerAction::AddExchange)));
    match on_command(ServerState::Closed, Command::Pause) {
        (ServerState::Closed, ServerAction::Reply(s)) => assert_eq!(s, "Command not Available. Server is Paused"),
        _ => panic!("expected a reply"),
    }
}

#[test]
fn a_connection_is_greeted_with_its_account_and_exchanges() {
    let msgs = connection_greeting(7, &vec![0, 3]);
    assert_eq!(
        msgs,
        vec![
            ServerMessage::System(SystemMessage::AccountId { account_id: 7 }),
            ServerMessage::System(SystemMessage::ExchangeAdded { exchange_id: 0 }),
            ServerMessage::System(SystemMessage::ExchangeAdded { exchange_id: 3 }),
            ServerMessage::System(SystemMessage::Start),
        ]
    );
    assert_eq!(connection_greeting(1, &vec![]).len(), 2);
}

#[test]
fn client_actions_become_exchange_messages() {
    assert_eq!(
        client_action_to_message(5, ClientAction::CancelOrder { order_id: 9 }),
        Message::CancelOrder { order_id: 9, account_id: 5 }
    );
    assert_eq!(
        client_action_to_message(5, ClientAction::InsertOrder { side: true, price: 10, qty: 2, client_order_id: 8 }),
        Message::InsertOrder { account_id: 5, side: Side::Bid, price: 10, qty: 2, client_order_id: 8 }
    );
    assert_eq!(
        client_action_to_message(5, ClientAction::InsertOrder { side: false, price: 10, qty: 2, client_order_id: 8 }),
        Message::InsertOrder { account_id: 5, side: Side::Ask, price: 10, qty: 2, client_order_id: 8 }
    );
}

#[test]
fn the_sequencer_numbers_events_and_writes_confirmations() {
    let mut seq = EventSequencer::new(4);
    assert_eq!(seq.exchange_id(), 4);
    let bid = Order::new_order_with_order_id(1, 100, 5, Side::Bid, 10);
    let ask = Order::new_order_with_order_id(2, 99, 3, Side::Ask, 11);
    let m = Message::InsertOrder { account_id: 1, side: Side::Bid, price: 100, qty: 5, client_order_id: 77 };
    let (e, p) = seq.insert_events(&bid, &m);
    assert_eq!(e, ExchangeEvent::Insert { price: 100, qty: 5, side: 1, order_id: 10, id: 0 });
    assert_eq!(p.account_id, 1);
    assert_eq!(p.exchange_id, 4);
    assert_eq!(p.message, ExchangePrivateMessage::InsertConfirm { client_order_id: 77, order_id: 10, id: 0 });
    let (e, ps) = seq.trade_events(&ask, &bid, 100, 3);
    assert_eq!(e, ExchangeEvent::Trade { ask_id: 11, bid_id: 10, trade_price: 100, trade_volume: 3, id: 1 });
    assert_eq!(ps.len(), 2);
    assert_eq!(ps[0].account_id, 2);
    assert_eq!(ps[0].message, ExchangePrivateMessage::TradeConfirm { order_id: 11, trade_price: 100, trade_volume: 3, side: -1, id: 1 });
    assert_eq!(ps[1].account_id, 1);
    assert_eq!(ps[1].message, ExchangePrivateMessage::TradeConfirm { order_id: 10, trade_price: 100, trade_volume: 3, side: 1, id: 1 });
    let c = Message::CancelOrder { order_id: 10, account_id: 1 };
    let (e, p) = seq.cancel_events(&bid, &c);
    assert_eq!(e, ExchangeEvent::Cancel { order_id: 10, id: 2 });
    assert_eq!(p.message, ExchangePrivateMessage::CancelConfirm { order_id: 10, id: 2 });
}
