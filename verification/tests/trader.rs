use exchange::client::{Client, InternalAction};
use exchange::protocol::{ClientAction, ClientMessage, ExchangeEvent, ExchangePrivateMessage, ServerMessage, SystemMessage};
use exchange::trader::Trader;
use exchange::types::Side;

fn client_with_exchanges(ids: &[u64]) -> Client {
    let mut c = Client::new();
    for &exchange_id in ids {
        c.handle_server_message(ServerMessage::System(SystemMessage::ExchangeAdded { exchange_id }));
    }
    c
}

#[test]
fn an_order_typed_without_a_size_takes_the_size_set_for_its_exchange() {
    let mut t = Trader::new(client_with_exchanges(&[4]));
    assert_eq!(t.volume(4), 1);
    assert_eq!(
        t.command(4, "bid 100"),
        Some(InternalAction::InsertOrder { side: Side::Bid, price: 100, qty: 1 })
    );
    assert_eq!(t.command(4, "volume 7"), Some(InternalAction::SetVolume(7)));
    assert_eq!(t.volume(4), 7);
    assert_eq!(t.volume(5), 1);
    assert_eq!(
        t.command(4, "  ask 101 "),
        Some(InternalAction::InsertOrder { side: Side::Ask, price: 101, qty: 7 })
    );
    assert_eq!(
        t.command(4, "ask 102 3"),
        Some(InternalAction::InsertOrder { side: Side::Ask, price: 102, qty: 3 })
    );
    assert_eq!(
        t.client.take_outbox(),
        vec![
            ClientMessage {
                exchange_id: 4,
                action: ClientAction::InsertOrder { side: true, price: 100, qty: 1, client_order_id: 0 },
            },
            ClientMessage {
                exchange_id: 4,
                action: ClientAction::InsertOrder { side: false, price: 101, qty: 7, client_order_id: 1 },
            },
            ClientMessage {
                exchange_id: 4,
                action: ClientAction::InsertOrder { side: false, price: 102, qty: 3, client_order_id: 2 },
            },
        ]
    );
}

#[test]
fn commands_that_queue_nothing() {
    let mut t = Trader::new(client_with_exchanges(&[1]));
    assert_eq!(t.command(1, "hit"), Some(InternalAction::Hit));
    assert_eq!(t.command(1, "mine"), Some(InternalAction::Lift));
    assert_eq!(t.command(1, "buy 100"), None);
    assert_eq!(t.command(1, "bid x"), None);
    assert_eq!(t.command(1, ""), None);
    assert!(t.client.take_outbox().is_empty());
    assert_eq!(t.client.next_client_order_id(), 0);
}

#[test]
fn cancel_all_cancels_each_of_our_orders_once() {
    let mut c = client_with_exchanges(&[1]);
    for (order_id, id) in [(10, 0), (11, 1)] {
        c.handle_server_message(ServerMessage::Private(
            1,
            ExchangePrivateMessage::InsertConfirm { client_order_id: id, order_id, id },
        ));
    }
    let mut t = Trader::new(c);
    assert_eq!(t.command(1, "cancel_all"), Some(InternalAction::CancelAll));
    let mut ids: Vec<u64> = t
        .client
        .take_outbox()
        .into_iter()
        .map(|m| match m.action {
            ClientAction::CancelOrder { order_id } => order_id,
            _ => panic!("expected a cancel"),
        })
        .collect();
    ids.sort();
    assert_eq!(ids, vec![10, 11]);
    // an exchange the client does not know: nothing to cancel
    assert_eq!(t.command(9, "cancel_all"), Some(InternalAction::CancelAll));
    assert!(t.client.take_outbox().is_empty());
}

#[test]
fn panels_come_by_rising_exchange_id_with_their_ladders() {
    let mut c = client_with_exchanges(&[7, 2, 5]);
    c.handle_server_message(ServerMessage::Event(5, ExchangeEvent::Insert { price: 100, qty: 4, side: 1, order_id: 0, id: 0 }));
    c.handle_server_message(ServerMessage::Event(5, ExchangeEvent::Insert { price: 103, qty: 2, side: -1, order_id: 1, id: 1 }));
    c.handle_server_message(ServerMessage::Private(
        5,
        ExchangePrivateMessage::TradeConfirm { order_id: 9, trade_price: 10, trade_volume: 3, side: 1, id: 2 },
    ));
    let t = Trader::new(c);
    let panels = t.panels();
    let ids: Vec<u64> = panels.iter().map(|p| p.exchange_id).collect();
    assert_eq!(ids, vec![2, 5, 7]);
    assert!(panels[0].rows.is_empty());
    assert_eq!(panels[1].rows, vec![(None, 103, Some(2)), (Some(4), 100, None)]);
    assert_eq!((panels[1].cash, panels[1].position), (-30, 3));
    assert_eq!((panels[2].cash, panels[2].position), (0, 0));
}
