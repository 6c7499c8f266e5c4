use exchange::client::{parse_internal_action, Client, ClientOrderBook, InternalAction};
use exchange::protocol::{
    ClientAction, ClientMessage, ExchangeEvent, ExchangePrivateMessage, ServerMessage, SystemMessage,
};
use exchange::types::Side;

#[test]
fn the_mirror_follows_insert_trade_and_cancel_events() {
    let mut b = ClientOrderBook::new();
    let e1 = ExchangeEvent::Insert { price: 100, qty: 10, side: 1, order_id: 0, id: 0 };
    assert!(b.accepts_event(&e1));
    b.handle_exchange_event(e1);
    b.handle_exchange_event(ExchangeEvent::Insert { price: 99, qty: 4, side: -1, order_id: 1, id: 1 });
    assert_eq!(b.order_book.summarise(), (vec![(100, 10)], vec![(99, 4)]));
    // the mirror does not match by itself; the trade event does
    assert!(b.order_book.is_in_cross());
    b.handle_exchange_event(ExchangeEvent::Trade { ask_id: 1, bid_id: 0, trade_price: 100, trade_volume: 4, id: 2 });
    assert_eq!(b.order_book.summarise(), (vec![(100, 6)], vec![]));
    b.handle_exchange_event(ExchangeEvent::Cancel { order_id: 0, id: 3 });
    assert_eq!(b.order_book.summarise(), (vec![], vec![]));
    assert_eq!(b.next_order_id, 2);
}

#[test]
fn the_mirror_refuses_events_it_cannot_apply() {
    let b = ClientOrderBook::new();
    assert!(!b.accepts_event(&ExchangeEvent::Cancel { order_id: 3, id: 0 }));
    assert!(!b.accepts_event(&ExchangeEvent::Insert { price: 1, qty: 1, side: 0, order_id: 0, id: 0 }));
    let mut b = ClientOrderBook::new();
    b.handle_exchange_event(ExchangeEvent::Insert { price: 100, qty: 2, side: 1, order_id: 0, id: 0 });
    b.handle_exchange_event(ExchangeEvent::Insert { price: 99, qty: 4, side: -1, order_id: 1, id: 1 });
    assert!(!b.accepts_event(&ExchangeEvent::Trade { ask_id: 1, bid_id: 0, trade_price: 100, trade_volume: 3, id: 2 }));
    assert!(!b.accepts_event(&ExchangeEvent::Trade { ask_id: 0, bid_id: 1, trade_price: 100, trade_volume: 1, id: 2 }));
    assert!(b.accepts_event(&ExchangeEvent::Trade { ask_id: 1, bid_id: 0, trade_price: 100, trade_volume: 2, id: 2 }));
}

#[test]
fn fills_move_cash_and_position() {
    let mut b = ClientOrderBook::new();
    b.handle_exchange_private_message(ExchangePrivateMessage::InsertConfirm { client_order_id: 0, order_id: 5, id: 0 });
    b.handle_exchange_private_message(ExchangePrivateMessage::InsertConfirm { client_order_id: 1, order_id: 6, id: 1 });
    assert!(b.our_orders.contains(&5) && b.our_orders.contains(&6));
    b.handle_exchange_private_message(ExchangePrivateMessage::TradeConfirm { order_id: 5, trade_price: 100, trade_volume: 3, side: 1, id: 2 });
    assert_eq!(b.cash, -300);
    assert_eq!(b.position, 3);
    assert!(!b.our_orders.contains(&5));
    b.handle_exchange_private_message(ExchangePrivateMessage::TradeConfirm { order_id: 6, trade_price: 110, trade_volume: 2, side: -1, id: 3 });
    assert_eq!(b.cash, -80);
    assert_eq!(b.position, 1);
    b.handle_exchange_private_message(ExchangePrivateMessage::CancelConfirm { order_id: 6, id: 4 });
    assert!(b.our_orders.is_empty());
    assert!(!b.accepts_private_message(&ExchangePrivateMessage::TradeConfirm { order_id: 1, trade_price: 1, trade_volume: 1, side: 2, id: 5 }));
    assert!(!b.accepts_private_message(&ExchangePrivateMessage::TradeConfirm { order_id: 1, trade_price: u64::MAX, trade_volume: 2, side: 1, id: 5 }));
}

#[test]
fn a_client_queues_requests() {
    let mut c = Client::new();
    assert!(!c.start());
    assert_eq!(c.account_id(), None);
    c.update(vec![
        ServerMessage::System(SystemMessage::AccountId { account_id: 9 }),
        ServerMessage::System(SystemMessage::ExchangeAdded { exchange_id: 0 }),
        ServerMessage::System(SystemMessage::Start),
    ]);
    assert!(c.start());
    assert_eq!(c.account_id(), Some(9));
    assert!(c.books().contains_key(&0));
    c.limit_order(0, Side::Bid, 99, 10);
    c.limit_order(0, Side::Ask, 101, 10);
    let out = c.take_outbox();
    assert_eq!(
        out,
        vec![
            ClientMessage { exchange_id: 0, action: ClientAction::InsertOrder { side: true, price: 99, qty: 10, client_order_id: 0 } },
            ClientMessage { exchange_id: 0, action: ClientAction::InsertOrder { side: false, price: 101, qty: 10, client_order_id: 1 } },
        ]
    );
    assert!(c.take_outbox().is_empty());
    let events = vec![
        ServerMessage::Event(0, ExchangeEvent::Insert { price: 99, qty: 10, side: 1, order_id: 0, id: 0 }),
        ServerMessage::Private(0, ExchangePrivateMessage::InsertConfirm { client_order_id: 0, order_id: 0, id: 0 }),
        ServerMessage::Event(0, ExchangeEvent::Insert { price: 101, qty: 10, side: -1, order_id: 1, id: 1 }),
        ServerMessage::Private(0, ExchangePrivateMessage::InsertConfirm { client_order_id: 1, order_id: 1, id: 1 }),
    ];
    for m in &events {
        assert!(c.accepts(m));
    }
    c.update(events);
    assert_eq!(c.books()[&0].order_book.summarise(), (vec![(99, 10)], vec![(101, 10)]));
    assert_eq!(c.cancel_all(0), Some(()));
    let mut ids: Vec<u64> = c
        .take_outbox()
        .into_iter()
        .map(|m| match m.action {
            ClientAction::CancelOrder { order_id } => order_id,
            _ => panic!("expected a cancel"),
        })
        .collect();
    ids.sort();
    assert_eq!(ids, vec![0, 1]);
    assert_eq!(c.cancel_all(3), None);
    assert!(c.take_outbox().is_empty());
    let o = c.cancel_order(0, 1).unwrap();
    assert_eq!(o.price(), 101);
    assert_eq!(c.take_outbox(), vec![ClientMessage { exchange_id: 0, action: ClientAction::CancelOrder { order_id: 1 } }]);
    assert!(c.cancel_order(0, 7).is_none());
    assert!(!c.accepts(&ServerMessage::System(SystemMessage::End)));
    assert!(!c.accepts(&ServerMessage::Event(5, ExchangeEvent::Cancel { order_id: 0, id: 0 })));
}

#[test]
fn trader_commands_are_read() {
    assert_eq!(parse_internal_action("hit", 1), Some(InternalAction::Hit));
    assert_eq!(parse_internal_action(" yours ", 1), Some(InternalAction::Hit));
    assert_eq!(parse_internal_action("lift", 1), Some(InternalAction::Lift));
    assert_eq!(parse_internal_action("mine", 1), Some(InternalAction::Lift));
    assert_eq!(parse_internal_action("cancel_all", 1), Some(InternalAction::CancelAll));
    assert_eq!(parse_internal_action("bid 100 5", 1), Some(InternalAction::InsertOrder { side: Side::Bid, price: 100, qty: 5 }));
    assert_eq!(parse_internal_action("bid 100", 3), Some(InternalAction::InsertOrder { side: Side::Bid, price: 100, qty: 3 }));
    assert_eq!(parse_internal_action("ask 7 +2", 1), Some(InternalAction::InsertOrder { side: Side::Ask, price: 7, qty: 2 }));
    assert_eq!(parse_internal_action("ask 7", 4), Some(InternalAction::InsertOrder { side: Side::Ask, price: 7, qty: 4 }));
    assert_eq!(parse_internal_action("volume 25", 1), Some(InternalAction::SetVolume(25)));
    assert_eq!(parse_internal_action("cancel 101", 1), Some(InternalAction::CancelLevel { price: 101 }));
    assert_eq!(parse_internal_action("bid x", 1), None);
    assert_eq!(parse_internal_action("bid 1 2 3", 1), None);
    assert_eq!(parse_internal_action("ask -1", 1), None);
    assert_eq!(parse_internal_action("sell 5", 1), None);
    assert_eq!(parse_internal_action("", 1), None);
}
