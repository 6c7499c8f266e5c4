use exchange::bot::MarketMaker;
use exchange::client::Client;
use exchange::protocol::{ClientAction, ServerMessage, SystemMessage};

#[test]
fn a_requote_moves_theo_and_quotes_around_it() {
    let mut client = Client::new();
    client.update(vec![ServerMessage::System(SystemMessage::ExchangeAdded { exchange_id: 0 })]);
    let mut mm = MarketMaker::new(client, 10);
    assert_eq!(mm.theo, 100);
    mm.requote(true);
    assert_eq!(mm.theo, 101);
    let out = mm.client.take_outbox();
    assert_eq!(out.len(), 2);
    assert_eq!(out[0].action, ClientAction::InsertOrder { side: true, price: 100, qty: 10, client_order_id: 0 });
    assert_eq!(out[1].action, ClientAction::InsertOrder { side: false, price: 102, qty: 10, client_order_id: 1 });
    mm.requote(false);
    assert_eq!(mm.theo, 100);
    let out = mm.client.take_outbox();
    assert_eq!(out[0].action, ClientAction::InsertOrder { side: true, price: 99, qty: 10, client_order_id: 2 });
    assert_eq!(out[1].action, ClientAction::InsertOrder { side: false, price: 101, qty: 10, client_order_id: 3 });
}

#[test]
fn act_moves_theo_by_one_tick() {
    let mut mm = MarketMaker::new(Client::new(), 1000);
    mm.act();
    assert!(mm.theo == 101 || mm.theo == 99);
    let out = mm.client.take_outbox();
    assert_eq!(out.len(), 2);
    assert_eq!(out[0].action, ClientAction::InsertOrder { side: true, price: mm.theo - 1, qty: 1000, client_order_id: 0 });
    assert_eq!(out[1].action, ClientAction::InsertOrder { side: false, price: mm.theo + 1, qty: 1000, client_order_id: 1 });
}
