use exchange::client::ClientOrderBook;
use exchange::exchange::{Broadcaster, Exchange};
use exchange::protocol::ExchangeEvent;
use exchange::server::EventSequencer;
use exchange::types::{Message, Order, Price, Quantity, Side};

struct Publisher {
    sequencer: EventSequencer,
    events: Vec<ExchangeEvent>,
}

impl Broadcaster for Publisher {
    fn broadcast_insert(&mut self, order: &Order, message: &Message) {
        let (event, _) = self.sequencer.insert_events(order, message);
        self.events.push(event);
    }
    fn broadcast_cancel(&mut self, order: &Order, message: &Message) {
        let (event, _) = self.sequencer.cancel_events(order, message);
        self.events.push(event);
    }
    fn broadcast_trade(&mut self, ask_order: &Order, bid_order: &Order, trade_price: Price, trade_volume: Quantity) {
        let (event, _) = self.sequencer.trade_events(ask_order, bid_order, trade_price, trade_volume);
        self.events.push(event);
    }
}

fn insert(account_id: u64, side: Side, price: u64, qty: u64) -> Message {
    Message::InsertOrder { account_id, side, price, qty, client_order_id: 0 }
}

#[test]
fn a_mirror_fed_the_public_events_copies_the_exchange() {
    let publisher = Publisher { sequencer: EventSequencer::new(3), events: Vec::new() };
    let mut exchange = Exchange::new(publisher);
    let mut mirror = ClientOrderBook::new();
    let rounds = vec![
        vec![insert(1, Side::Bid, 100, 10), insert(2, Side::Bid, 101, 5), insert(1, Side::Ask, 104, 7)],
        vec![insert(3, Side::Ask, 100, 8)],
        vec![Message::CancelOrder { account_id: 1, order_id: 2 }, insert(2, Side::Bid, 105, 2)],
        vec![Message::CancelOrder { account_id: 9, order_id: 0 }, insert(3, Side::Ask, 99, 20)],
    ];
    for messages in rounds {
        exchange.run(messages);
        let events = std::mem::take(&mut exchange.broadcaster.events);
        for event in events {
            assert!(mirror.accepts_event(&event));
            mirror.handle_exchange_event(event);
        }
        assert_eq!(mirror.order_book.summarise(), exchange.summarise_book());
        for id in 0..8u64 {
            let theirs = exchange.order_book().get_order(id).map(|o| (o.side(), o.price(), o.qty(), o.order_id()));
            let ours = mirror.order_book.get_order(id).map(|o| (o.side(), o.price(), o.qty(), o.order_id()));
            assert_eq!(ours, theirs);
        }
    }
    assert_eq!(exchange.summarise_book(), (vec![], vec![(99, 11)]));
    assert_eq!(mirror.next_order_id, 6);
}
