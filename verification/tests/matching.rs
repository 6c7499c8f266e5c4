use exchange::exchange::{Broadcaster, Exchange, ExchangeOutput, NoBroadcaster};
use exchange::types::{Message, Order, Price, Quantity, Side};

fn insert(account_id: u64, side: Side, price: u64, qty: u64) -> Message {
    Message::InsertOrder { account_id, side, price, qty, client_order_id: 0 }
}

#[derive(Default)]
struct Recorder {
    inserts: Vec<u64>,
    cancels: Vec<u64>,
    trades: Vec<(u64, u64, u64, u64)>,
}

impl Broadcaster for Recorder {
    fn broadcast_insert(&mut self, order: &Order, _message: &Message) {
        self.inserts.push(order.order_id());
    }
    fn broadcast_cancel(&mut self, order: &Order, _message: &Message) {
        self.cancels.push(order.order_id());
    }
    fn broadcast_trade(&mut self, ask_order: &Order, bid_order: &Order, trade_price: Price, trade_volume: Quantity) {
        self.trades.push((ask_order.order_id(), bid_order.order_id(), trade_price, trade_volume));
    }
}

#[test]
fn exchange_order_book() {}

#[test]
fn exchange() {
    let broadcaster = NoBroadcaster::default();
    let mut exchange: Exchange<NoBroadcaster> = Exchange::new(broadcaster);
    let ended = exchange.run(vec![
        Message::InsertOrder { account_id: 0, side: Side::Bid, price: 100, qty: 10, client_order_id: 0 },
        Message::InsertOrder { account_id: 0, side: Side::Bid, price: 101, qty: 10, client_order_id: 0 },
        Message::InsertOrder { account_id: 0, side: Side::Ask, price: 102, qty: 10, client_order_id: 0 },
        Message::InsertOrder { account_id: 0, side: Side::Ask, price: 100, qty: 11, client_order_id: 0 },
        Message::End,
    ]);
    assert!(ended);

    let expected = (vec![(100, 9)], vec![(102, 10)]);
    assert_eq!(exchange.summarise_book(), expected);
}

#[test]
fn run_stops_at_end() {
    let mut exchange = Exchange::new(NoBroadcaster::new());
    let ended = exchange.run(vec![insert(1, Side::Bid, 10, 1), Message::End, insert(1, Side::Bid, 11, 1)]);
    assert!(ended);
    assert_eq!(exchange.summarise_book(), (vec![(10, 1)], vec![]));
    let ended = exchange.run(vec![insert(1, Side::Bid, 12, 1)]);
    assert!(!ended);
    assert_eq!(exchange.summarise_book(), (vec![(10, 1), (12, 1)], vec![]));
}

#[test]
fn trade_price_is_that_of_the_resting_order() {
    // the ask rests first: an aggressive bid trades at the ask's price
    let mut ex = Exchange::new(NoBroadcaster::new());
    ex.process_message(insert(1, Side::Ask, 100, 5));
    let out = ex.process_message(insert(2, Side::Bid, 105, 5));
    assert_eq!(out.len(), 2);
    match out[1] {
        ExchangeOutput::Trade { trade_price, trade_volume, ask_order, bid_order } => {
            assert_eq!(trade_price, 100);
            assert_eq!(trade_volume, 5);
            assert_eq!(ask_order.order_id(), 0);
            assert_eq!(bid_order.order_id(), 1);
        }
        _ => panic!("expected a trade"),
    }
    assert_eq!(ex.summarise_book(), (vec![], vec![]));

    // the bid rests first: an aggressive ask trades at the bid's price
    let mut ex = Exchange::new(NoBroadcaster::new());
    ex.process_message(insert(1, Side::Bid, 105, 5));
    let out = ex.process_message(insert(2, Side::Ask, 100, 3));
    match out[1] {
        ExchangeOutput::Trade { trade_price, trade_volume, .. } => {
            assert_eq!(trade_price, 105);
            assert_eq!(trade_volume, 3);
        }
        _ => panic!("expected a trade"),
    }
    assert_eq!(ex.summarise_book(), (vec![(105, 2)], vec![]));
}

#[test]
fn an_aggressive_order_sweeps_levels_best_first() {
    let mut ex = Exchange::new(Recorder::default());
    ex.run(vec![
        insert(1, Side::Ask, 103, 2),
        insert(1, Side::Ask, 101, 2),
        insert(1, Side::Ask, 102, 2),
        insert(2, Side::Bid, 102, 5),
    ]);
    assert_eq!(ex.broadcaster.inserts, vec![0, 1, 2, 3]);
    assert_eq!(ex.broadcaster.trades, vec![(1, 3, 101, 2), (2, 3, 102, 2)]);
    // one unit of the bid is left at 102, below the remaining ask at 103
    assert_eq!(ex.summarise_book(), (vec![(102, 1)], vec![(103, 2)]));
    assert!(!ex.order_book().is_in_cross());
}

#[test]
fn cancels_only_come_from_the_owner() {
    let mut ex = Exchange::new(Recorder::default());
    ex.run(vec![insert(1, Side::Bid, 50, 4), Message::CancelOrder { order_id: 0, account_id: 2 }]);
    assert_eq!(ex.summarise_book(), (vec![(50, 4)], vec![]));
    assert!(ex.broadcaster.cancels.is_empty());
    ex.run(vec![Message::CancelOrder { order_id: 0, account_id: 1 }]);
    assert_eq!(ex.summarise_book(), (vec![], vec![]));
    assert_eq!(ex.broadcaster.cancels, vec![0]);
    // a cancel of an unknown order does nothing
    let out = ex.process_message(Message::CancelOrder { order_id: 9, account_id: 1 });
    assert!(out.is_empty());
}

#[test]
fn process_message_reports_the_insert_first() {
    let mut ex = Exchange::new(NoBroadcaster::new());
    let m = insert(4, Side::Bid, 10, 3);
    let out = ex.process_message(m);
    assert_eq!(out.len(), 1);
    match out[0] {
        ExchangeOutput::Insert { order, message } => {
            assert_eq!(order, Order::new_order_with_order_id(4, 10, 3, Side::Bid, 0));
            assert_eq!(message, m);
        }
        _ => panic!("expected an insert"),
    }
    assert!(ex.process_message(Message::End).is_empty());
}

#[test]
fn accepts_refuses_a_volume_overflow() {
    let mut ex = Exchange::new(NoBroadcaster::new());
    let big = insert(1, Side::Bid, 10, u64::MAX);
    assert!(ex.accepts(&big));
    ex.process_message(big);
    assert!(!ex.accepts(&insert(1, Side::Bid, 10, 1)));
    assert!(ex.accepts(&insert(1, Side::Bid, 11, 1)));
    assert!(ex.accepts(&Message::End));
    assert!(ex.accepts(&Message::CancelOrder { order_id: 0, account_id: 1 }));
}

#[test]
fn an_incoming_ask_is_the_aggressor_of_every_trade_it_sets_off() {
    let mut ex = Exchange::new(NoBroadcaster::new());
    for m in [insert(1, Side::Bid, 99, 3), insert(2, Side::Bid, 100, 4), insert(3, Side::Bid, 100, 1), insert(1, Side::Ask, 104, 2)] {
        ex.process_message(m);
    }
    let out = ex.process_message(insert(4, Side::Ask, 99, 10));
    let mut traded = 0;
    for t in &out[1..] {
        match *t {
            ExchangeOutput::Trade { ask_order, bid_order, trade_price, trade_volume } => {
                assert_eq!(ask_order.order_id(), 4);
                assert!(bid_order.order_id() < 4);
                assert_eq!(trade_price, bid_order.price());
                traded += trade_volume;
            }
            _ => panic!("expected a trade"),
        }
    }
    assert_eq!(out.len(), 4);
    // 8 units traded, 2 rest at 99
    assert_eq!(traded, 8);
    assert_eq!(ex.order_book().get_order(4).map(|o| o.qty()), Some(2));
    assert_eq!(traded + 2, 10);
    assert_eq!(ex.summarise_book(), (vec![], vec![(104, 2), (99, 2)]));
}
