use exchange::book::OrderBook;
use exchange::types::{Order, Side};

fn order(id: u64, side: Side, price: u64, qty: u64) -> Order {
    Order::new_order_with_order_id(7, price, qty, side, id)
}

#[test]
fn book_order_book() {}

#[test]
fn new_book_is_empty() {
    let book = OrderBook::new();
    assert_eq!(book.summarise(), (vec![], vec![]));
    assert_eq!(book.best_order(Side::Bid), None);
    assert_eq!(book.best_order(Side::Ask), None);
    assert!(!book.is_in_cross());
    let book2 = OrderBook::default();
    assert_eq!(book2.summarise(), (vec![], vec![]));
}

#[test]
fn levels_are_kept_in_price_order() {
    let mut book = OrderBook::new();
    book.insert_order(order(0, Side::Bid, 100, 5));
    book.insert_order(order(1, Side::Bid, 98, 1));
    book.insert_order(order(2, Side::Bid, 101, 2));
    book.insert_order(order(3, Side::Bid, 100, 4));
    book.insert_order(order(4, Side::Ask, 105, 3));
    book.insert_order(order(5, Side::Ask, 103, 6));
    book.insert_order(order(6, Side::Ask, 107, 1));
    let (bids, asks) = book.summarise();
    // bids from the worst (lowest) to the best, asks from the worst (highest) to the best
    assert_eq!(bids, vec![(98, 1), (100, 9), (101, 2)]);
    assert_eq!(asks, vec![(107, 1), (105, 3), (103, 6)]);
    assert_eq!(book.best_order(Side::Bid), Some(2));
    assert_eq!(book.best_order(Side::Ask), Some(5));
    assert!(!book.is_in_cross());
}

#[test]
fn orders_at_one_price_queue_in_arrival_order() {
    let mut book = OrderBook::new();
    book.insert_order(order(10, Side::Ask, 50, 1));
    book.insert_order(order(11, Side::Ask, 50, 2));
    book.insert_order(order(12, Side::Ask, 50, 3));
    assert_eq!(book.best_order(Side::Ask), Some(10));
    book.remove_order(10, 50, Side::Ask, 1);
    assert_eq!(book.best_order(Side::Ask), Some(11));
    assert_eq!(book.summarise().1, vec![(50, 5)]);
}

#[test]
fn get_order_finds_known_orders_only() {
    let mut book = OrderBook::new();
    book.insert_order(order(3, Side::Bid, 10, 4));
    let o = book.get_order(3).unwrap();
    assert_eq!(o.price(), 10);
    assert_eq!(o.qty(), 4);
    assert_eq!(o.side(), Side::Bid);
    assert_eq!(o.order_id(), 3);
    assert_eq!(o.account_id(), 7);
    assert!(book.get_order(4).is_none());
}

#[test]
fn removing_the_last_order_of_a_level_removes_the_level() {
    let mut book = OrderBook::new();
    book.insert_order(order(0, Side::Bid, 100, 5));
    book.insert_order(order(1, Side::Bid, 99, 5));
    book.remove_order(0, 100, Side::Bid, 5);
    assert_eq!(book.summarise().0, vec![(99, 5)]);
    assert!(book.get_order(0).is_none());
    assert_eq!(book.best_order(Side::Bid), Some(1));
}

#[test]
fn insert_then_remove_gives_back_the_book() {
    let mut book = OrderBook::new();
    book.insert_order(order(0, Side::Ask, 20, 5));
    book.insert_order(order(1, Side::Bid, 10, 5));
    let before = book.summarise();
    book.insert_order(order(2, Side::Ask, 20, 7));
    assert_eq!(book.summarise().1, vec![(20, 12)]);
    book.remove_order(2, 20, Side::Ask, 7);
    assert_eq!(book.summarise(), before);
    book.insert_order(order(3, Side::Ask, 25, 7));
    book.remove_order(3, 25, Side::Ask, 7);
    assert_eq!(book.summarise(), before);
    assert!(book.get_order(3).is_none());
}

#[test]
fn a_zero_volume_level_goes_when_any_order_leaves_it() {
    // the one input on which cancelling right after inserting does not give the book back
    let mut book = OrderBook::new();
    book.insert_order(order(0, Side::Bid, 10, 0));
    assert_eq!(book.summarise().0, vec![(10, 0)]);
    book.insert_order(order(1, Side::Bid, 10, 0));
    book.remove_order(1, 10, Side::Bid, 0);
    assert_eq!(book.summarise().0, vec![]);
    // the first order is still known, with quantity zero
    assert_eq!(book.get_order(0).unwrap().qty(), 0);
}

#[test]
fn match_order_fills_one_side_and_reduces_the_other() {
    let mut book = OrderBook::new();
    book.insert_order(order(0, Side::Bid, 101, 10));
    book.insert_order(order(1, Side::Ask, 100, 4));
    assert!(book.is_in_cross());
    book.match_order(0, 1, 4);
    assert_eq!(book.summarise(), (vec![(101, 6)], vec![]));
    assert_eq!(book.get_order(0).unwrap().qty(), 6);
    assert!(book.get_order(1).is_none());
    assert!(!book.is_in_cross());
}

#[test]
fn match_order_of_an_unknown_order_does_nothing() {
    let mut book = OrderBook::new();
    book.insert_order(order(0, Side::Bid, 101, 10));
    book.match_order(0, 9, 4);
    assert_eq!(book.summarise(), (vec![(101, 10)], vec![]));
}

#[test]
fn removing_an_unknown_order_leaves_the_book() {
    let mut book = OrderBook::new();
    book.insert_order(order(0, Side::Bid, 101, 10));
    book.remove_order(5, 101, Side::Bid, 3);
    assert_eq!(book.summarise(), (vec![(101, 10)], vec![]));
}

#[test]
fn level_room_checks_for_overflow() {
    let mut book = OrderBook::new();
    book.insert_order(order(0, Side::Bid, 101, u64::MAX - 1));
    assert!(book.level_has_room(Side::Bid, 101, 1));
    assert!(!book.level_has_room(Side::Bid, 101, 2));
    assert!(book.level_has_room(Side::Bid, 102, u64::MAX));
    assert!(book.level_has_room(Side::Ask, 101, u64::MAX));
}

#[test]
fn inserting_changes_the_best_only_when_the_price_beats_it() {
    let mut b = OrderBook::new();
    b.insert_order(order(0, Side::Bid, 100, 5));
    b.insert_order(order(1, Side::Ask, 104, 5));
    b.insert_order(order(2, Side::Bid, 99, 5));
    assert_eq!(b.best_order(Side::Bid), Some(0));
    b.insert_order(order(3, Side::Bid, 100, 5));
    assert_eq!(b.best_order(Side::Bid), Some(0));
    b.insert_order(order(4, Side::Bid, 101, 5));
    assert_eq!(b.best_order(Side::Bid), Some(4));
    assert_eq!(b.best_order(Side::Ask), Some(1));
    b.insert_order(order(5, Side::Ask, 103, 5));
    assert_eq!(b.best_order(Side::Ask), Some(5));
    assert_eq!(b.best_order(Side::Bid), Some(4));
}

#[test]
fn get_order_follows_the_history_of_changes() {
    let mut b = OrderBook::new();
    b.insert_order(order(0, Side::Bid, 100, 5));
    b.insert_order(order(1, Side::Ask, 100, 3));
    b.insert_order(order(2, Side::Bid, 99, 4));
    b.match_order(0, 1, 3);
    assert_eq!(b.get_order(0).map(|o| o.qty()), Some(2));
    assert_eq!(b.get_order(1), None);
    b.remove_order(2, 99, Side::Bid, 4);
    assert_eq!(b.get_order(2), None);
    let o = *b.get_order(0).unwrap();
    assert_eq!((o.side(), o.price(), o.order_id(), o.account_id()), (Side::Bid, 100, 0, 7));
}

#[test]
fn an_insert_adds_its_quantity_to_its_level_only() {
    let mut b = OrderBook::new();
    b.insert_order(order(0, Side::Bid, 100, 5));
    b.insert_order(order(1, Side::Bid, 98, 2));
    b.insert_order(order(2, Side::Ask, 103, 4));
    b.insert_order(order(3, Side::Bid, 100, 6));
    assert_eq!(b.summarise(), (vec![(98, 2), (100, 11)], vec![(103, 4)]));
    b.insert_order(order(4, Side::Bid, 99, 1));
    assert_eq!(b.summarise(), (vec![(98, 2), (99, 1), (100, 11)], vec![(103, 4)]));
}
