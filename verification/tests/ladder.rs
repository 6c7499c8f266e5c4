use exchange::book::OrderBook;
use exchange::ladder::ladder;
use exchange::types::{Order, Side};

#[test]
fn the_ladder_runs_from_the_highest_price_down() {
    let bids = vec![(98, 4), (100, 10)];
    let asks = vec![(103, 2), (101, 7)];
    assert_eq!(
        ladder(&bids, &asks),
        vec![(None, 103, Some(2)), (None, 101, Some(7)), (Some(10), 100, None), (Some(4), 98, None)]
    );
}

#[test]
fn a_price_quoted_on_both_sides_takes_one_row() {
    let bids = vec![(100, 3)];
    let asks = vec![(100, 5), (102, 1)];
    assert_eq!(ladder(&bids, &asks), vec![(None, 102, Some(1)), (Some(3), 100, Some(5))]);
}

#[test]
fn the_first_level_at_a_price_gives_its_volume() {
    let bids = vec![(100, 3), (100, 9), (99, 1)];
    assert_eq!(ladder(&bids, &vec![]), vec![(Some(3), 100, None), (Some(1), 99, None)]);
}

#[test]
fn an_empty_book_has_an_empty_ladder() {
    assert_eq!(ladder(&vec![], &vec![]), vec![]);
}

#[test]
fn the_ladder_of_a_summarised_book() {
    let mut book = OrderBook::new();
    let mut next = 0;
    for (side, price, qty) in [(Side::Bid, 100, 5), (Side::Bid, 99, 2), (Side::Bid, 100, 1), (Side::Ask, 104, 6)] {
        book.insert_order(Order::new_order(1, price, qty, side, &mut next));
    }
    let (bids, asks) = book.summarise();
    assert_eq!(ladder(&bids, &asks), vec![(None, 104, Some(6)), (Some(6), 100, None), (Some(2), 99, None)]);
}
