use exchange::types::{Message, Order, Side};

#[test]
fn negating_a_side_gives_the_other() {
    assert_eq!(-Side::Bid, Side::Ask);
    assert_eq!(-Side::Ask, Side::Bid);
    assert_eq!(-(-Side::Bid), Side::Bid);
    assert_eq!(-(-Side::Ask), Side::Ask);
}

#[test]
fn side_codes() {
    assert_eq!(Side::Bid.as_i8(), 1);
    assert_eq!(Side::Ask.as_i8(), -1);
    assert_eq!(Side::from_i8(1), Some(Side::Bid));
    assert_eq!(Side::from_i8(-1), Some(Side::Ask));
    assert_eq!(Side::from_i8(0), None);
    assert_eq!(Side::from_i8(2), None);
}

#[test]
fn new_order_takes_ids_from_the_counter() {
    let mut next = 5u64;
    let a = Order::new_order(1, 100, 10, Side::Bid, &mut next);
    let b = Order::new_order(2, 101, 11, Side::Ask, &mut next);
    assert_eq!(a.order_id(), 5);
    assert_eq!(b.order_id(), 6);
    assert_eq!(next, 7);
    assert_eq!(a.account_id(), 1);
    assert_eq!(b.price(), 101);
    assert_eq!(b.qty(), 11);
    assert_eq!(b.side(), Side::Ask);
    let mut last = u64::MAX;
    let c = Order::new_order(0, 1, 1, Side::Bid, &mut last);
    assert_eq!(c.order_id(), u64::MAX);
    assert_eq!(last, 0);
}

#[test]
fn new_order_with_order_id_keeps_the_id() {
    let o = Order::new_order_with_order_id(3, 100, 10, Side::Bid, 42);
    assert_eq!(o.order_id(), 42);
    assert_eq!(o.account_id(), 3);
    let m = Message::End;
    assert_eq!(m, Message::End);
}
