//! The limit order book: price levels kept in price order on each side,
//! each level a FIFO queue of order ids, and the orders themselves by id.
use std::collections::HashMap;
use std::collections::VecDeque;
use vstd::prelude::*;

use crate::types::{Order, OrderId, Price, Quantity, Side};

verus! {

// ---------------------------------------------------------------------------
// The mathematical model of a book
// ---------------------------------------------------------------------------
/// A price level as the specifications see it: its price and the ids of the
/// orders resting there, oldest first.
pub struct LevelView {
    pub price: Price,
    pub orders: Seq<OrderId>,
}

/// A book as the specifications see it. On each side the levels run from the
/// worst price to the best one, so the best level is the last: bids by rising
/// price, asks by falling price.
pub struct BookView {
    pub bids: Seq<LevelView>,
    pub asks: Seq<LevelView>,
    pub orders: Map<OrderId, Order>,
}

/// On `side`, a level at `level_price` comes no later than a level at `price`:
/// an order at `price` joins that level or a level after it.
pub open spec fn behind(side: Side, level_price: Price, price: Price) -> bool {
    match side {
        Side::Bid => level_price <= price,
        Side::Ask => level_price >= price,
    }
}

/// On `side`, price `a` is strictly better than price `b`.
pub open spec fn better(side: Side, a: Price, b: Price) -> bool {
    match side {
        Side::Bid => a > b,
        Side::Ask => a < b,
    }
}

/// Each level has a strictly better price than every level before it.
pub open spec fn sorted_levels(levels: Seq<LevelView>, side: Side) -> bool {
    forall|i: int, j: int|
        #![trigger levels[i], levels[j]]
        0 <= i < j < levels.len() ==> better(side, levels[j].price, levels[i].price)
}

/// The last level that is `behind` `price`, searching from the best level
/// down; `None` when every level is better than `price`.
pub open spec fn search(levels: Seq<LevelView>, price: Price, side: Side) -> Option<int>
    decreases levels.len(),
{
    if levels.len() == 0 {
        None
    } else if behind(side, levels.last().price, price) {
        Some(levels.len() - 1)
    } else {
        search(levels.drop_last(), price, side)
    }
}

/// The quantity of order `id`, zero for an unknown id.
pub open spec fn qty_of(orders: Map<OrderId, Order>, id: OrderId) -> nat {
    if orders.contains_key(id) {
        orders[id].qty as nat
    } else {
        0
    }
}

/// The total quantity of the orders `ids`.
pub open spec fn volume(ids: Seq<OrderId>, orders: Map<OrderId, Order>) -> nat
    decreases ids.len(),
{
    if ids.len() == 0 {
        0
    } else {
        volume(ids.drop_last(), orders) + qty_of(orders, ids.last())
    }
}

/// Some level of `levels` holds order `id`.
pub open spec fn level_holds(levels: Seq<LevelView>, id: OrderId) -> bool {
    exists|i: int| 0 <= i < levels.len() && #[trigger] levels[i].orders.contains(id)
}

/// The levels of one side are sorted, non-empty, free of repeated ids, hold
/// only known orders of their own side and price, and have a volume that fits
/// a `u64`.
pub open spec fn levels_wf(levels: Seq<LevelView>, side: Side, orders: Map<OrderId, Order>) -> bool {
    &&& sorted_levels(levels, side)
    &&& forall|i: int|
        0 <= i < levels.len() ==> {
            &&& (#[trigger] levels[i]).orders.len() > 0
            &&& levels[i].orders.no_duplicates()
            &&& volume(levels[i].orders, orders) <= u64::MAX
        }
    &&& forall|i: int, j: int|
        0 <= i < levels.len() && 0 <= j < levels[i].orders.len() ==> {
            let id = #[trigger] levels[i].orders[j];
            &&& orders.contains_key(id)
            &&& orders[id].side == side
            &&& orders[id].price == levels[i].price
        }
}

/// A fresh level at `price` holding the single order `id`.
pub open spec fn new_level(price: Price, id: OrderId) -> LevelView {
    LevelView { price, orders: seq![id] }
}

/// The levels of `order.side` once `order` has joined them: at the back of
/// the queue of its price, or in a new level placed in price order.
pub open spec fn insert_into_levels(levels: Seq<LevelView>, order: Order) -> Seq<LevelView> {
    match search(levels, order.price, order.side) {
        Some(k) => if levels[k].price == order.price {
            levels.update(
                k,
                LevelView { price: order.price, orders: levels[k].orders.push(order.order_id) },
            )
        } else {
            levels.insert(k + 1, new_level(order.price, order.order_id))
        },
        None => levels.insert(0, new_level(order.price, order.order_id)),
    }
}

/// The levels of one side once order `id` is taken out at `price`: the level
/// found by `search` loses the order, and goes when its volume under the
/// orders that remain (`orders_after`) is zero.
pub open spec fn remove_from_levels(
    levels: Seq<LevelView>,
    id: OrderId,
    price: Price,
    side: Side,
    orders_after: Map<OrderId, Order>,
) -> Seq<LevelView> {
    match search(levels, price, side) {
        None => levels,
        Some(k) => {
            let ids = levels[k].orders.remove_value(id);
            if volume(ids, orders_after) == 0 {
                levels.remove(k)
            } else {
                levels.update(k, LevelView { price: levels[k].price, orders: ids })
            }
        },
    }
}

/// A book with no levels and no orders.
pub open spec fn empty_book() -> BookView {
    BookView { bids: Seq::empty(), asks: Seq::empty(), orders: Map::empty() }
}

/// The (price, volume) pairs of a side, in the order of its levels.
pub open spec fn summary(levels: Seq<LevelView>, orders: Map<OrderId, Order>) -> Seq<(u64, u64)> {
    Seq::new(levels.len(), |i: int| (levels[i].price, volume(levels[i].orders, orders) as u64))
}

impl BookView {
    pub open spec fn levels(self, side: Side) -> Seq<LevelView> {
        match side {
            Side::Bid => self.bids,
            Side::Ask => self.asks,
        }
    }

    /// This book with the levels of `side` replaced and the orders replaced.
    pub open spec fn with_side(self, side: Side, levels: Seq<LevelView>, orders: Map<OrderId, Order>) -> BookView {
        match side {
            Side::Bid => BookView { bids: levels, asks: self.asks, orders },
            Side::Ask => BookView { bids: self.bids, asks: levels, orders },
        }
    }

    /// The book invariant. Besides `levels_wf` on both sides: the orders are
    /// finitely many and filed under their own ids, and every order with a
    /// positive quantity rests in a level of its side.
    pub open spec fn wf(self) -> bool {
        &&& levels_wf(self.bids, Side::Bid, self.orders)
        &&& levels_wf(self.asks, Side::Ask, self.orders)
        &&& self.orders.dom().finite()
        &&& forall|id: OrderId| #[trigger]
            self.orders.contains_key(id) ==> self.orders[id].order_id == id
        &&& forall|id: OrderId| #[trigger]
            self.orders.contains_key(id) && self.orders[id].qty > 0 ==> level_holds(
                self.levels(self.orders[id].side),
                id,
            )
    }

    /// `order` may join the book: its id is new, and the level of its price,
    /// if there is one, can take its quantity without overflow. An order
    /// under an id already in the book would replace the filed order while
    /// the old id stays queued in its level, putting the orders and the
    /// levels out of step; such an insert is left out.
    pub open spec fn can_insert(self, order: Order) -> bool {
        &&& !self.orders.contains_key(order.order_id)
        &&& forall|k: int|
            0 <= k < self.levels(order.side).len() && #[trigger] self.levels(order.side)[k].price
                == order.price ==> volume(self.levels(order.side)[k].orders, self.orders)
                + order.qty <= u64::MAX
    }

    /// The book once `order` has joined it.
    pub open spec fn insert(self, order: Order) -> BookView {
        self.with_side(
            order.side,
            insert_into_levels(self.levels(order.side), order),
            self.orders.insert(order.order_id, order),
        )
    }

    /// The arguments of a removal describe the order they name, if it is
    /// known. A removal with another price, side or quantity would take the
    /// order off file but leave it queued, or take the wrong volume off its
    /// level, putting the orders and the levels out of step; it is left out.
    pub open spec fn remove_ok(self, id: OrderId, price: Price, side: Side, qty: Quantity) -> bool {
        self.orders.contains_key(id) ==> {
            &&& self.orders[id].price == price
            &&& self.orders[id].side == side
            &&& self.orders[id].qty == qty
        }
    }

    /// The book once order `id` is taken out of `side` at `price`.
    pub open spec fn remove(self, id: OrderId, price: Price, side: Side) -> BookView {
        let orders = self.orders.remove(id);
        self.with_side(side, remove_from_levels(self.levels(side), id, price, side, orders), orders)
    }

    /// The book once the quantity of order `id` is lowered by `volume`.
    pub open spec fn reduce(self, id: OrderId, volume: Quantity) -> BookView {
        let o = self.orders[id];
        BookView {
            bids: self.bids,
            asks: self.asks,
            orders: self.orders.insert(
                id,
                Order {
                    account_id: o.account_id,
                    side: o.side,
                    price: o.price,
                    qty: (o.qty - volume) as u64,
                    order_id: o.order_id,
                },
            ),
        }
    }

    /// A trade of `volume` between a known bid and a known ask is possible:
    /// each is on its side and has at least `volume` left. A trade between
    /// orders of the wrong sides, or of more than an order has left, would
    /// look for the orders on the wrong side or underflow their quantities,
    /// putting the orders and the levels out of step; it is left out.
    pub open spec fn match_ok(self, bid_id: OrderId, ask_id: OrderId, volume: Quantity) -> bool {
        self.orders.contains_key(bid_id) && self.orders.contains_key(ask_id) ==> {
            &&& self.orders[bid_id].side == Side::Bid
            &&& self.orders[ask_id].side == Side::Ask
            &&& volume <= self.orders[bid_id].qty
            &&& volume <= self.orders[ask_id].qty
        }
    }

    /// The book once a trade of `volume` between `bid_id` and `ask_id` is
    /// applied: an order filled completely leaves the book, the other loses
    /// `volume`. Nothing happens unless both orders are known.
    pub open spec fn match_orders(self, bid_id: OrderId, ask_id: OrderId, volume: Quantity) -> BookView {
        if self.orders.contains_key(bid_id) && self.orders.contains_key(ask_id) {
            let bid = self.orders[bid_id];
            let ask = self.orders[ask_id];
            let after_bid = if bid.qty == volume {
                self.remove(bid_id, bid.price, Side::Bid)
            } else {
                self.reduce(bid_id, volume)
            };
            if ask.qty == volume {
                after_bid.remove(ask_id, ask.price, Side::Ask)
            } else {
                after_bid.reduce(ask_id, volume)
            }
        } else {
            self
        }
    }

    /// The id at the front of the best level of `side`, if the side has a level.
    pub open spec fn best(self, side: Side) -> Option<OrderId> {
        if self.levels(side).len() == 0 {
            None
        } else {
            Some(self.levels(side).last().orders[0])
        }
    }

    /// The best bid is at or above the best ask.
    pub open spec fn in_cross(self) -> bool {
        &&& self.bids.len() > 0
        &&& self.asks.len() > 0
        &&& self.bids.last().price >= self.asks.last().price
    }
}

// ---------------------------------------------------------------------------
// Lemmas on the model
// ---------------------------------------------------------------------------
/// `search` finds the last level behind `price`.
pub proof fn lemma_search(levels: Seq<LevelView>, price: Price, side: Side)
    ensures
        match search(levels, price, side) {
            Some(k) => {
                &&& 0 <= k < levels.len()
                &&& behind(side, levels[k].price, price)
                &&& forall|j: int| k < j < levels.len() ==> !behind(side, #[trigger] levels[j].price, price)
            },
            None => forall|j: int| 0 <= j < levels.len() ==> !behind(side, #[trigger] levels[j].price, price),
        },
    decreases levels.len(),
{
    if levels.len() > 0 && !behind(side, levels.last().price, price) {
        lemma_search(levels.drop_last(), price, side);
        assert forall|j: int| 0 <= j < levels.len() - 1 implies levels.drop_last()[j] == levels[j] by {}
    }
}

/// In sorted levels, a level at exactly `price` is the one `search` finds.
pub proof fn lemma_search_exact(levels: Seq<LevelView>, side: Side, k: int)
    requires
        sorted_levels(levels, side),
        0 <= k < levels.len(),
    ensures
        search(levels, levels[k].price, side) == Some(k),
{
    lemma_search(levels, levels[k].price, side);
    match search(levels, levels[k].price, side) {
        Some(i) => {
            if i < k {
                assert(better(side, levels[k].price, levels[i].price));
            } else if i > k {
                assert(better(side, levels[i].price, levels[k].price));
            }
        },
        None => {
            assert(!behind(side, levels[k].price, levels[k].price));
        },
    }
}

/// The volume of `ids` depends only on the quantities of those ids.
pub proof fn lemma_volume_frame(ids: Seq<OrderId>, m1: Map<OrderId, Order>, m2: Map<OrderId, Order>)
    requires
        forall|j: int| 0 <= j < ids.len() ==> qty_of(m1, #[trigger] ids[j]) == qty_of(m2, ids[j]),
    ensures
        volume(ids, m1) == volume(ids, m2),
    decreases ids.len(),
{
    if ids.len() > 0 {
        let d = ids.drop_last();
        assert forall|j: int| 0 <= j < d.len() implies qty_of(m1, #[trigger] d[j]) == qty_of(m2, d[j]) by {
            assert(d[j] == ids[j]);
        }
        lemma_volume_frame(d, m1, m2);
        assert(ids.last() == ids[ids.len() - 1]);
    }
}

/// Taking the entry at `j` out of `ids` takes its quantity off the volume.
pub proof fn lemma_volume_remove(ids: Seq<OrderId>, j: int, m: Map<OrderId, Order>)
    requires
        0 <= j < ids.len(),
    ensures
        volume(ids.remove(j), m) + qty_of(m, ids[j]) == volume(ids, m),
    decreases ids.len(),
{
    let r = ids.remove(j);
    if j == ids.len() - 1 {
        assert(r =~= ids.drop_last());
    } else {
        let d = ids.drop_last();
        lemma_volume_remove(d, j, m);
        assert(r.drop_last() =~= d.remove(j));
        assert(r.last() == ids.last());
    }
}

/// A volume is at least the quantity of each of its orders.
pub proof fn lemma_volume_ge(ids: Seq<OrderId>, j: int, m: Map<OrderId, Order>)
    requires
        0 <= j < ids.len(),
    ensures
        qty_of(m, ids[j]) <= volume(ids, m),
{
    lemma_volume_remove(ids, j, m);
}

/// The volume of `ids` with one more order at the back.
pub proof fn lemma_volume_push(ids: Seq<OrderId>, id: OrderId, m: Map<OrderId, Order>)
    ensures
        volume(ids.push(id), m) == volume(ids, m) + qty_of(m, id),
{
    assert(ids.push(id).drop_last() =~= ids);
}


/// Inserting a level between a worse and a better neighbour keeps levels sorted.
pub proof fn lemma_sorted_insert(levels: Seq<LevelView>, pos: int, lv: LevelView, side: Side)
    requires
        sorted_levels(levels, side),
        0 <= pos <= levels.len(),
        pos > 0 ==> better(side, lv.price, levels[pos - 1].price),
        pos < levels.len() ==> better(side, levels[pos].price, lv.price),
    ensures
        sorted_levels(levels.insert(pos, lv), side),
{
    let l2 = levels.insert(pos, lv);
    assert forall|i: int, j: int| 0 <= i < j < l2.len() implies better(side, #[trigger] l2[j].price, #[trigger] l2[i].price) by {
        if j < pos {
            assert(l2[i] == levels[i] && l2[j] == levels[j]);
        } else if j == pos {
            assert(l2[i] == levels[i]);
            if i < pos - 1 {
                assert(better(side, levels[pos - 1].price, levels[i].price));
            }
        } else if i < pos {
            assert(l2[i] == levels[i] && l2[j] == levels[j - 1]);
        } else if i == pos {
            assert(l2[j] == levels[j - 1]);
            if j - 1 > pos {
                assert(better(side, levels[j - 1].price, levels[pos].price));
            }
        } else {
            assert(l2[i] == levels[i - 1] && l2[j] == levels[j - 1]);
        }
    }
}

/// Removing a level keeps levels sorted.
pub proof fn lemma_sorted_remove(levels: Seq<LevelView>, k: int, side: Side)
    requires
        sorted_levels(levels, side),
        0 <= k < levels.len(),
    ensures
        sorted_levels(levels.remove(k), side),
{
    let l2 = levels.remove(k);
    assert forall|i: int, j: int| 0 <= i < j < l2.len() implies better(side, #[trigger] l2[j].price, #[trigger] l2[i].price) by {
        let i0 = if i < k { i } else { i + 1 };
        let j0 = if j < k { j } else { j + 1 };
        assert(l2[i] == levels[i0] && l2[j] == levels[j0]);
    }
}

/// `levels_wf` only depends on the orders the levels hold.
pub proof fn lemma_levels_wf_frame(
    levels: Seq<LevelView>,
    side: Side,
    m1: Map<OrderId, Order>,
    m2: Map<OrderId, Order>,
)
    requires
        levels_wf(levels, side, m1),
        forall|id: OrderId| level_holds(levels, id) ==> m2.contains_key(id) && m2[id] == m1[id],
    ensures
        levels_wf(levels, side, m2),
{
    assert forall|i: int, j: int| 0 <= i < levels.len() && 0 <= j < levels[i].orders.len() implies {
        let id = #[trigger] levels[i].orders[j];
        &&& m2.contains_key(id)
        &&& m2[id].side == side
        &&& m2[id].price == levels[i].price
    } by {
        assert(levels[i].orders.contains(levels[i].orders[j]));
        assert(level_holds(levels, levels[i].orders[j]));
    }
    assert forall|i: int| 0 <= i < levels.len() implies volume(#[trigger] levels[i].orders, m2) <= u64::MAX by {
        let ids = levels[i].orders;
        assert forall|j: int| 0 <= j < ids.len() implies qty_of(m1, #[trigger] ids[j]) == qty_of(m2, ids[j]) by {
            assert(levels[i].orders.contains(ids[j]));
            assert(level_holds(levels, ids[j]));
        }
        lemma_volume_frame(ids, m1, m2);
    }
}

/// A level with the right properties can be placed at `pos` when its
/// neighbours allow it.
pub proof fn lemma_levels_insert(
    levels: Seq<LevelView>,
    side: Side,
    m: Map<OrderId, Order>,
    pos: int,
    lv: LevelView,
)
    requires
        levels_wf(levels, side, m),
        0 <= pos <= levels.len(),
        pos > 0 ==> better(side, lv.price, levels[pos - 1].price),
        pos < levels.len() ==> better(side, levels[pos].price, lv.price),
        lv.orders.len() > 0,
        lv.orders.no_duplicates(),
        volume(lv.orders, m) <= u64::MAX,
        forall|j: int| 0 <= j < lv.orders.len() ==> {
            let id = #[trigger] lv.orders[j];
            &&& m.contains_key(id)
            &&& m[id].side == side
            &&& m[id].price == lv.price
        },
    ensures
        levels_wf(levels.insert(pos, lv), side, m),
        forall|id: OrderId| level_holds(levels, id) ==> level_holds(levels.insert(pos, lv), id),
        forall|id: OrderId| lv.orders.contains(id) ==> level_holds(levels.insert(pos, lv), id),
{
    let l2 = levels.insert(pos, lv);
    lemma_sorted_insert(levels, pos, lv, side);
    assert forall|i: int| 0 <= i < l2.len() implies {
        &&& (#[trigger] l2[i]).orders.len() > 0
        &&& l2[i].orders.no_duplicates()
        &&& volume(l2[i].orders, m) <= u64::MAX
    } by {
        if i > pos {
            assert(l2[i] == levels[i - 1]);
        } else if i < pos {
            assert(l2[i] == levels[i]);
        }
    }
    assert forall|i: int, j: int| 0 <= i < l2.len() && 0 <= j < l2[i].orders.len() implies {
        let id = #[trigger] l2[i].orders[j];
        &&& m.contains_key(id)
        &&& m[id].side == side
        &&& m[id].price == l2[i].price
    } by {
        if i > pos {
            assert(l2[i] == levels[i - 1]);
            assert(levels[i - 1].orders[j] == l2[i].orders[j]);
        } else if i < pos {
            assert(l2[i] == levels[i]);
            assert(levels[i].orders[j] == l2[i].orders[j]);
        }
    }
    assert forall|id: OrderId| level_holds(levels, id) implies level_holds(l2, id) by {
        let i = choose|i: int| 0 <= i < levels.len() && #[trigger] levels[i].orders.contains(id);
        if i < pos {
            assert(l2[i] == levels[i]);
        } else {
            assert(l2[i + 1] == levels[i]);
        }
    }
    assert forall|id: OrderId| lv.orders.contains(id) implies level_holds(l2, id) by {
        assert(l2[pos] == lv);
    }
}

/// A level can be replaced by one at the same price with the right properties.
pub proof fn lemma_levels_update(
    levels: Seq<LevelView>,
    side: Side,
    m: Map<OrderId, Order>,
    k: int,
    lv: LevelView,
)
    requires
        levels_wf(levels, side, m),
        0 <= k < levels.len(),
        lv.price == levels[k].price,
        lv.orders.len() > 0,
        lv.orders.no_duplicates(),
        volume(lv.orders, m) <= u64::MAX,
        forall|j: int| 0 <= j < lv.orders.len() ==> {
            let id = #[trigger] lv.orders[j];
            &&& m.contains_key(id)
            &&& m[id].side == side
            &&& m[id].price == lv.price
        },
    ensures
        levels_wf(levels.update(k, lv), side, m),
        forall|id: OrderId|
            level_holds(levels, id) && (levels[k].orders.contains(id) ==> lv.orders.contains(id))
                ==> level_holds(levels.update(k, lv), id),
        forall|id: OrderId| lv.orders.contains(id) ==> level_holds(levels.update(k, lv), id),
{
    let l2 = levels.update(k, lv);
    assert forall|i: int, j: int| 0 <= i < l2.len() && 0 < j < l2.len() && i < j implies better(side, #[trigger] l2[j].price, #[trigger] l2[i].price) by {
        assert(better(side, levels[j].price, levels[i].price));
    }
    assert forall|i: int| 0 <= i < l2.len() implies {
        &&& (#[trigger] l2[i]).orders.len() > 0
        &&& l2[i].orders.no_duplicates()
        &&& volume(l2[i].orders, m) <= u64::MAX
    } by {
        if i != k {
            assert(l2[i] == levels[i]);
        }
    }
    assert forall|i: int, j: int| 0 <= i < l2.len() && 0 <= j < l2[i].orders.len() implies {
        let id = #[trigger] l2[i].orders[j];
        &&& m.contains_key(id)
        &&& m[id].side == side
        &&& m[id].price == l2[i].price
    } by {
        if i != k {
            assert(l2[i] == levels[i]);
            assert(levels[i].orders[j] == l2[i].orders[j]);
        }
    }
    assert forall|id: OrderId|
        level_holds(levels, id) && (levels[k].orders.contains(id) ==> lv.orders.contains(id))
        implies level_holds(l2, id) by {
        let i = choose|i: int| 0 <= i < levels.len() && #[trigger] levels[i].orders.contains(id);
        assert(l2[i].orders.contains(id));
    }
    assert forall|id: OrderId| lv.orders.contains(id) implies level_holds(l2, id) by {
        assert(l2[k] == lv);
    }
}

/// Any level can be dropped.
pub proof fn lemma_levels_remove(levels: Seq<LevelView>, side: Side, m: Map<OrderId, Order>, k: int)
    requires
        levels_wf(levels, side, m),
        0 <= k < levels.len(),
    ensures
        levels_wf(levels.remove(k), side, m),
        forall|id: OrderId|
            level_holds(levels, id) && !levels[k].orders.contains(id) ==> level_holds(
                levels.remove(k),
                id,
            ),
{
    let l2 = levels.remove(k);
    lemma_sorted_remove(levels, k, side);
    assert forall|i: int| 0 <= i < l2.len() implies {
        &&& (#[trigger] l2[i]).orders.len() > 0
        &&& l2[i].orders.no_duplicates()
        &&& volume(l2[i].orders, m) <= u64::MAX
    } by {
        if i >= k {
            assert(l2[i] == levels[i + 1]);
        } else {
            assert(l2[i] == levels[i]);
        }
    }
    assert forall|i: int, j: int| 0 <= i < l2.len() && 0 <= j < l2[i].orders.len() implies {
        let id = #[trigger] l2[i].orders[j];
        &&& m.contains_key(id)
        &&& m[id].side == side
        &&& m[id].price == l2[i].price
    } by {
        let i0 = if i >= k { i + 1 } else { i };
        assert(l2[i] == levels[i0]);
        assert(levels[i0].orders[j] == l2[i].orders[j]);
    }
    assert forall|id: OrderId| level_holds(levels, id) && !levels[k].orders.contains(id) implies level_holds(l2, id) by {
        let i = choose|i: int| 0 <= i < levels.len() && #[trigger] levels[i].orders.contains(id);
        if i < k {
            assert(l2[i] == levels[i]);
        } else {
            assert(l2[i - 1] == levels[i]);
        }
    }
}


/// The volume of a single order is its quantity.
pub proof fn lemma_volume_single(id: OrderId, m: Map<OrderId, Order>)
    ensures
        volume(seq![id], m) == qty_of(m, id),
{
    assert(seq![id].drop_last() =~= Seq::<OrderId>::empty());
    assert(volume(Seq::<OrderId>::empty(), m) == 0);
    assert(seq![id].last() == id);
}

/// Levels hold only known orders.
pub proof fn lemma_held_known(levels: Seq<LevelView>, side: Side, m: Map<OrderId, Order>, id: OrderId)
    requires
        levels_wf(levels, side, m),
        level_holds(levels, id),
    ensures
        m.contains_key(id),
        m[id].side == side,
{
    let i = choose|i: int| 0 <= i < levels.len() && #[trigger] levels[i].orders.contains(id);
    let j = choose|j: int| 0 <= j < levels[i].orders.len() && levels[i].orders[j] == id;
    assert(levels[i].orders[j] == id);
}

/// The levels of `side` and the other side, in a book rebuilt with `with_side`.
pub proof fn lemma_with_side(b: BookView, side: Side, levels: Seq<LevelView>, m: Map<OrderId, Order>)
    ensures
        b.with_side(side, levels, m).levels(side) == levels,
        b.with_side(side, levels, m).levels(side.opposite()) == b.levels(side.opposite()),
        b.with_side(side, levels, m).orders == m,
        forall|s: Side| #[trigger] s.opposite() != side.opposite() ==> s == side.opposite(),
{
}

/// Inserting an order that may join the book keeps the invariant.
pub proof fn lemma_insert_wf(b: BookView, o: Order)
    requires
        b.wf(),
        b.can_insert(o),
    ensures
        b.insert(o).wf(),
        b.insert(o).orders == b.orders.insert(o.order_id, o),
        b.insert(o).levels(o.side.opposite()) == b.levels(o.side.opposite()),
{
    let s = o.side;
    let id = o.order_id;
    let l = b.levels(s);
    let other = b.levels(s.opposite());
    let m = b.orders;
    let m2 = m.insert(id, o);
    let l2 = insert_into_levels(l, o);
    lemma_with_side(b, s, l2, m2);
    assert(levels_wf(l, s, m) && levels_wf(other, s.opposite(), m)) by {
        match s {
            Side::Bid => {},
            Side::Ask => {},
        }
    }
    assert forall|x: OrderId| level_holds(l, x) implies x != id by {
        lemma_held_known(l, s, m, x);
    }
    assert forall|x: OrderId| level_holds(other, x) implies x != id by {
        lemma_held_known(other, s.opposite(), m, x);
    }
    lemma_levels_wf_frame(l, s, m, m2);
    lemma_levels_wf_frame(other, s.opposite(), m, m2);
    lemma_search(l, o.price, s);
    match search(l, o.price, s) {
        Some(k) => {
            if l[k].price == o.price {
                let lv = LevelView { price: o.price, orders: l[k].orders.push(id) };
                assert(!l[k].orders.contains(id)) by {
                    if l[k].orders.contains(id) {
                        assert(level_holds(l, id));
                    }
                }
                assert forall|j: int| 0 <= j < l[k].orders.len() implies qty_of(m, #[trigger] l[k].orders[j]) == qty_of(m2, l[k].orders[j]) by {
                    assert(l[k].orders.contains(l[k].orders[j]));
                }
                lemma_volume_frame(l[k].orders, m, m2);
                lemma_volume_push(l[k].orders, id, m2);
                assert forall|j: int| 0 <= j < lv.orders.len() implies {
                    let x = #[trigger] lv.orders[j];
                    &&& m2.contains_key(x)
                    &&& m2[x].side == s
                    &&& m2[x].price == lv.price
                } by {
                    if j < l[k].orders.len() {
                        assert(lv.orders[j] == l[k].orders[j]);
                    }
                }
                lemma_levels_update(l, s, m2, k, lv);
                assert forall|x: OrderId| l[k].orders.contains(x) implies lv.orders.contains(x) by {
                    let j = choose|j: int| 0 <= j < l[k].orders.len() && l[k].orders[j] == x;
                    assert(lv.orders[j] == x);
                }
                assert(lv.orders[l[k].orders.len() as int] == id);
                assert(lv.orders.contains(id));
                assert(level_holds(l2, id));
            } else {
                let lv = new_level(o.price, id);
                lemma_volume_single(id, m2);
                if k + 1 < l.len() {
                    assert(!behind(s, l[k + 1].price, o.price));
                }
                lemma_levels_insert(l, s, m2, k + 1, lv);
                assert(lv.orders[0] == id);
                assert(lv.orders.contains(id));
                assert(level_holds(l2, id));
            }
        },
        None => {
            let lv = new_level(o.price, id);
            lemma_volume_single(id, m2);
            if 0 < l.len() {
                assert(!behind(s, l[0].price, o.price));
            }
            lemma_levels_insert(l, s, m2, 0, lv);
            assert(lv.orders[0] == id);
            assert(lv.orders.contains(id));
            assert(level_holds(l2, id));
        },
    }
    let b2 = b.insert(o);
    assert(level_holds(l2, id));
    assert forall|x: OrderId| #[trigger] m2.contains_key(x) && m2[x].qty > 0 implies level_holds(b2.levels(m2[x].side), x) by {
        if x != id {
            assert(m.contains_key(x) && m[x].qty > 0);
            assert(level_holds(b.levels(m[x].side), x));
            if m[x].side != s {
                assert(m[x].side == s.opposite());
            }
        }
    }
    assert(b2.wf()) by {
        match s {
            Side::Bid => {},
            Side::Ask => {},
        }
    }
}


/// Removing an entry keeps a sequence free of repeats, and keeps every other entry.
pub proof fn lemma_remove_keeps(ids: Seq<OrderId>, j: int)
    requires
        0 <= j < ids.len(),
        ids.no_duplicates(),
    ensures
        ids.remove(j).no_duplicates(),
        !ids.remove(j).contains(ids[j]),
        forall|x: OrderId| ids.contains(x) && x != ids[j] ==> ids.remove(j).contains(x),
        forall|x: OrderId| ids.remove(j).contains(x) ==> ids.contains(x),
{
    let r = ids.remove(j);
    assert forall|a: int, b: int| 0 <= a < r.len() && 0 <= b < r.len() && a != b implies r[a] != r[b] by {
        let a0 = if a < j { a } else { a + 1 };
        let b0 = if b < j { b } else { b + 1 };
        assert(r[a] == ids[a0] && r[b] == ids[b0]);
    }
    if r.contains(ids[j]) {
        let a = choose|a: int| 0 <= a < r.len() && r[a] == ids[j];
        let a0 = if a < j { a } else { a + 1 };
        assert(r[a] == ids[a0]);
    }
    assert forall|x: OrderId| ids.contains(x) && x != ids[j] implies r.contains(x) by {
        let a = choose|a: int| 0 <= a < ids.len() && ids[a] == x;
        if a < j {
            assert(r[a] == x);
        } else {
            assert(r[a - 1] == x);
        }
    }
    assert forall|x: OrderId| r.contains(x) implies ids.contains(x) by {
        let a = choose|a: int| 0 <= a < r.len() && r[a] == x;
        let a0 = if a < j { a } else { a + 1 };
        assert(r[a] == ids[a0]);
    }
}

/// In a well-formed side, an order at `price` can only rest in the level that
/// `search` finds for `price`.
pub proof fn lemma_only_found_level(
    levels: Seq<LevelView>,
    side: Side,
    m: Map<OrderId, Order>,
    id: OrderId,
    price: Price,
    i: int,
)
    requires
        levels_wf(levels, side, m),
        m.contains_key(id) ==> m[id].price == price,
        0 <= i < levels.len(),
        levels[i].orders.contains(id),
    ensures
        search(levels, price, side) == Some(i),
{
    let j = choose|j: int| 0 <= j < levels[i].orders.len() && levels[i].orders[j] == id;
    assert(levels[i].orders[j] == id);
    lemma_search_exact(levels, side, i);
}

/// Taking an order out with arguments that describe it keeps the invariant.
#[verifier::rlimit(80)]
#[verifier::spinoff_prover]
pub proof fn lemma_remove_wf(b: BookView, id: OrderId, price: Price, side: Side, qty: Quantity)
    requires
        b.wf(),
        b.remove_ok(id, price, side, qty),
    ensures
        b.remove(id, price, side).wf(),
        b.remove(id, price, side).orders == b.orders.remove(id),
        b.remove(id, price, side).levels(side.opposite()) == b.levels(side.opposite()),
{
    let l = b.levels(side);
    let other = b.levels(side.opposite());
    let m = b.orders;
    let m2 = m.remove(id);
    let l2 = remove_from_levels(l, id, price, side, m2);
    lemma_with_side(b, side, l2, m2);
    assert(levels_wf(l, side, m) && levels_wf(other, side.opposite(), m)) by {
        match side {
            Side::Bid => {},
            Side::Ask => {},
        }
    }
    assert forall|x: OrderId| level_holds(other, x) implies x != id by {
        lemma_held_known(other, side.opposite(), m, x);
    }
    lemma_levels_wf_frame(other, side.opposite(), m, m2);
    lemma_search(l, price, side);
    // the order can only rest in the level that search finds
    assert forall|i: int| 0 <= i < l.len() && #[trigger] l[i].orders.contains(id) implies search(l, price, side) == Some(i) by {
        lemma_only_found_level(l, side, m, id, price, i);
    }
    match search(l, price, side) {
        None => {
            assert forall|x: OrderId| level_holds(l, x) implies x != id by {}
            lemma_levels_wf_frame(l, side, m, m2);
        },
        Some(k) => {
            let old_ids = l[k].orders;
            let ids = old_ids.remove_value(id);
            old_ids.index_of_first_ensures(id);
            let lv = LevelView { price: l[k].price, orders: ids };
            if old_ids.contains(id) {
                let j = old_ids.index_of_first(id).unwrap();
                lemma_remove_keeps(old_ids, j);
                lemma_volume_remove(old_ids, j, m);
            }
            // the new queue holds what the old one held but `id`
            assert(!ids.contains(id));
            assert forall|x: OrderId| ids.contains(x) implies old_ids.contains(x) by {}
            assert forall|x: OrderId| old_ids.contains(x) && x != id implies ids.contains(x) by {}
            assert(ids.no_duplicates());
            assert(volume(ids, m) <= volume(old_ids, m));
            assert forall|j: int| 0 <= j < ids.len() implies qty_of(m, #[trigger] ids[j]) == qty_of(m2, ids[j]) by {
                assert(ids.contains(ids[j]));
            }
            lemma_volume_frame(ids, m, m2);
            // elsewhere on this side the order is not held
            assert forall|i: int, x: OrderId| 0 <= i < l.len() && i != k && #[trigger] l[i].orders.contains(x) implies x != id by {}
            if volume(ids, m2) == 0 {
                lemma_levels_remove(l, side, m, k);
                let lr = l.remove(k);
                assert forall|x: OrderId| level_holds(lr, x) implies x != id by {
                    let i = choose|i: int| 0 <= i < lr.len() && #[trigger] lr[i].orders.contains(x);
                    let i0 = if i < k { i } else { i + 1 };
                    assert(lr[i] == l[i0]);
                    assert(l[i0].orders.contains(x));
                }
                lemma_levels_wf_frame(lr, side, m, m2);
                assert forall|x: OrderId| #[trigger] m2.contains_key(x) && m2[x].qty > 0 implies level_holds(b.remove(id, price, side).levels(m2[x].side), x) by {
                    assert(m.contains_key(x) && m[x].qty > 0);
                    assert(level_holds(b.levels(m[x].side), x));
                    if m[x].side == side {
                        if old_ids.contains(x) {
                            assert(ids.contains(x));
                            let a = choose|a: int| 0 <= a < ids.len() && ids[a] == x;
                            lemma_volume_ge(ids, a, m2);
                            assert(false);
                        }
                    } else {
                        assert(m[x].side == side.opposite());
                    }
                }
            } else {
                assert(ids.len() > 0);
                assert forall|j: int| 0 <= j < ids.len() implies {
                    let x = #[trigger] ids[j];
                    &&& m.contains_key(x)
                    &&& m[x].side == side
                    &&& m[x].price == lv.price
                } by {
                    assert(ids.contains(ids[j]));
                    let a = choose|a: int| 0 <= a < old_ids.len() && old_ids[a] == ids[j];
                    assert(l[k].orders[a] == ids[j]);
                }
                lemma_levels_update(l, side, m, k, lv);
                let lu = l.update(k, lv);
                assert forall|x: OrderId| level_holds(lu, x) implies x != id by {
                    let i = choose|i: int| 0 <= i < lu.len() && #[trigger] lu[i].orders.contains(x);
                    if i != k {
                        assert(lu[i] == l[i]);
                    }
                }
                lemma_levels_wf_frame(lu, side, m, m2);
                assert forall|x: OrderId| #[trigger] m2.contains_key(x) && m2[x].qty > 0 implies level_holds(b.remove(id, price, side).levels(m2[x].side), x) by {
                    assert(m.contains_key(x) && m[x].qty > 0);
                    assert(level_holds(b.levels(m[x].side), x));
                    if m[x].side == side {
                        if old_ids.contains(x) {
                            assert(lv.orders.contains(x));
                        }
                    } else {
                        assert(m[x].side == side.opposite());
                    }
                }
            }
        },
    }
    let b2 = b.remove(id, price, side);
    assert(b2.wf()) by {
        match side {
            Side::Bid => {},
            Side::Ask => {},
        }
    }
}


/// Lowering quantities, keeping sides and prices, keeps `levels_wf`.
pub proof fn lemma_levels_wf_shrink(
    levels: Seq<LevelView>,
    side: Side,
    m1: Map<OrderId, Order>,
    m2: Map<OrderId, Order>,
)
    requires
        levels_wf(levels, side, m1),
        forall|id: OrderId|
            level_holds(levels, id) ==> {
                &&& m2.contains_key(id)
                &&& m2[id].side == m1[id].side
                &&& m2[id].price == m1[id].price
                &&& m2[id].qty <= m1[id].qty
            },
    ensures
        levels_wf(levels, side, m2),
{
    assert forall|i: int, j: int| 0 <= i < levels.len() && 0 <= j < levels[i].orders.len() implies {
        let id = #[trigger] levels[i].orders[j];
        &&& m2.contains_key(id)
        &&& m2[id].side == side
        &&& m2[id].price == levels[i].price
    } by {
        assert(levels[i].orders.contains(levels[i].orders[j]));
        assert(level_holds(levels, levels[i].orders[j]));
    }
    assert forall|i: int| 0 <= i < levels.len() implies volume(#[trigger] levels[i].orders, m2) <= u64::MAX by {
        let ids = levels[i].orders;
        assert forall|j: int| 0 <= j < ids.len() implies qty_of(m2, #[trigger] ids[j]) <= qty_of(m1, ids[j]) by {
            assert(levels[i].orders.contains(ids[j]));
            assert(level_holds(levels, ids[j]));
            assert(levels[i].orders[j] == ids[j]);
        }
        lemma_volume_mono(ids, m1, m2);
    }
}

/// Volumes grow with the quantities they add up.
pub proof fn lemma_volume_mono(ids: Seq<OrderId>, m1: Map<OrderId, Order>, m2: Map<OrderId, Order>)
    requires
        forall|j: int| 0 <= j < ids.len() ==> qty_of(m2, #[trigger] ids[j]) <= qty_of(m1, ids[j]),
    ensures
        volume(ids, m2) <= volume(ids, m1),
    decreases ids.len(),
{
    if ids.len() > 0 {
        let d = ids.drop_last();
        assert forall|j: int| 0 <= j < d.len() implies qty_of(m2, #[trigger] d[j]) <= qty_of(m1, d[j]) by {
            assert(d[j] == ids[j]);
        }
        lemma_volume_mono(d, m1, m2);
        assert(ids.last() == ids[ids.len() - 1]);
    }
}

/// Lowering a quantity without using it up keeps the invariant.
pub proof fn lemma_reduce_wf(b: BookView, id: OrderId, vol: Quantity)
    requires
        b.wf(),
        b.orders.contains_key(id),
        vol < b.orders[id].qty,
    ensures
        b.reduce(id, vol).wf(),
        b.reduce(id, vol).orders.dom() == b.orders.dom(),
        forall|x: OrderId| x != id && b.orders.contains_key(x) ==> b.reduce(id, vol).orders[x] == b.orders[x],
        b.reduce(id, vol).orders[id].qty == b.orders[id].qty - vol,
{
    let m = b.orders;
    let b2 = b.reduce(id, vol);
    let m2 = b2.orders;
    lemma_levels_wf_shrink(b.bids, Side::Bid, m, m2);
    lemma_levels_wf_shrink(b.asks, Side::Ask, m, m2);
    assert(m2.dom() =~= m.dom());
    assert forall|x: OrderId| #[trigger] m2.contains_key(x) && m2[x].qty > 0 implies level_holds(b2.levels(m2[x].side), x) by {
        assert(m.contains_key(x) && m[x].qty > 0);
    }
}

/// Applying a possible trade keeps the invariant.
pub proof fn lemma_match_wf(b: BookView, bid_id: OrderId, ask_id: OrderId, vol: Quantity)
    requires
        b.wf(),
        b.match_ok(bid_id, ask_id, vol),
    ensures
        b.match_orders(bid_id, ask_id, vol).wf(),
{
    if b.orders.contains_key(bid_id) && b.orders.contains_key(ask_id) {
        let bid = b.orders[bid_id];
        let ask = b.orders[ask_id];
        let b1 = if bid.qty == vol {
            b.remove(bid_id, bid.price, Side::Bid)
        } else {
            b.reduce(bid_id, vol)
        };
        if bid.qty == vol {
            lemma_remove_wf(b, bid_id, bid.price, Side::Bid, bid.qty);
        } else {
            lemma_reduce_wf(b, bid_id, vol);
        }
        assert(b1.orders.contains_key(ask_id) && b1.orders[ask_id] == ask);
        if ask.qty == vol {
            lemma_remove_wf(b1, ask_id, ask.price, Side::Ask, ask.qty);
        } else {
            lemma_reduce_wf(b1, ask_id, vol);
        }
    }
}


/// Replacing one order changes the volume of a queue only by the change of
/// its quantity, and only if the queue holds it.
pub proof fn lemma_volume_replace(ids: Seq<OrderId>, m: Map<OrderId, Order>, id: OrderId, o: Order)
    requires
        ids.no_duplicates(),
    ensures
        ids.contains(id) ==> volume(ids, m.insert(id, o)) + qty_of(m, id) == volume(ids, m) + o.qty,
        !ids.contains(id) ==> volume(ids, m.insert(id, o)) == volume(ids, m),
{
    let m2 = m.insert(id, o);
    if ids.contains(id) {
        let j = choose|j: int| 0 <= j < ids.len() && ids[j] == id;
        lemma_remove_keeps(ids, j);
        let r = ids.remove(j);
        assert forall|a: int| 0 <= a < r.len() implies qty_of(m, #[trigger] r[a]) == qty_of(m2, r[a]) by {
            assert(r.contains(r[a]));
        }
        lemma_volume_frame(r, m, m2);
        lemma_volume_remove(ids, j, m);
        lemma_volume_remove(ids, j, m2);
    } else {
        assert forall|a: int| 0 <= a < ids.len() implies qty_of(m, #[trigger] ids[a]) == qty_of(m2, ids[a]) by {
            assert(ids.contains(ids[a]));
        }
        lemma_volume_frame(ids, m, m2);
    }
}

/// Forgetting an order a queue does not hold leaves its volume alone.
pub proof fn lemma_volume_drop(ids: Seq<OrderId>, m: Map<OrderId, Order>, id: OrderId)
    requires
        !ids.contains(id),
    ensures
        volume(ids, m.remove(id)) == volume(ids, m),
{
    assert forall|a: int| 0 <= a < ids.len() implies qty_of(m, #[trigger] ids[a]) == qty_of(m.remove(id), ids[a]) by {
        assert(ids.contains(ids[a]));
    }
    lemma_volume_frame(ids, m, m.remove(id));
}

/// A trade only takes orders out or lowers them: no id is added.
pub proof fn lemma_match_keeps_ids(b: BookView, bid_id: OrderId, ask_id: OrderId, vol: Quantity)
    requires
        b.wf(),
        b.match_ok(bid_id, ask_id, vol),
    ensures
        b.match_orders(bid_id, ask_id, vol).orders.dom().subset_of(b.orders.dom()),
{
    if b.orders.contains_key(bid_id) && b.orders.contains_key(ask_id) {
        let bid = b.orders[bid_id];
        let ask = b.orders[ask_id];
        let b1 = if bid.qty == vol {
            b.remove(bid_id, bid.price, Side::Bid)
        } else {
            b.reduce(bid_id, vol)
        };
        if bid.qty == vol {
            lemma_remove_wf(b, bid_id, bid.price, Side::Bid, bid.qty);
        } else {
            lemma_reduce_wf(b, bid_id, vol);
        }
        assert(b1.orders.dom().subset_of(b.orders.dom()));
        if ask.qty == vol {
            lemma_remove_wf(b1, ask_id, ask.price, Side::Ask, ask.qty);
        } else {
            assert(b1.orders.contains_key(ask_id));
            lemma_reduce_wf(b1, ask_id, vol);
        }
    }
}

/// Order `id` rests on a level of `levels` priced `price`.
pub open spec fn rests_at(levels: Seq<LevelView>, price: Price, id: OrderId) -> bool {
    exists|i: int| 0 <= i < levels.len() && levels[i].price == price && #[trigger] levels[i].orders.contains(id)
}

/// Taking an order out of a side leaves every other order where it was.
pub proof fn lemma_rests_after_remove(
    levels: Seq<LevelView>,
    id: OrderId,
    price: Price,
    side: Side,
    m: Map<OrderId, Order>,
    p: Price,
    x: OrderId,
)
    requires
        rests_at(remove_from_levels(levels, id, price, side, m), p, x),
    ensures
        rests_at(levels, p, x),
{
    let r = remove_from_levels(levels, id, price, side, m);
    let i = choose|i: int| 0 <= i < r.len() && r[i].price == p && #[trigger] r[i].orders.contains(x);
    match search(levels, price, side) {
        None => {},
        Some(k) => {
            lemma_search(levels, price, side);
            let old_ids = levels[k].orders;
            let ids = old_ids.remove_value(id);
            old_ids.index_of_first_ensures(id);
            if old_ids.contains(id) {
                let j = old_ids.index_of_first(id).unwrap();
                assert forall|y: OrderId| ids.contains(y) implies old_ids.contains(y) by {
                    let a = choose|a: int| 0 <= a < ids.len() && ids[a] == y;
                    let a0 = if a < j { a } else { a + 1 };
                    assert(old_ids[a0] == y);
                }
            }
            if volume(ids, m) == 0 {
                let i0 = if i < k { i } else { i + 1 };
                assert(r[i] == levels[i0]);
                assert(levels[i0].orders.contains(x));
            } else if i == k {
                assert(ids.contains(x));
                assert(levels[k].orders.contains(x));
            } else {
                assert(r[i] == levels[i]);
            }
        },
    }
}

/// An order joining a side leaves every other order where it was.
pub proof fn lemma_rests_after_insert(levels: Seq<LevelView>, o: Order, p: Price, x: OrderId)
    requires
        rests_at(insert_into_levels(levels, o), p, x),
        x != o.order_id,
    ensures
        rests_at(levels, p, x),
{
    let r = insert_into_levels(levels, o);
    let i = choose|i: int| 0 <= i < r.len() && r[i].price == p && #[trigger] r[i].orders.contains(x);
    lemma_search(levels, o.price, o.side);
    match search(levels, o.price, o.side) {
        Some(k) => {
            if levels[k].price == o.price {
                if i == k {
                    let ids = levels[k].orders;
                    let a = choose|a: int| 0 <= a < ids.push(o.order_id).len() && ids.push(o.order_id)[a] == x;
                    assert(ids[a] == x);
                    assert(levels[k].orders.contains(x));
                } else {
                    assert(r[i] == levels[i]);
                }
            } else {
                if i <= k {
                    assert(r[i] == levels[i]);
                } else if i == k + 1 {
                    assert(r[i] == new_level(o.price, o.order_id));
                    assert(r[i].orders[0] == o.order_id);
                } else {
                    assert(r[i] == levels[i - 1]);
                }
            }
        },
        None => {
            if i == 0 {
                assert(r[i] == new_level(o.price, o.order_id));
                assert(r[i].orders[0] == o.order_id);
            } else {
                assert(r[i] == levels[i - 1]);
            }
        },
    }
}

/// In sorted levels, every resting order is at or behind the best price.
pub proof fn lemma_rests_behind_best(levels: Seq<LevelView>, side: Side, p: Price, x: OrderId)
    requires
        sorted_levels(levels, side),
        rests_at(levels, p, x),
    ensures
        levels.len() > 0,
        behind(side, p, levels.last().price),
{
    let i = choose|i: int| 0 <= i < levels.len() && levels[i].price == p && #[trigger] levels[i].orders.contains(x);
    if i < levels.len() - 1 {
        assert(better(side, levels[levels.len() - 1].price, levels[i].price));
    }
    match side {
        Side::Bid => {},
        Side::Ask => {},
    }
}

// ---------------------------------------------------------------------------
// Laws of the book
// ---------------------------------------------------------------------------
/// On one side, taking out an order just put in gives back the levels, when
/// the level it joined, if any, had a positive volume.
proof fn lemma_insert_remove_levels(l: Seq<LevelView>, m: Map<OrderId, Order>, o: Order)
    requires
        levels_wf(l, o.side, m),
        !m.contains_key(o.order_id),
        sorted_levels(insert_into_levels(l, o), o.side),
        forall|k: int| 0 <= k < l.len() && #[trigger] l[k].price == o.price ==> volume(l[k].orders, m) > 0,
    ensures
        remove_from_levels(insert_into_levels(l, o), o.order_id, o.price, o.side, m) == l,
{
    let s = o.side;
    let id = o.order_id;
    let l1 = insert_into_levels(l, o);
    assert(!level_holds(l, id)) by {
        if level_holds(l, id) {
            lemma_held_known(l, s, m, id);
        }
    }
    lemma_search(l, o.price, s);
    match search(l, o.price, s) {
        Some(k) => if l[k].price == o.price {
            lemma_search_exact(l1, s, k);
            assert(l1[k] == LevelView { price: o.price, orders: l[k].orders.push(id) });
            let ids = l1[k].orders;
            assert(ids == l[k].orders.push(id));
            assert(ids[ids.len() - 1] == id);
            assert(ids.contains(id));
            assert(!l[k].orders.contains(id)) by {
                if l[k].orders.contains(id) {
                    assert(level_holds(l, id));
                }
            }
            ids.index_of_first_ensures(id);
            let j = ids.index_of_first(id).unwrap();
            if j < ids.len() - 1 {
                assert(ids[j] == l[k].orders[j]);
                assert(l[k].orders.contains(id));
            }
            assert(j == ids.len() - 1);
            assert(ids.remove_value(id) == ids.remove(j));
            assert(ids.remove(j) =~= l[k].orders);
            assert(l1.update(k, LevelView { price: l1[k].price, orders: l[k].orders }) =~= l);
        } else {
            lemma_search_exact(l1, s, k + 1);
            assert(l1[k + 1] == new_level(o.price, id));
            let ids = l1[k + 1].orders;
            assert(ids =~= seq![id]);
            assert(ids[0] == id);
            assert(ids.contains(id));
            ids.index_of_first_ensures(id);
            assert(ids.remove_value(id) == ids.remove(0));
            assert(ids.remove(0) =~= Seq::<OrderId>::empty());
            assert(volume(Seq::<OrderId>::empty(), m) == 0);
            assert(l1.remove(k + 1) =~= l);
        },
        None => {
            lemma_search_exact(l1, s, 0);
            assert(l1[0] == new_level(o.price, id));
            let ids = l1[0].orders;
            assert(ids =~= seq![id]);
            assert(ids[0] == id);
            assert(ids.contains(id));
            ids.index_of_first_ensures(id);
            assert(ids.remove_value(id) == ids.remove(0));
            assert(ids.remove(0) =~= Seq::<OrderId>::empty());
            assert(volume(Seq::<OrderId>::empty(), m) == 0);
            assert(l1.remove(0) =~= l);
        },
    }
}

/// Cancelling an order right after inserting it gives back the book it was
/// inserted into, unless the order joined a level whose volume was zero
/// (such a level goes once the new order leaves it).
pub proof fn law_insert_then_remove(b: BookView, o: Order)
    requires
        b.wf(),
        b.can_insert(o),
        forall|k: int|
            0 <= k < b.levels(o.side).len() && #[trigger] b.levels(o.side)[k].price == o.price
                ==> volume(b.levels(o.side)[k].orders, b.orders) > 0,
    ensures
        b.insert(o).remove(o.order_id, o.price, o.side) == b,
{
    let s = o.side;
    let id = o.order_id;
    let l = b.levels(s);
    let m = b.orders;
    let m1 = m.insert(id, o);
    let l1 = insert_into_levels(l, o);
    lemma_insert_wf(b, o);
    lemma_with_side(b, s, l1, m1);
    assert(m1.remove(id) =~= m);
    assert(levels_wf(l, s, m) && levels_wf(l1, s, m1)) by {
        match s {
            Side::Bid => {},
            Side::Ask => {},
        }
    }
    lemma_insert_remove_levels(l, m, o);
    match s {
        Side::Bid => {
            assert(b.insert(o).remove(id, o.price, s) == b);
        },
        Side::Ask => {
            assert(b.insert(o).remove(id, o.price, s) == b);
        },
    }
}

/// Inserting an order changes the best order of its side only when that
/// side was empty or the new price beats its best price, and then the new
/// order is the best; the best order of the other side does not change.
pub proof fn law_insert_best(b: BookView, o: Order)
    requires
        b.wf(),
        b.can_insert(o),
    ensures
        b.insert(o).best(o.side.opposite()) == b.best(o.side.opposite()),
        b.insert(o).best(o.side) == (if b.levels(o.side).len() == 0 || better(
            o.side,
            o.price,
            b.levels(o.side).last().price,
        ) {
            Some(o.order_id)
        } else {
            b.best(o.side)
        }),
{
    lemma_insert_wf(b, o);
    let s = o.side;
    let l = b.levels(s);
    let l2 = insert_into_levels(l, o);
    lemma_with_side(b, s, l2, b.orders.insert(o.order_id, o));
    assert(b.insert(o).levels(s) == l2);
    lemma_search(l, o.price, s);
    let n = l.len();
    if n == 0 {
        assert(l2 == l.insert(0, new_level(o.price, o.order_id)));
        assert(l2.last() == new_level(o.price, o.order_id));
    } else {
        assert(l.last() == l[n - 1]);
        assert(l[n - 1].orders.len() > 0);
        let beats = better(s, o.price, l.last().price);
        match search(l, o.price, s) {
            Some(k) => {
                if l[k].price == o.price {
                    if k == n - 1 {
                        assert(!beats) by {
                            match s {
                                Side::Bid => {},
                                Side::Ask => {},
                            }
                        }
                        assert(l2.last().orders == l[k].orders.push(o.order_id));
                        assert(l2.last().orders[0] == l.last().orders[0]);
                    } else {
                        assert(better(s, l[n - 1].price, l[k].price));
                        assert(!beats) by {
                            match s {
                                Side::Bid => {},
                                Side::Ask => {},
                            }
                        }
                        assert(l2.last() == l.last());
                    }
                } else if k == n - 1 {
                    assert(beats) by {
                        match s {
                            Side::Bid => {},
                            Side::Ask => {},
                        }
                    }
                    assert(l2.last() == new_level(o.price, o.order_id));
                } else {
                    assert(!behind(s, l[n - 1].price, o.price));
                    assert(!beats) by {
                        match s {
                            Side::Bid => {},
                            Side::Ask => {},
                        }
                    }
                    assert(l2.last() == l.last());
                }
            },
            None => {
                assert(!behind(s, l[n - 1].price, o.price));
                assert(!beats) by {
                    match s {
                        Side::Bid => {},
                        Side::Ask => {},
                    }
                }
                assert(l2.last() == l.last());
            },
        }
    }
    match s {
        Side::Bid => {},
        Side::Ask => {},
    }
}

/// Filing an order under a new id changes the volume of no level.
proof fn lemma_summary_new_id(levels: Seq<LevelView>, side: Side, m: Map<OrderId, Order>, o: Order)
    requires
        levels_wf(levels, side, m),
        !m.contains_key(o.order_id),
    ensures
        summary(levels, m.insert(o.order_id, o)) == summary(levels, m),
        forall|j: int|
            0 <= j < levels.len() ==> volume(#[trigger] levels[j].orders, m.insert(o.order_id, o)) == volume(
                levels[j].orders,
                m,
            ),
{
    let m2 = m.insert(o.order_id, o);
    assert forall|j: int| 0 <= j < levels.len() implies volume(#[trigger] levels[j].orders, m2) == volume(
        levels[j].orders,
        m,
    ) by {
        let ids = levels[j].orders;
        assert forall|a: int| 0 <= a < ids.len() implies qty_of(m, #[trigger] ids[a]) == qty_of(m2, ids[a]) by {
            assert(levels[j].orders[a] == ids[a]);
            assert(m.contains_key(ids[a]));
        }
        lemma_volume_frame(ids, m, m2);
    }
    assert(summary(levels, m2) =~= summary(levels, m));
}

/// Inserting an order adds its quantity to the level of its price, or opens
/// a level at its price holding just that quantity, in price order; every
/// other level, on both sides, keeps its price and volume.
pub proof fn law_insert_levels(b: BookView, o: Order)
    requires
        b.wf(),
        b.can_insert(o),
    ensures
        summary(b.insert(o).levels(o.side.opposite()), b.insert(o).orders) == summary(
            b.levels(o.side.opposite()),
            b.orders,
        ),
        forall|k: int|
            0 <= k < b.levels(o.side).len() && #[trigger] b.levels(o.side)[k].price == o.price ==> summary(
                b.insert(o).levels(o.side),
                b.insert(o).orders,
            ) == summary(b.levels(o.side), b.orders).update(
                k,
                (o.price, (summary(b.levels(o.side), b.orders)[k].1 + o.qty) as u64),
            ),
        (forall|k: int| 0 <= k < b.levels(o.side).len() ==> #[trigger] b.levels(o.side)[k].price != o.price)
            ==> exists|pos: int|
            0 <= pos <= b.levels(o.side).len() && summary(b.insert(o).levels(o.side), b.insert(o).orders)
                == summary(b.levels(o.side), b.orders).insert(pos, (o.price, o.qty)),
{
    lemma_insert_wf(b, o);
    let s = o.side;
    let l = b.levels(s);
    let m = b.orders;
    let m2 = m.insert(o.order_id, o);
    let l2 = insert_into_levels(l, o);
    lemma_with_side(b, s, l2, m2);
    assert(b.insert(o).levels(s) == l2);
    assert(b.insert(o).orders == m2);
    match s {
        Side::Bid => {
            lemma_summary_new_id(b.asks, Side::Ask, m, o);
            lemma_summary_new_id(b.bids, Side::Bid, m, o);
        },
        Side::Ask => {
            lemma_summary_new_id(b.bids, Side::Bid, m, o);
            lemma_summary_new_id(b.asks, Side::Ask, m, o);
        },
    }
    assert(levels_wf(l, s, m));
    lemma_search(l, o.price, s);
    let sl = summary(l, m);
    lemma_volume_single(o.order_id, m2);
    assert(qty_of(m2, o.order_id) == o.qty);
    assert forall|k: int|
        0 <= k < l.len() && #[trigger] l[k].price == o.price implies summary(l2, m2) == sl.update(
            k,
            (o.price, (sl[k].1 + o.qty) as u64),
        ) by {
        lemma_search_exact(l, s, k);
        lemma_volume_push(l[k].orders, o.order_id, m2);
        assert(l2 == l.update(k, LevelView { price: o.price, orders: l[k].orders.push(o.order_id) }));
        assert(volume(l[k].orders, m2) == volume(l[k].orders, m));
        assert(sl[k].1 == volume(l[k].orders, m));
        assert(summary(l2, m2) =~= sl.update(k, (o.price, (sl[k].1 + o.qty) as u64)));
    }
    if forall|k: int| 0 <= k < l.len() ==> #[trigger] l[k].price != o.price {
        let pos: int = match search(l, o.price, s) {
            Some(k) => k + 1,
            None => 0,
        };
        match search(l, o.price, s) {
            Some(k) => {
                assert(l[k].price != o.price);
            },
            None => {},
        }
        assert(l2 == l.insert(pos, new_level(o.price, o.order_id)));
        assert(new_level(o.price, o.order_id).orders == seq![o.order_id]);
        assert(summary(l2, m2) =~= sl.insert(pos, (o.price, o.qty)));
    }
}

/// Price-time priority on insert: an order that joins an existing level of
/// its side, whether that level is the best or not, goes to the back of the
/// level's queue; every other level of the side, and the other side, stay
/// as they were.
pub proof fn law_insert_joins_back(b: BookView, o: Order, k: int)
    requires
        b.wf(),
        b.can_insert(o),
        0 <= k < b.levels(o.side).len(),
        b.levels(o.side)[k].price == o.price,
    ensures
        b.insert(o).levels(o.side).len() == b.levels(o.side).len(),
        b.insert(o).levels(o.side)[k].price == o.price,
        b.insert(o).levels(o.side)[k].orders == b.levels(o.side)[k].orders.push(o.order_id),
        forall|j: int|
            0 <= j < b.levels(o.side).len() && j != k ==> #[trigger] b.insert(o).levels(o.side)[j] == b.levels(
                o.side,
            )[j],
        b.insert(o).levels(o.side.opposite()) == b.levels(o.side.opposite()),
{
    lemma_insert_wf(b, o);
    let s = o.side;
    let l = b.levels(s);
    lemma_search_exact(l, s, k);
    lemma_with_side(b, s, insert_into_levels(l, o), b.orders.insert(o.order_id, o));
}

/// Price-time priority on removal: taking an order out of its level keeps
/// the other orders of that level in the order they were in (the queue
/// loses just that one position); the level goes if nothing with volume is
/// left in it; every other level, and the other side, stay as they were.
pub proof fn law_remove_keeps_queue(b: BookView, id: OrderId, k: int, j: int)
    requires
        b.wf(),
        b.orders.contains_key(id),
        0 <= k < b.levels(b.orders[id].side).len(),
        0 <= j < b.levels(b.orders[id].side)[k].orders.len(),
        b.levels(b.orders[id].side)[k].orders[j] == id,
    ensures
        ({
            let o = b.orders[id];
            let l = b.levels(o.side);
            let rest = l[k].orders.remove(j);
            let r = b.remove(id, o.price, o.side);
            &&& r.levels(o.side.opposite()) == b.levels(o.side.opposite())
            &&& volume(rest, r.orders) > 0 ==> r.levels(o.side) == l.update(
                k,
                LevelView { price: l[k].price, orders: rest },
            )
            &&& volume(rest, r.orders) == 0 ==> r.levels(o.side) == l.remove(k)
        }),
{
    let o = b.orders[id];
    let s = o.side;
    let l = b.levels(s);
    let ids = l[k].orders;
    assert(ids.contains(id)) by {
        assert(ids[j] == id);
    }
    lemma_only_found_level(l, s, b.orders, id, o.price, k);
    assert(ids.no_duplicates());
    ids.index_of_first_ensures(id);
    let f = ids.index_of_first(id).unwrap();
    assert(f == j) by {
        if f != j {
            assert(ids[f] == ids[j]);
        }
    }
    assert(ids.remove_value(id) == ids.remove(j));
    lemma_with_side(b, s, remove_from_levels(l, id, o.price, s, b.orders.remove(id)), b.orders.remove(id));
}

/// One change made to a book through `insert_order`, `remove_order` or
/// `match_order`.
pub enum BookOp {
    Insert(Order),
    Remove { id: OrderId, price: Price, side: Side },
    Match { bid_id: OrderId, ask_id: OrderId, volume: Quantity },
}

impl BookView {
    /// The book after one change.
    pub open spec fn apply(self, op: BookOp) -> BookView {
        match op {
            BookOp::Insert(o) => self.insert(o),
            BookOp::Remove { id, price, side } => self.remove(id, price, side),
            BookOp::Match { bid_id, ask_id, volume } => self.match_orders(bid_id, ask_id, volume),
        }
    }
}

/// The book after the changes `ops`, in order.
pub open spec fn apply_ops(b: BookView, ops: Seq<BookOp>) -> BookView
    decreases ops.len(),
{
    if ops.len() == 0 {
        b
    } else {
        apply_ops(b, ops.drop_last()).apply(ops.last())
    }
}

/// Order `o` with `volume` less left.
pub open spec fn reduced(o: Order, volume: Quantity) -> Order {
    Order { qty: (o.qty - volume) as u64, ..o }
}

/// The orders a history of changes leaves on file, told from the history
/// alone: an insert files its order; a removal takes the order off file; a
/// match of two filed orders takes the volume from each, and takes off file
/// one whose whole quantity it takes.
pub open spec fn filed(ops: Seq<BookOp>) -> Map<OrderId, Order>
    decreases ops.len(),
{
    if ops.len() == 0 {
        Map::empty()
    } else {
        let m = filed(ops.drop_last());
        match ops.last() {
            BookOp::Insert(o) => m.insert(o.order_id, o),
            BookOp::Remove { id, .. } => m.remove(id),
            BookOp::Match { bid_id, ask_id, volume } => if m.contains_key(bid_id) && m.contains_key(ask_id) {
                let m1 = if m[bid_id].qty == volume {
                    m.remove(bid_id)
                } else {
                    m.insert(bid_id, reduced(m[bid_id], volume))
                };
                if m[ask_id].qty == volume {
                    m1.remove(ask_id)
                } else {
                    m1.insert(ask_id, reduced(m1[ask_id], volume))
                }
            } else {
                m
            },
        }
    }
}

/// What `get_order` finds in a book built from an empty one by a history of
/// changes depends on that history alone: it is what `filed` keeps, whatever
/// the levels went through.
pub proof fn law_orders_follow_history(ops: Seq<BookOp>)
    ensures
        apply_ops(empty_book(), ops).orders == filed(ops),
    decreases ops.len(),
{
    if ops.len() > 0 {
        law_orders_follow_history(ops.drop_last());
        let b = apply_ops(empty_book(), ops.drop_last());
        let m = b.orders;
        match ops.last() {
            BookOp::Insert(o) => {
                lemma_with_side(b, o.side, insert_into_levels(b.levels(o.side), o), m.insert(o.order_id, o));
            },
            BookOp::Remove { id, price, side } => {
                lemma_with_side(b, side, remove_from_levels(b.levels(side), id, price, side, m.remove(id)), m.remove(id));
            },
            BookOp::Match { bid_id, ask_id, volume } => {
                if m.contains_key(bid_id) && m.contains_key(ask_id) {
                    let bid = m[bid_id];
                    let ask = m[ask_id];
                    let b1 = if bid.qty == volume {
                        b.remove(bid_id, bid.price, Side::Bid)
                    } else {
                        b.reduce(bid_id, volume)
                    };
                    lemma_with_side(b, Side::Bid, remove_from_levels(b.bids, bid_id, bid.price, Side::Bid, m.remove(bid_id)), m.remove(bid_id));
                    lemma_with_side(b1, Side::Ask, remove_from_levels(b1.asks, ask_id, ask.price, Side::Ask, b1.orders.remove(ask_id)), b1.orders.remove(ask_id));
                    if bid.qty != volume {
                        assert(b1.orders == m.insert(bid_id, reduced(m[bid_id], volume)));
                    }
                    if ask.qty != volume {
                        assert(b1.reduce(ask_id, volume).orders =~= b1.orders.insert(ask_id, reduced(b1.orders[ask_id], volume)));
                    }
                }
            },
        }
    }
}

/// In the summary of a well-formed book, bid prices strictly rise and ask
/// prices strictly fall, so the last entry of each side is its best price.
pub proof fn law_summary_sorted(b: BookView)
    requires
        b.wf(),
    ensures
        forall|i: int, j: int|
            0 <= i < j < b.bids.len() ==> (#[trigger] summary(b.bids, b.orders)[i]).0 < (
            #[trigger] summary(b.bids, b.orders)[j]).0,
        forall|i: int, j: int|
            0 <= i < j < b.asks.len() ==> (#[trigger] summary(b.asks, b.orders)[i]).0 > (
            #[trigger] summary(b.asks, b.orders)[j]).0,
{
    assert forall|i: int, j: int| 0 <= i < j < b.bids.len() implies (#[trigger] summary(b.bids, b.orders)[i]).0 < (#[trigger] summary(b.bids, b.orders)[j]).0 by {
        assert(better(Side::Bid, b.bids[j].price, b.bids[i].price));
    }
    assert forall|i: int, j: int| 0 <= i < j < b.asks.len() implies (#[trigger] summary(b.asks, b.orders)[i]).0 > (#[trigger] summary(b.asks, b.orders)[j]).0 by {
        assert(better(Side::Ask, b.asks[j].price, b.asks[i].price));
    }
}

/// Taking an order out never improves the best price of a side: a book that
/// is not crossed stays so.
pub proof fn law_remove_keeps_uncrossed(b: BookView, id: OrderId, price: Price, side: Side, qty: Quantity)
    requires
        b.wf(),
        b.remove_ok(id, price, side, qty),
        !b.in_cross(),
    ensures
        !b.remove(id, price, side).in_cross(),
{
    let l = b.levels(side);
    let m2 = b.orders.remove(id);
    let l2 = remove_from_levels(l, id, price, side, m2);
    lemma_with_side(b, side, l2, m2);
    lemma_search(l, price, side);
    if l2.len() > 0 {
        match search(l, price, side) {
            None => {},
            Some(k) => {
                let ids = l[k].orders.remove_value(id);
                if volume(ids, m2) == 0 {
                    if k == l.len() - 1 {
                        assert(l2.last() == l[l.len() - 2]);
                        assert(better(side, l[l.len() - 1].price, l[l.len() - 2].price));
                    } else {
                        assert(l2.last() == l.last());
                    }
                } else {
                    assert(l2.last().price == l.last().price);
                }
            },
        }
        assert(!better(side, l2.last().price, l.last().price));
    }
    match side {
        Side::Bid => {},
        Side::Ask => {},
    }
}

// ---------------------------------------------------------------------------
// The executable book
// ---------------------------------------------------------------------------
#[derive(Debug)]
struct PriceLevel {
    orders: VecDeque<OrderId>,
    total_volume: Quantity,
    price: Price,
}

impl View for PriceLevel {
    type V = LevelView;

    closed spec fn view(&self) -> LevelView {
        LevelView { price: self.price, orders: self.orders@ }
    }
}

spec fn levels_view(v: Seq<PriceLevel>) -> Seq<LevelView> {
    v.map_values(|l: PriceLevel| l@)
}

spec fn totals_match(v: Seq<PriceLevel>, m: Map<OrderId, Order>) -> bool {
    forall|i: int| 0 <= i < v.len() ==> #[trigger] v[i].total_volume == volume(v[i].orders@, m)
}

impl PriceLevel {
    fn new(price: Price) -> (l: PriceLevel)
        ensures
            l.price == price,
            l.orders@ == Seq::<OrderId>::empty(),
            l.total_volume == 0,
    {
        PriceLevel { orders: VecDeque::new(), total_volume: 0, price }
    }

    fn add_order(&mut self, order_id: OrderId, qty: Quantity)
        requires
            old(self).total_volume + qty <= u64::MAX,
        ensures
            final(self).price == old(self).price,
            final(self).orders@ == old(self).orders@.push(order_id),
            final(self).total_volume == old(self).total_volume + qty,
    {
        self.total_volume += qty;
        self.orders.push_back(order_id);
    }

    fn reduce_volume(&mut self, volume: Quantity)
        requires
            old(self).total_volume >= volume,
        ensures
            final(self).price == old(self).price,
            final(self).orders@ == old(self).orders@,
            final(self).total_volume == old(self).total_volume - volume,
    {
        self.total_volume -= volume;
    }

    /// The first index of `order_id` in `orders`.
    fn position(orders: &VecDeque<OrderId>, order_id: OrderId) -> (r: Option<usize>)
        ensures
            orders@.index_of_first(order_id) == match r {
                Some(i) => Some(i as int),
                None => None::<int>,
            },
    {
        let n = orders.len();
        let mut i: usize = 0;
        while i < n
            invariant
                n == orders@.len(),
                0 <= i <= n,
                forall|j: int| 0 <= j < i ==> orders@[j] != order_id,
            decreases n - i,
        {
            if orders[i] == order_id {
                proof {
                    orders@.index_of_first_ensures(order_id);
                    let k = orders@.index_of_first(order_id).unwrap();
                    if k < i {
                        assert(orders@[k] != order_id);
                    }
                    if k > i {
                        assert(orders@[i as int] == order_id);
                    }
                }
                return Some(i);
            }
            i += 1;
        }
        proof {
            orders@.index_of_first_ensures(order_id);
        }
        None
    }

    fn remove_order(&mut self, order_id: OrderId, qty: Quantity) -> (r: Option<OrderId>)
        requires
            old(self).orders@.contains(order_id) ==> old(self).total_volume >= qty,
        ensures
            final(self).price == old(self).price,
            final(self).orders@ == old(self).orders@.remove_value(order_id),
            old(self).orders@.contains(order_id) ==> {
                &&& final(self).total_volume == old(self).total_volume - qty
                &&& r == Some(order_id)
            },
            !old(self).orders@.contains(order_id) ==> {
                &&& final(self).total_volume == old(self).total_volume
                &&& r is None
            },
    {
        proof {
            self.orders@.index_of_first_ensures(order_id);
        }
        if let Some(index) = Self::position(&self.orders, order_id) {
            self.total_volume -= qty;
            return self.orders.remove(index);
        } else {
            return None;
        }
    }
}

/// A limit order book.
#[derive(Debug)]
pub struct OrderBook {
    bids: Vec<PriceLevel>,
    asks: Vec<PriceLevel>,
    order_info: HashMap<OrderId, Order>,
}

impl Default for OrderBook {
    fn default() -> (b: OrderBook)
        ensures
            b.wf(),
            b@ == empty_book(),
    {
        OrderBook::new()
    }
}

impl View for OrderBook {
    type V = BookView;

    closed spec fn view(&self) -> BookView {
        BookView {
            bids: levels_view(self.bids@),
            asks: levels_view(self.asks@),
            orders: self.order_info@,
        }
    }
}

impl OrderBook {
    /// The invariant of a book: its model is well formed and each level
    /// keeps the volume of its orders.
    pub closed spec fn wf(&self) -> bool {
        &&& self@.wf()
        &&& totals_match(self.bids@, self.order_info@)
        &&& totals_match(self.asks@, self.order_info@)
    }

    /// A book that keeps its invariant has a well-formed model.
    pub proof fn lemma_wf(&self)
        requires
            self.wf(),
        ensures
            self@.wf(),
    {
    }

    /// An empty book.
    pub fn new() -> (b: OrderBook)
        ensures
            b.wf(),
            b@ == empty_book(),
    {
        let b = OrderBook { bids: Vec::new(), asks: Vec::new(), order_info: HashMap::new() };
        assert(b@.bids =~= Seq::<LevelView>::empty());
        assert(b@.asks =~= Seq::<LevelView>::empty());
        assert(b@.orders =~= Map::<OrderId, Order>::empty());
        b
    }

    fn linear_search(list: &Vec<PriceLevel>, price: Price, side: Side) -> (r: Option<usize>)
        ensures
            r matches Some(i) ==> i < list@.len(),
            match r {
                Some(i) => search(levels_view(list@), price, side) == Some(i as int),
                None => search(levels_view(list@), price, side) is None,
            },
    {
        let ghost lv = levels_view(list@);
        let mut pos = list.len();
        while pos > 0
            invariant
                pos <= list.len(),
                lv == levels_view(list@),
                forall|j: int| pos <= j < list.len() ==> !behind(side, #[trigger] lv[j].price, price),
            decreases pos,
        {
            pos -= 1;
            let level_price = list[pos].price;
            let found = match side {
                Side::Bid => price >= level_price,
                Side::Ask => price <= level_price,
            };
            assert(lv[pos as int].price == level_price);
            if found {
                proof {
                    lemma_search(lv, price, side);
                    match search(lv, price, side) {
                        Some(k) => {
                            if k < pos {
                                assert(!behind(side, lv[pos as int].price, price));
                            } else if k > pos {
                                assert(!behind(side, lv[k].price, price));
                            }
                        },
                        None => {
                            assert(!behind(side, lv[pos as int].price, price));
                        },
                    }
                }
                return Some(pos);
            }
        }
        proof {
            lemma_search(lv, price, side);
            if let Some(k) = search(lv, price, side) {
                assert(!behind(side, lv[k].price, price));
            }
        }
        None
    }

    /// The order at the front of the best level of `side`.
    pub fn best_order(&self, side: Side) -> (r: Option<OrderId>)
        requires
            self.wf(),
        ensures
            r == self@.best(side),
    {
        match side {
            Side::Bid => {
                let n = self.bids.len();
                if n == 0 {
                    return None;
                }
                assert(self@.bids[n - 1].orders.len() > 0);
                Some(self.bids[n - 1].orders[0])
            },
            Side::Ask => {
                let n = self.asks.len();
                if n == 0 {
                    return None;
                }
                assert(self@.asks[n - 1].orders.len() > 0);
                Some(self.asks[n - 1].orders[0])
            },
        }
    }

    /// Whether the best bid is at or above the best ask.
    pub fn is_in_cross(&self) -> (r: bool)
        ensures
            r == self@.in_cross(),
    {
        let nb = self.bids.len();
        let na = self.asks.len();
        if nb == 0 || na == 0 {
            return false;
        }
        self.bids[nb - 1].price >= self.asks[na - 1].price
    }

    /// The order with id `order_id`, if the book knows it.
    pub fn get_order(&self, order_id: OrderId) -> (r: Option<&Order>)
        ensures
            match r {
                Some(o) => self@.orders.contains_key(order_id) && *o == self@.orders[order_id],
                None => !self@.orders.contains_key(order_id),
            },
    {
        self.order_info.get(&order_id)
    }

    fn insert_into_side(list: &mut Vec<PriceLevel>, order: &Order, Ghost(m): Ghost<Map<OrderId, Order>>)
        requires
            levels_wf(levels_view(old(list)@), order.side, m),
            totals_match(old(list)@, m),
            !m.contains_key(order.order_id),
            forall|k: int|
                0 <= k < old(list)@.len() && #[trigger] levels_view(old(list)@)[k].price == order.price
                    ==> volume(levels_view(old(list)@)[k].orders, m) + order.qty <= u64::MAX,
        ensures
            levels_view(final(list)@) == insert_into_levels(levels_view(old(list)@), *order),
            totals_match(final(list)@, m.insert(order.order_id, *order)),
    {
        let ghost old_list = list@;
        let ghost lv = levels_view(list@);
        let ghost m2 = m.insert(order.order_id, *order);
        let ghost id = order.order_id;
        proof {
            assert forall|i: int| 0 <= i < lv.len() implies !(#[trigger] lv[i]).orders.contains(id) by {
                if lv[i].orders.contains(id) {
                    assert(level_holds(lv, id));
                    lemma_held_known(lv, order.side, m, id);
                }
            }
            assert forall|i: int| 0 <= i < old_list.len() implies volume((#[trigger] old_list[i]).orders@, m2) == volume(old_list[i].orders@, m) by {
                assert(lv[i] == old_list[i]@);
                lemma_volume_replace(old_list[i].orders@, m, id, *order);
            }
        }
        let price = order.price;
        let pos = Self::linear_search(list, price, order.side);
        match pos {
            Some(p) => {
                if list[p].price != price {
                    let n = list.len();
                    assert(p < n);
                    let p1 = p + 1;
                    list.insert(p1, PriceLevel::new(price));
                    list[p1].add_order(order.order_id, order.qty);
                    proof {
                        let nl = list@[p1 as int];
                        assert(nl.orders@ =~= seq![id]);
                        lemma_volume_single(id, m2);
                        assert(levels_view(list@) =~= lv.insert(p1 as int, new_level(price, id)));
                        assert forall|i: int| 0 <= i < list@.len() implies #[trigger] list@[i].total_volume == volume(list@[i].orders@, m2) by {
                            if i < p1 {
                                assert(list@[i] == old_list[i]);
                            } else if i > p1 {
                                assert(list@[i] == old_list[i - 1]);
                            }
                        }
                    }
                } else {
                    proof {
                        assert(lv[p as int].price == price);
                        lemma_volume_replace(old_list[p as int].orders@, m, id, *order);
                    }
                    list[p].add_order(order.order_id, order.qty);
                    proof {
                        lemma_volume_push(old_list[p as int].orders@, id, m2);
                        assert(levels_view(list@) =~= lv.update(
                            p as int,
                            LevelView { price, orders: lv[p as int].orders.push(id) },
                        ));
                        assert forall|i: int| 0 <= i < list@.len() implies #[trigger] list@[i].total_volume == volume(list@[i].orders@, m2) by {
                            if i != p {
                                assert(list@[i] == old_list[i]);
                            }
                        }
                    }
                }
            },
            None => {
                list.insert(0, PriceLevel::new(price));
                list[0].add_order(order.order_id, order.qty);
                proof {
                    let nl = list@[0];
                    assert(nl.orders@ =~= seq![id]);
                    lemma_volume_single(id, m2);
                    assert(levels_view(list@) =~= lv.insert(0, new_level(price, id)));
                    assert forall|i: int| 0 <= i < list@.len() implies #[trigger] list@[i].total_volume == volume(list@[i].orders@, m2) by {
                        if i > 0 {
                            assert(list@[i] == old_list[i - 1]);
                        }
                    }
                }
            },
        }
    }

    /// Puts `order` in the book, at the back of the queue of its price.
    pub fn insert_order(&mut self, order: Order)
        requires
            old(self).wf(),
            old(self)@.can_insert(order),
        ensures
            final(self).wf(),
            final(self)@ == old(self)@.insert(order),
    {
        let ghost m = self.order_info@;
        let ghost m2 = m.insert(order.order_id, order);
        proof {
            lemma_insert_wf(self@, order);
        }
        match order.side {
            Side::Bid => {
                proof {
                    Self::lemma_totals_insert_other(self.asks@, Side::Ask, m, order);
                }
                Self::insert_into_side(&mut self.bids, &order, Ghost(m));
            },
            Side::Ask => {
                proof {
                    Self::lemma_totals_insert_other(self.bids@, Side::Bid, m, order);
                }
                Self::insert_into_side(&mut self.asks, &order, Ghost(m));
            },
        }
        self.order_info.insert(order.order_id, order);
        proof {
            let b2 = old(self)@.insert(order);
            assert(self@.orders == m2);
            match order.side {
                Side::Bid => {
                    assert(self@ == b2);
                },
                Side::Ask => {
                    assert(self@ == b2);
                },
            }
        }
    }

    proof fn lemma_totals_insert_other(list: Seq<PriceLevel>, side: Side, m: Map<OrderId, Order>, o: Order)
        requires
            levels_wf(levels_view(list), side, m),
            totals_match(list, m),
            !m.contains_key(o.order_id),
        ensures
            totals_match(list, m.insert(o.order_id, o)),
    {
        let lv = levels_view(list);
        assert forall|i: int| 0 <= i < list.len() implies #[trigger] list[i].total_volume == volume(list[i].orders@, m.insert(o.order_id, o)) by {
            assert(lv[i] == list[i]@);
            if list[i].orders@.contains(o.order_id) {
                assert(lv[i].orders.contains(o.order_id));
                assert(level_holds(lv, o.order_id));
                lemma_held_known(lv, side, m, o.order_id);
            }
            lemma_volume_replace(list[i].orders@, m, o.order_id, o);
        }
    }

    fn remove_from_side(
        list: &mut Vec<PriceLevel>,
        order_id: OrderId,
        price: Price,
        side: Side,
        qty: Quantity,
        Ghost(m): Ghost<Map<OrderId, Order>>,
    )
        requires
            levels_wf(levels_view(old(list)@), side, m),
            totals_match(old(list)@, m),
            m.contains_key(order_id) ==> m[order_id].price == price && m[order_id].qty == qty,
        ensures
            levels_view(final(list)@) == remove_from_levels(levels_view(old(list)@), order_id, price, side, m.remove(order_id)),
            totals_match(final(list)@, m.remove(order_id)),
    {
        let ghost old_list = list@;
        let ghost lv = levels_view(list@);
        let ghost m2 = m.remove(order_id);
        proof {
            assert forall|i: int| 0 <= i < lv.len() && #[trigger] lv[i].orders.contains(order_id) implies search(lv, price, side) == Some(i) by {
                lemma_only_found_level(lv, side, m, order_id, price, i);
            }
        }
        if let Some(pos) = Self::linear_search(list, price, side) {
            let ghost ids = old_list[pos as int].orders@;
            proof {
                assert(lv[pos as int] == old_list[pos as int]@);
                assert(ids.no_duplicates());
                ids.index_of_first_ensures(order_id);
                if ids.contains(order_id) {
                    let j = ids.index_of_first(order_id).unwrap();
                    assert(lv[pos as int].orders[j] == order_id);
                    lemma_volume_ge(ids, j, m);
                    lemma_volume_remove(ids, j, m);
                    lemma_remove_keeps(ids, j);
                    lemma_volume_drop(ids.remove(j), m, order_id);
                } else {
                    lemma_volume_drop(ids, m, order_id);
                }
                assert forall|i: int| 0 <= i < old_list.len() && i != pos implies volume((#[trigger] old_list[i]).orders@, m2) == volume(old_list[i].orders@, m) by {
                    assert(lv[i] == old_list[i]@);
                    lemma_volume_drop(old_list[i].orders@, m, order_id);
                }
            }
            list[pos].remove_order(order_id, qty);
            let ghost updated = list@;
            proof {
                assert(updated[pos as int].total_volume == volume(updated[pos as int].orders@, m2));
                assert(levels_view(updated) =~= lv.update(
                    pos as int,
                    LevelView { price: lv[pos as int].price, orders: ids.remove_value(order_id) },
                ));
            }
            if list[pos].total_volume == 0 {
                list.remove(pos);
                proof {
                    assert(levels_view(list@) =~= lv.remove(pos as int));
                    assert forall|i: int| 0 <= i < list@.len() implies #[trigger] list@[i].total_volume == volume(list@[i].orders@, m2) by {
                        if i < pos {
                            assert(list@[i] == old_list[i]);
                        } else {
                            assert(list@[i] == old_list[i + 1]);
                        }
                    }
                }
            } else {
                proof {
                    assert forall|i: int| 0 <= i < list@.len() implies #[trigger] list@[i].total_volume == volume(list@[i].orders@, m2) by {
                        if i != pos {
                            assert(list@[i] == old_list[i]);
                        }
                    }
                }
            }
        } else {
            proof {
                assert forall|i: int| 0 <= i < list@.len() implies #[trigger] list@[i].total_volume == volume(list@[i].orders@, m2) by {
                    assert(lv[i] == old_list[i]@);
                    lemma_volume_drop(old_list[i].orders@, m, order_id);
                }
            }
        }
    }

    proof fn lemma_totals_remove_other(list: Seq<PriceLevel>, side: Side, m: Map<OrderId, Order>, id: OrderId)
        requires
            levels_wf(levels_view(list), side, m),
            totals_match(list, m),
            m.contains_key(id) ==> m[id].side != side,
        ensures
            totals_match(list, m.remove(id)),
    {
        let lv = levels_view(list);
        assert forall|i: int| 0 <= i < list.len() implies #[trigger] list[i].total_volume == volume(list[i].orders@, m.remove(id)) by {
            assert(lv[i] == list[i]@);
            if list[i].orders@.contains(id) {
                assert(lv[i].orders.contains(id));
                assert(level_holds(lv, id));
                lemma_held_known(lv, side, m, id);
            }
            lemma_volume_drop(list[i].orders@, m, id);
        }
    }

    /// Takes order `order_id` out of the book; the arguments describe the
    /// order, as `remove_ok` says.
    pub fn remove_order(&mut self, order_id: OrderId, price: Price, side: Side, qty: Quantity)
        requires
            old(self).wf(),
            old(self)@.remove_ok(order_id, price, side, qty),
        ensures
            final(self).wf(),
            final(self)@ == old(self)@.remove(order_id, price, side),
    {
        let ghost m = self.order_info@;
        proof {
            lemma_remove_wf(self@, order_id, price, side, qty);
        }
        match side {
            Side::Bid => {
                proof {
                    Self::lemma_totals_remove_other(self.asks@, Side::Ask, m, order_id);
                }
                Self::remove_from_side(&mut self.bids, order_id, price, side, qty, Ghost(m));
            },
            Side::Ask => {
                proof {
                    Self::lemma_totals_remove_other(self.bids@, Side::Bid, m, order_id);
                }
                Self::remove_from_side(&mut self.asks, order_id, price, side, qty, Ghost(m));
            },
        }
        self.order_info.remove(&order_id);
        proof {
            let b2 = old(self)@.remove(order_id, price, side);
            match side {
                Side::Bid => {
                    assert(self@ == b2);
                },
                Side::Ask => {
                    assert(self@ == b2);
                },
            }
        }
    }

    fn reduce_in_side(
        list: &mut Vec<PriceLevel>,
        order_id: OrderId,
        price: Price,
        side: Side,
        vol: Quantity,
        Ghost(m): Ghost<Map<OrderId, Order>>,
    ) -> (found: bool)
        requires
            levels_wf(levels_view(old(list)@), side, m),
            totals_match(old(list)@, m),
            m.contains_key(order_id),
            m[order_id].price == price,
            m[order_id].side == side,
            vol < m[order_id].qty,
            level_holds(levels_view(old(list)@), order_id),
        ensures
            found,
            levels_view(final(list)@) == levels_view(old(list)@),
            totals_match(
                final(list)@,
                m.insert(
                    order_id,
                    Order {
                        account_id: m[order_id].account_id,
                        side: m[order_id].side,
                        price: m[order_id].price,
                        qty: (m[order_id].qty - vol) as u64,
                        order_id: m[order_id].order_id,
                    },
                ),
            ),
    {
        let ghost old_list = list@;
        let ghost lv = levels_view(list@);
        let ghost o = m[order_id];
        let ghost o2 = Order {
            account_id: o.account_id,
            side: o.side,
            price: o.price,
            qty: (o.qty - vol) as u64,
            order_id: o.order_id,
        };
        let ghost m2 = m.insert(order_id, o2);
        let ghost k = choose|i: int| 0 <= i < lv.len() && #[trigger] lv[i].orders.contains(order_id);
        proof {
            lemma_only_found_level(lv, side, m, order_id, price, k);
            assert forall|i: int| 0 <= i < old_list.len() && i != k implies volume((#[trigger] old_list[i]).orders@, m2) == volume(old_list[i].orders@, m) by {
                assert(lv[i] == old_list[i]@);
                if old_list[i].orders@.contains(order_id) {
                    assert(lv[i].orders.contains(order_id));
                    lemma_only_found_level(lv, side, m, order_id, price, i);
                }
                lemma_volume_replace(old_list[i].orders@, m, order_id, o2);
            }
            assert(lv[k] == old_list[k]@);
            lemma_volume_replace(old_list[k].orders@, m, order_id, o2);
        }
        if let Some(pos) = Self::linear_search(list, price, side) {
            list[pos].reduce_volume(vol);
            proof {
                assert(levels_view(list@) =~= lv);
                assert forall|i: int| 0 <= i < list@.len() implies #[trigger] list@[i].total_volume == volume(list@[i].orders@, m2) by {
                    if i != pos {
                        assert(list@[i] == old_list[i]);
                    }
                }
            }
            true
        } else {
            false
        }
    }

    /// Lowers the quantity of a resting order by `volume`, less than what it has.
    fn reduce_volume(&mut self, order_id: OrderId, price: Price, side: Side, vol: Quantity)
        requires
            old(self).wf(),
            old(self)@.orders.contains_key(order_id),
            old(self)@.orders[order_id].price == price,
            old(self)@.orders[order_id].side == side,
            vol < old(self)@.orders[order_id].qty,
        ensures
            final(self).wf(),
            final(self)@ == old(self)@.reduce(order_id, vol),
    {
        let ghost m = self.order_info@;
        proof {
            lemma_reduce_wf(self@, order_id, vol);
            assert(level_holds(self@.levels(side), order_id));
        }
        let found = match side {
            Side::Bid => {
                proof {
                    Self::lemma_totals_reduce_other(self.asks@, Side::Ask, m, order_id, vol);
                }
                Self::reduce_in_side(&mut self.bids, order_id, price, side, vol, Ghost(m))
            },
            Side::Ask => {
                proof {
                    Self::lemma_totals_reduce_other(self.bids@, Side::Bid, m, order_id, vol);
                }
                Self::reduce_in_side(&mut self.asks, order_id, price, side, vol, Ghost(m))
            },
        };
        if found {
            if let Some(o) = self.order_info.get(&order_id) {
                let reduced = Order {
                    account_id: o.account_id,
                    side: o.side,
                    price: o.price,
                    qty: o.qty - vol,
                    order_id: o.order_id,
                };
                self.order_info.insert(order_id, reduced);
            }
        }
        proof {
            let b2 = old(self)@.reduce(order_id, vol);
            match side {
                Side::Bid => {
                    assert(self@ == b2);
                },
                Side::Ask => {
                    assert(self@ == b2);
                },
            }
        }
    }

    proof fn lemma_totals_reduce_other(
        list: Seq<PriceLevel>,
        side: Side,
        m: Map<OrderId, Order>,
        id: OrderId,
        vol: Quantity,
    )
        requires
            levels_wf(levels_view(list), side, m),
            totals_match(list, m),
            m.contains_key(id),
            m[id].side != side,
        ensures
            totals_match(
                list,
                m.insert(
                    id,
                    Order {
                        account_id: m[id].account_id,
                        side: m[id].side,
                        price: m[id].price,
                        qty: (m[id].qty - vol) as u64,
                        order_id: m[id].order_id,
                    },
                ),
            ),
    {
        let lv = levels_view(list);
        let o = m[id];
        let o2 = Order {
            account_id: o.account_id,
            side: o.side,
            price: o.price,
            qty: (o.qty - vol) as u64,
            order_id: o.order_id,
        };
        assert forall|i: int| 0 <= i < list.len() implies #[trigger] list[i].total_volume == volume(list[i].orders@, m.insert(id, o2)) by {
            assert(lv[i] == list[i]@);
            if list[i].orders@.contains(id) {
                assert(lv[i].orders.contains(id));
                assert(level_holds(lv, id));
                lemma_held_known(lv, side, m, id);
            }
            lemma_volume_replace(list[i].orders@, m, id, o2);
        }
    }

    /// Applies a trade of `trade_volume` between bid `bid_id` and ask
    /// `ask_id`: an order filled completely leaves the book, the other keeps
    /// what is left. Nothing happens unless the book knows both orders.
    pub fn match_order(&mut self, bid_id: OrderId, ask_id: OrderId, trade_volume: Quantity)
        requires
            old(self).wf(),
            old(self)@.match_ok(bid_id, ask_id, trade_volume),
        ensures
            final(self).wf(),
            final(self)@ == old(self)@.match_orders(bid_id, ask_id, trade_volume),
    {
        let orders: Option<(Order, Order)> = match (self.order_info.get(&bid_id), self.order_info.get(&ask_id)) {
            (Some(bid), Some(ask)) => Some((*bid, *ask)),
            _ => None,
        };
        if let Some((bid, ask)) = orders {
            let ghost b0 = self@;
            let (bid_price, ask_price) = (bid.price, ask.price);
            let (bid_qty, ask_qty) = (bid.qty, ask.qty);
            if bid_qty == trade_volume {
                self.remove_order(bid_id, bid_price, Side::Bid, bid_qty);
            } else {
                self.reduce_volume(bid_id, bid_price, Side::Bid, trade_volume);
            }
            proof {
                if bid_qty == trade_volume {
                    lemma_remove_wf(b0, bid_id, bid_price, Side::Bid, bid_qty);
                } else {
                    lemma_reduce_wf(b0, bid_id, trade_volume);
                }
                assert(self@.orders.contains_key(ask_id) && self@.orders[ask_id] == ask);
            }
            if ask_qty == trade_volume {
                self.remove_order(ask_id, ask_price, Side::Ask, ask_qty);
            } else {
                self.reduce_volume(ask_id, ask_price, Side::Ask, trade_volume);
            }
        }
    }

    /// Whether the level at `price` on `side`, if there is one, can take
    /// `qty` more without overflowing its volume.
    pub fn level_has_room(&self, side: Side, price: Price, qty: Quantity) -> (r: bool)
        requires
            self.wf(),
        ensures
            r == (forall|k: int|
                0 <= k < self@.levels(side).len() && #[trigger] self@.levels(side)[k].price == price
                    ==> volume(self@.levels(side)[k].orders, self@.orders) + qty <= u64::MAX),
    {
        let list = match side {
            Side::Bid => &self.bids,
            Side::Ask => &self.asks,
        };
        let ghost lv = levels_view(list@);
        assert(lv == self@.levels(side));
        assert(totals_match(list@, self@.orders));
        proof {
            assert forall|k: int| 0 <= k < lv.len() && #[trigger] lv[k].price == price implies search(lv, price, side) == Some(k) by {
                lemma_search_exact(lv, side, k);
            }
        }
        match Self::linear_search(list, price, side) {
            Some(p) => {
                if list[p].price == price {
                    assert(lv[p as int] == list@[p as int]@);
                    qty <= u64::MAX - list[p].total_volume
                } else {
                    assert(lv[p as int] == list@[p as int]@);
                    true
                }
            },
            None => true,
        }
    }

    /// The (price, volume) of each level, bids then asks, each from the
    /// worst price to the best.
    pub fn summarise(&self) -> (r: (Vec<(u64, u64)>, Vec<(u64, u64)>))
        requires
            self.wf(),
        ensures
            r.0@ == summary(self@.bids, self@.orders),
            r.1@ == summary(self@.asks, self@.orders),
    {
        (Self::summarise_side(&self.bids, Ghost(self.order_info@)), Self::summarise_side(&self.asks, Ghost(self.order_info@)))
    }

    fn summarise_side(list: &Vec<PriceLevel>, Ghost(m): Ghost<Map<OrderId, Order>>) -> (r: Vec<(u64, u64)>)
        requires
            totals_match(list@, m),
        ensures
            r@ == summary(levels_view(list@), m),
    {
        let mut out: Vec<(u64, u64)> = Vec::new();
        let n = list.len();
        for i in 0..n
            invariant
                n == list@.len(),
                totals_match(list@, m),
                out@.len() == i,
                forall|j: int| 0 <= j < i ==> #[trigger] out@[j] == summary(levels_view(list@), m)[j],
        {
            assert(list@[i as int].total_volume == volume(list@[i as int].orders@, m));
            out.push((list[i].price, list[i].total_volume));
        }
        assert(out@ =~= summary(levels_view(list@), m));
        out
    }
}

} // verus!
