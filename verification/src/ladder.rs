//! The price ladder a trading screen shows for a book: one row per quoted
//! price, highest first, with the volume bid and the volume asked there.
use vstd::prelude::*;

verus! {

/// One row of a ladder: the volume bid at the price (if any), the price, and
/// the volume asked at it (if any).
pub type LadderRow = (Option<u64>, u64, Option<u64>);

/// The volume of the first level of `levels` priced `price`, if there is one.
pub open spec fn volume_at(levels: Seq<(u64, u64)>, price: u64) -> Option<u64>
    decreases levels.len(),
{
    if levels.len() == 0 {
        None
    } else if levels[0].0 == price {
        Some(levels[0].1)
    } else {
        volume_at(levels.drop_first(), price)
    }
}

/// Some level of `levels` is priced `price`.
pub open spec fn quotes(levels: Seq<(u64, u64)>, price: u64) -> bool {
    exists|i: int| 0 <= i < levels.len() && #[trigger] levels[i].0 == price
}

/// The prices strictly fall from one element to the next.
pub open spec fn falling(prices: Seq<u64>) -> bool {
    forall|i: int, j: int| 0 <= i < j < prices.len() ==> prices[i] > prices[j]
}

/// `rows` is the ladder of a book whose sides are summarised as `bids` and
/// `asks` (price, volume): the prices quoted on either side, each once,
/// highest first, each with the volume of the first level of each side at
/// that price.
pub open spec fn is_ladder(rows: Seq<LadderRow>, bids: Seq<(u64, u64)>, asks: Seq<(u64, u64)>) -> bool {
    &&& falling(rows.map_values(|r: LadderRow| r.1))
    &&& forall|p: u64|
        (exists|i: int| 0 <= i < rows.len() && #[trigger] rows[i].1 == p) <==> (quotes(bids, p) || quotes(
            asks,
            p,
        ))
    &&& forall|i: int|
        0 <= i < rows.len() ==> {
            &&& (#[trigger] rows[i]).0 == volume_at(bids, rows[i].1)
            &&& rows[i].2 == volume_at(asks, rows[i].1)
        }
}

/// The volume of the first level of `levels` priced `price`, if any.
fn first_volume(levels: &Vec<(u64, u64)>, price: u64) -> (r: Option<u64>)
    ensures
        r == volume_at(levels@, price),
{
    let n = levels.len();
    let mut i: usize = 0;
    assert(levels@.skip(0) =~= levels@);
    while i < n
        invariant
            n == levels@.len(),
            0 <= i <= n,
            volume_at(levels@.skip(i as int), price) == volume_at(levels@, price),
        decreases n - i,
    {
        let ghost rest = levels@.skip(i as int);
        assert(rest[0] == levels@[i as int]);
        assert(rest.drop_first() =~= levels@.skip(i + 1));
        if levels[i].0 == price {
            return Some(levels[i].1);
        }
        i += 1;
    }
    assert(levels@.skip(n as int) =~= Seq::<(u64, u64)>::empty());
    None
}

/// Puts `price` into the falling list `prices`, unless it is there already.
pub(crate) fn add_price(prices: &mut Vec<u64>, price: u64)
    requires
        falling(old(prices)@),
    ensures
        falling(final(prices)@),
        forall|p: u64| #[trigger] final(prices)@.contains(p) <==> (old(prices)@.contains(p) || p == price),
{
    let n = prices.len();
    let mut i: usize = 0;
    while i < n && prices[i] > price
        invariant
            n == prices@.len(),
            0 <= i <= n,
            prices@ == old(prices)@,
            forall|j: int| 0 <= j < i ==> prices@[j] > price,
        decreases n - i,
    {
        i += 1;
    }
    if i < n && prices[i] == price {
        return;
    }
    let ghost before = prices@;
    assert(i < n ==> before[i as int] < price);
    prices.insert(i, price);
    assert forall|j: int, k: int| 0 <= j < k < prices@.len() implies prices@[j] > prices@[k] by {
        if k < i {
        } else if k == i {
        } else if j < i {
            assert(prices@[k] == before[k - 1]);
            assert(before[k - 1] <= before[i as int]);
        } else if j == i {
            assert(prices@[k] == before[k - 1]);
            assert(before[k - 1] <= before[i as int]);
        } else {
            assert(prices@[k] == before[k - 1]);
            assert(prices@[j] == before[j - 1]);
        }
    }
    assert forall|p: u64| #[trigger] prices@.contains(p) <==> (before.contains(p) || p == price) by {
        if prices@.contains(p) {
            let k = choose|k: int| 0 <= k < prices@.len() && prices@[k] == p;
            if k < i {
                assert(before[k] == p);
            } else if k > i {
                assert(before[k - 1] == p);
            }
        }
        if before.contains(p) {
            let k = choose|k: int| 0 <= k < before.len() && before[k] == p;
            if k < i {
                assert(prices@[k] == p);
            } else {
                assert(prices@[k + 1] == p);
            }
        }
        if p == price {
            assert(prices@[i as int] == p);
        }
    }
}

/// Adds the prices of `levels` to the falling list `prices`.
fn add_prices(prices: &mut Vec<u64>, levels: &Vec<(u64, u64)>)
    requires
        falling(old(prices)@),
    ensures
        falling(final(prices)@),
        forall|p: u64| #[trigger] final(prices)@.contains(p) <==> (old(prices)@.contains(p) || quotes(levels@, p)),
{
    let n = levels.len();
    for i in 0..n
        invariant
            n == levels@.len(),
            falling(prices@),
            forall|p: u64|
                #[trigger] prices@.contains(p) <==> (old(prices)@.contains(p) || quotes(levels@.take(i as int), p)),
    {
        let ghost before = prices@;
        add_price(prices, levels[i].0);
        assert forall|p: u64| #[trigger] prices@.contains(p) <==> (old(prices)@.contains(p) || quotes(
            levels@.take(i + 1),
            p,
        )) by {
            let t = levels@.take(i + 1);
            assert(t[i as int] == levels@[i as int]);
            if quotes(levels@.take(i as int), p) {
                let k = choose|k: int| 0 <= k < i && #[trigger] levels@.take(i as int)[k].0 == p;
                assert(t[k] == levels@.take(i as int)[k]);
            }
            if quotes(t, p) {
                let k = choose|k: int| 0 <= k < i + 1 && #[trigger] t[k].0 == p;
                if k < i {
                    assert(levels@.take(i as int)[k] == t[k]);
                }
            }
        }
    }
    assert(levels@.take(n as int) =~= levels@);
}

/// The ladder of a book whose sides are summarised as `bids` and `asks`.
pub fn ladder(bids: &Vec<(u64, u64)>, asks: &Vec<(u64, u64)>) -> (rows: Vec<LadderRow>)
    ensures
        is_ladder(rows@, bids@, asks@),
{
    let mut prices: Vec<u64> = Vec::new();
    add_prices(&mut prices, bids);
    add_prices(&mut prices, asks);
    let mut rows: Vec<LadderRow> = Vec::new();
    let n = prices.len();
    for k in 0..n
        invariant
            n == prices@.len(),
            rows@.len() == k,
            forall|i: int| 0 <= i < k ==> (#[trigger] rows@[i]).1 == prices@[i],
            forall|i: int|
                0 <= i < k ==> {
                    &&& (#[trigger] rows@[i]).0 == volume_at(bids@, rows@[i].1)
                    &&& rows@[i].2 == volume_at(asks@, rows@[i].1)
                },
    {
        let p = prices[k];
        rows.push((first_volume(bids, p), p, first_volume(asks, p)));
    }
    let ghost row_prices = rows@.map_values(|r: LadderRow| r.1);
    assert(row_prices =~= prices@);
    assert forall|p: u64|
        (exists|i: int| 0 <= i < rows@.len() && #[trigger] rows@[i].1 == p) <==> (quotes(bids@, p) || quotes(
            asks@,
            p,
        )) by {
        if prices@.contains(p) {
            let i = choose|i: int| 0 <= i < prices@.len() && prices@[i] == p;
            assert(rows@[i].1 == p);
        }
        if exists|i: int| 0 <= i < rows@.len() && #[trigger] rows@[i].1 == p {
            let i = choose|i: int| 0 <= i < rows@.len() && #[trigger] rows@[i].1 == p;
            assert(prices@[i] == p);
        }
    }
    rows
}

} // verus!
