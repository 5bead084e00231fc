//! The mathematical model of a book and of price-time priority matching.
use vstd::prelude::*;

use crate::order::{normalized_remaining, with_progress, Order, OrderSide, OrderStatus};
use crate::price::Price;

verus! {

/// A price level as a value: the level's price and its resting orders, oldest first.
pub struct LevelView {
    pub price: Price,
    pub orders: Seq<Order>,
}

/// What a trade says of the resting order it executed against.
pub struct Fill {
    pub price: Price,
    pub quantity: u64,
    pub maker_order_id: u128,
}

/// The resting liquidity of a book: each side best level first.
pub struct BookView {
    pub symbol: Seq<char>,
    pub bids: Seq<LevelView>,
    pub asks: Seq<LevelView>,
}

/// The result of admitting one order.
pub struct Outcome {
    pub status: OrderStatus,
    pub book: BookView,
    pub fills: Seq<Fill>,
}

pub open spec fn opposite(side: OrderSide) -> OrderSide {
    match side {
        OrderSide::Buy => OrderSide::Sell,
        OrderSide::Sell => OrderSide::Buy,
    }
}

/// Whether `a` has strict price priority over `b` on `side`: higher for bids, lower for asks.
pub open spec fn better(side: OrderSide, a: Price, b: Price) -> bool {
    match side {
        OrderSide::Buy => a.units() > b.units(),
        OrderSide::Sell => a.units() < b.units(),
    }
}

/// Whether a taker on `side` with limit `limit` may trade at a resting level priced `level`.
pub open spec fn crosses(side: OrderSide, level: Price, limit: Price) -> bool {
    match side {
        OrderSide::Buy => level.units() <= limit.units(),
        OrderSide::Sell => level.units() >= limit.units(),
    }
}

/// A resting order of the level priced `price` on `side` of the book for `symbol`.
pub open spec fn resting_ok(o: Order, side: OrderSide, symbol: Seq<char>, price: Price) -> bool {
    &&& o.side == side
    &&& o.symbol@ == symbol
    &&& o.price.wf()
    &&& o.price.units() == price.units()
    &&& 0 < o.remaining_quantity <= o.quantity
    &&& (o.status == OrderStatus::Accepted && o.remaining_quantity == o.quantity) || (o.status
        == OrderStatus::PartiallyFilled && o.remaining_quantity < o.quantity)
}

pub open spec fn level_wf(l: LevelView, side: OrderSide, symbol: Seq<char>) -> bool {
    &&& l.price.wf()
    &&& l.price.units() > 0
    &&& l.orders.len() > 0
    &&& forall|k: int| 0 <= k < l.orders.len() ==> resting_ok(#[trigger] l.orders[k], side, symbol, l.price)
}

/// A side of the book: non-empty levels, strictly ordered best first.
pub open spec fn side_wf(levels: Seq<LevelView>, side: OrderSide, symbol: Seq<char>) -> bool {
    &&& forall|i: int| 0 <= i < levels.len() ==> level_wf(#[trigger] levels[i], side, symbol)
    &&& forall|i: int, j: int|
        0 <= i < j < levels.len() ==> better(side, #[trigger] levels[i].price, #[trigger] levels[j].price)
}

/// Sum of the remaining quantities of `orders`.
pub open spec fn orders_total(orders: Seq<Order>) -> nat
    decreases orders.len(),
{
    if orders.len() == 0 {
        0
    } else {
        orders[0].remaining_quantity as nat + orders_total(orders.drop_first())
    }
}

/// Sum of the remaining quantities over all levels.
pub open spec fn levels_total(levels: Seq<LevelView>) -> nat
    decreases levels.len(),
{
    if levels.len() == 0 {
        0
    } else {
        orders_total(levels[0].orders) + levels_total(levels.drop_first())
    }
}

/// Sum of the quantities of `fills`.
pub open spec fn fills_total(fills: Seq<Fill>) -> nat
    decreases fills.len(),
{
    if fills.len() == 0 {
        0
    } else {
        fills[0].quantity as nat + fills_total(fills.drop_first())
    }
}

/// The book is well formed and not crossed.
pub open spec fn book_wf(b: BookView) -> bool {
    &&& side_wf(b.bids, OrderSide::Buy, b.symbol)
    &&& side_wf(b.asks, OrderSide::Sell, b.symbol)
    &&& levels_total(b.bids) <= u64::MAX
    &&& levels_total(b.asks) <= u64::MAX
    &&& b.bids.len() > 0 && b.asks.len() > 0 ==> b.bids[0].price.units() < b.asks[0].price.units()
}

/// A taker with `r` left to trade against one level's queue: makers are consumed from the
/// head; a maker that is used up leaves, one that is not stays at the head, partially filled.
/// Gives the queue afterwards, the fills in order, and what the taker has left.
pub open spec fn fill_level(orders: Seq<Order>, r: nat) -> (Seq<Order>, Seq<Fill>, nat)
    decreases orders.len(),
{
    if r == 0 || orders.len() == 0 {
        (orders, Seq::empty(), r)
    } else {
        let m = orders[0];
        if m.remaining_quantity as nat <= r {
            let f = Fill { price: m.price, quantity: m.remaining_quantity, maker_order_id: m.id };
            let (rest, fills, r2) = fill_level(orders.drop_first(), (r - m.remaining_quantity) as nat);
            (rest, seq![f] + fills, r2)
        } else {
            let f = Fill { price: m.price, quantity: r as u64, maker_order_id: m.id };
            let m2 = with_progress(m, (m.remaining_quantity - r) as u64, OrderStatus::PartiallyFilled);
            (orders.update(0, m2), seq![f], 0)
        }
    }
}

/// A taker on `side` with limit `limit` and `r` left, walking the opposite side best level
/// first while it crosses. Emptied levels leave. Gives the levels afterwards, the fills in
/// order, and what the taker has left.
pub open spec fn match_levels(levels: Seq<LevelView>, side: OrderSide, limit: Price, r: nat) -> (
    Seq<LevelView>,
    Seq<Fill>,
    nat,
)
    decreases levels.len(),
{
    if r == 0 || levels.len() == 0 || !crosses(side, levels[0].price, limit) {
        (levels, Seq::empty(), r)
    } else {
        let (orders, fills, r2) = fill_level(levels[0].orders, r);
        if orders.len() == 0 {
            let (rest, fills2, r3) = match_levels(levels.drop_first(), side, limit, r2);
            (rest, fills + fills2, r3)
        } else {
            (levels.update(0, LevelView { price: levels[0].price, orders: orders }), fills, r2)
        }
    }
}

/// `levels` (of `side`) with `o` appended to the level of its price, or in a new level at
/// its place in price order.
pub open spec fn rest_in(levels: Seq<LevelView>, side: OrderSide, o: Order) -> Seq<LevelView>
    decreases levels.len(),
{
    if levels.len() == 0 {
        seq![LevelView { price: o.price, orders: seq![o] }]
    } else if levels[0].price.units() == o.price.units() {
        levels.update(0, LevelView { price: levels[0].price, orders: levels[0].orders.push(o) })
    } else if better(side, o.price, levels[0].price) {
        seq![LevelView { price: o.price, orders: seq![o] }] + levels
    } else {
        seq![levels[0]] + rest_in(levels.drop_first(), side, o)
    }
}

pub open spec fn side_of(b: BookView, side: OrderSide) -> Seq<LevelView> {
    match side {
        OrderSide::Buy => b.bids,
        OrderSide::Sell => b.asks,
    }
}

/// `b` with the levels of `side` replaced.
pub open spec fn with_side(b: BookView, side: OrderSide, levels: Seq<LevelView>) -> BookView {
    match side {
        OrderSide::Buy => BookView { symbol: b.symbol, bids: levels, asks: b.asks },
        OrderSide::Sell => BookView { symbol: b.symbol, bids: b.bids, asks: levels },
    }
}

/// Whether the book for `symbol` turns `o` away.
pub open spec fn rejects(symbol: Seq<char>, o: Order) -> bool {
    o.symbol@ != symbol || o.price.units() <= 0 || o.quantity == 0
}

/// What admitting `order` to `b` gives: the taker's final status, the book afterwards and
/// the fills in the order they happened.
pub open spec fn add_order_outcome(b: BookView, order: Order) -> Outcome {
    if rejects(b.symbol, order) {
        Outcome { status: OrderStatus::Rejected, book: b, fills: Seq::empty() }
    } else {
        let side = order.side;
        let r0 = normalized_remaining(order);
        let (opp, fills, r) = match_levels(side_of(b, opposite(side)), side, order.price, r0 as nat);
        let b1 = with_side(b, opposite(side), opp);
        if r == 0 {
            Outcome { status: OrderStatus::Filled, book: b1, fills: fills }
        } else {
            let status = if r < order.quantity {
                OrderStatus::PartiallyFilled
            } else {
                OrderStatus::Accepted
            };
            let resting = with_progress(order, r as u64, status);
            Outcome {
                status: status,
                book: with_side(b1, side, rest_in(side_of(b, side), side, resting)),
                fills: fills,
            }
        }
    }
}

} // verus!
