//! The order book of one symbol.
use vstd::prelude::*;

use std::collections::VecDeque;

use crate::lemmas::{
    lemma_add_order_wf, lemma_level_total_le, lemma_levels_total_skip, lemma_orders_total_positive, lemma_orders_total_skip,
};
use crate::market_data::{
    bbo_due, published_qty, snapshot_due, BboUpdate, BboView, OrderBookSnapshot, PriceLevelInfo, SnapshotView,
};
use crate::matching::{
    add_order_outcome, book_wf, crosses, fill_level, level_wf, levels_total, match_levels,
    opposite, orders_total, rest_in, side_of, BookView, Fill, LevelView,
};
use crate::order::{with_progress, Order, OrderSide, OrderStatus, Trade};
use crate::price::{decimal_cmp, Price};
use core::cmp::Ordering;

verus! {

/// The resting orders at one price, oldest first.
pub struct PriceLevel {
    pub price: Price,
    pub orders: VecDeque<Order>,
}

impl View for PriceLevel {
    type V = LevelView;

    open spec fn view(&self) -> LevelView {
        LevelView { price: self.price, orders: self.orders@ }
    }
}

pub open spec fn levels_view(v: Seq<PriceLevel>) -> Seq<LevelView> {
    v.map_values(|l: PriceLevel| l@)
}

/// `t` is the trade that records fill `f` of taker `taker` in the book for `symbol`.
pub open spec fn records(t: Trade, f: Fill, taker: u128, symbol: Seq<char>) -> bool {
    &&& t.symbol@ == symbol
    &&& t.price == f.price
    &&& t.quantity == f.quantity
    &&& t.taker_order_id == taker
    &&& t.maker_order_id == f.maker_order_id
}

/// Whether a taker on `side` with limit `limit` may trade at `level`.
fn crosses_exec(side: OrderSide, level: &Price, limit: &Price) -> (r: bool)
    requires
        level.wf(),
        limit.wf(),
    ensures
        r == crosses(side, *level, *limit),
{
    match (side, decimal_cmp(level, limit)) {
        (OrderSide::Buy, Ordering::Greater) => false,
        (OrderSide::Sell, Ordering::Less) => false,
        _ => true,
    }
}

proof fn lemma_fill_level_stops(orders: Seq<Order>, r: nat)
    ensures
        fill_level(orders, r).0.len() == 0 || fill_level(orders, r).2 == 0,
    decreases orders.len(),
{
    if r > 0 && orders.len() > 0 && orders[0].remaining_quantity as nat <= r {
        lemma_fill_level_stops(orders.drop_first(), (r - orders[0].remaining_quantity) as nat);
    }
}

/// Trades taker `taker_id` (on `side`, limit `limit`, `r` left) against `levels`, the
/// opposite side, as `match_levels` describes; gives what the taker has left and the trades.
fn match_side(
    levels: &mut Vec<PriceLevel>,
    side: OrderSide,
    limit: &Price,
    r: u64,
    taker_id: u128,
    symbol: &String,
) -> (res: (u64, Vec<Trade>))
    requires
        forall|i: int| 0 <= i < old(levels)@.len() ==> (#[trigger] old(levels)@[i]).price.wf(),
        limit.wf(),
    ensures
        ({
            let (lv, fills, r2) = match_levels(levels_view(old(levels)@), side, *limit, r as nat);
            &&& levels_view(final(levels)@) == lv
            &&& res.0 == r2
            &&& res.1@.len() == fills.len()
            &&& forall|i: int| 0 <= i < fills.len() ==> records(#[trigger] res.1@[i], fills[i], taker_id, symbol@)
        }),
{
    let ghost total = match_levels(levels_view(levels@), side, *limit, r as nat);
    let ghost mut done: Seq<Fill> = Seq::empty();
    let mut r = r;
    let mut trades: Vec<Trade> = Vec::new();
    loop
        invariant
            forall|i: int| 0 <= i < levels@.len() ==> (#[trigger] levels@[i]).price.wf(),
            limit.wf(),
            match_levels(levels_view(levels@), side, *limit, r as nat).0 == total.0,
            done + match_levels(levels_view(levels@), side, *limit, r as nat).1 == total.1,
            match_levels(levels_view(levels@), side, *limit, r as nat).2 == total.2,
            trades@.len() == done.len(),
            forall|i: int| 0 <= i < done.len() ==> records(#[trigger] trades@[i], done[i], taker_id, symbol@),
        ensures
            levels_view(levels@) == total.0,
            done == total.1,
            r == total.2,
            trades@.len() == done.len(),
            forall|i: int| 0 <= i < done.len() ==> records(#[trigger] trades@[i], done[i], taker_id, symbol@),
        decreases levels@.len() + (if r > 0 { 1int } else { 0int }),
    {
        if r == 0 || levels.len() == 0 || !crosses_exec(side, &levels[0].price, limit) {
            assert(done + Seq::<Fill>::empty() =~= done);
            break;
        }
        let ghost before = levels_view(levels@);
        let ghost r_before = r as nat;
        let mut level = levels.remove(0);
        assert(levels_view(levels@) =~= before.drop_first());
        let ghost lvl0 = level@;
        let ghost lt = fill_level(lvl0.orders, r_before);
        let ghost mut here: Seq<Fill> = Seq::empty();
        loop
            invariant
                level.price == lvl0.price,
                lt == fill_level(lvl0.orders, r_before),
                fill_level(level.orders@, r as nat).0 == lt.0,
                here + fill_level(level.orders@, r as nat).1 == lt.1,
                fill_level(level.orders@, r as nat).2 == lt.2,
                trades@.len() == done.len() + here.len(),
                forall|i: int| 0 <= i < done.len() ==> records(#[trigger] trades@[i], done[i], taker_id, symbol@),
                forall|i: int| 0 <= i < here.len() ==> records(#[trigger] trades@[done.len() + i], here[i], taker_id, symbol@),
            ensures
                level.orders@ == lt.0,
                here == lt.1,
                r == lt.2,
                level.price == lvl0.price,
                trades@.len() == done.len() + here.len(),
                forall|i: int| 0 <= i < done.len() ==> records(#[trigger] trades@[i], done[i], taker_id, symbol@),
                forall|i: int| 0 <= i < here.len() ==> records(#[trigger] trades@[done.len() + i], here[i], taker_id, symbol@),
            decreases level.orders@.len() + (if r > 0 { 1int } else { 0int }),
        {
            if r == 0 || level.orders.len() == 0 {
                assert(here + Seq::<Fill>::empty() =~= here);
                break;
            }
            let ghost cur = level.orders@;
            let mut maker = match level.orders.pop_front() {
                Some(m) => m,
                None => {
                    break;
                },
            };
            let q: u64 = if maker.remaining_quantity <= r {
                maker.remaining_quantity
            } else {
                r
            };
            let ghost f = Fill { price: maker.price, quantity: q, maker_order_id: maker.id };
            trades.push(Trade::new(symbol.clone(), maker.price, q, taker_id, maker.id));
            r = r - q;
            maker.remaining_quantity = maker.remaining_quantity - q;
            let partial = maker.remaining_quantity > 0;
            if partial {
                maker.status = OrderStatus::PartiallyFilled;
                level.orders.push_front(maker);
                assert(level.orders@ =~= cur.update(0, level.orders@[0]));
            } else {
                assert(level.orders@ =~= cur.drop_first());
            }
            proof {
                assert(here + seq![f] + fill_level(level.orders@, r as nat).1 =~= here + (seq![f]
                    + fill_level(level.orders@, r as nat).1));
                if partial {
                    assert(fill_level(level.orders@, r as nat).1 =~= Seq::<Fill>::empty());
                    assert(seq![f] + Seq::<Fill>::empty() =~= seq![f]);
                }
                here = here + seq![f];
            }
        }
        proof {
            lemma_fill_level_stops(lvl0.orders, r_before);
            let both = done + here;
            assert forall|i: int| 0 <= i < both.len() implies records(#[trigger] trades@[i], both[i], taker_id, symbol@) by {
                if i >= done.len() {
                    assert(trades@[done.len() + (i - done.len())] == trades@[i]);
                }
            }
        }
        if level.orders.len() > 0 {
            levels.insert(0, level);
            assert(levels_view(levels@) =~= before.update(
                0,
                LevelView { price: lvl0.price, orders: lt.0 },
            ));
            proof {
                assert(done + here + Seq::<Fill>::empty() =~= done + here);
                done = done + here;
            }
        } else {
            proof {
                let m = match_levels(levels_view(levels@), side, *limit, r as nat);
                assert(done + here + m.1 =~= done + (here + m.1));
                done = done + here;
            }
        }
    }
    (r, trades)
}

/// `levels` with `o` appended to the level of its price, or in a new level at its place.
fn rest_order(levels: &mut Vec<PriceLevel>, side: OrderSide, o: Order)
    requires
        forall|i: int| 0 <= i < old(levels)@.len() ==> (#[trigger] old(levels)@[i]).price.wf(),
        o.price.wf(),
    ensures
        levels_view(final(levels)@) == rest_in(levels_view(old(levels)@), side, o),
{
    let ghost v0 = levels_view(levels@);
    let ghost goal = rest_in(v0, side, o);
    let ghost og = o;
    let mut i: usize = 0;
    assert(v0.take(0) + v0.skip(0) =~= v0);
    assert(v0.take(0) + rest_in(v0.skip(0), side, o) =~= goal);
    loop
        invariant
            i <= levels@.len(),
            levels_view(levels@) == v0,
            v0 == levels_view(old(levels)@),
            og == o,
            forall|k: int| 0 <= k < levels@.len() ==> (#[trigger] levels@[k]).price.wf(),
            o.price.wf(),
            goal == v0.take(i as int) + rest_in(v0.skip(i as int), side, o),
            goal == rest_in(v0, side, o),
        decreases levels@.len() - i,
    {
        if i == levels.len() {
            let mut q: VecDeque<Order> = VecDeque::new();
            let p = o.price;
            q.push_back(o);
            levels.push(PriceLevel { price: p, orders: q });
            proof {
                assert(q@ =~= seq![og]);
                assert(v0.skip(i as int) =~= Seq::<LevelView>::empty());
                assert(v0.take(i as int) =~= v0);
                assert(levels_view(levels@) =~= v0.take(i as int) + rest_in(v0.skip(i as int), side, og));
            }
            return;
        }
        let ghost tail = v0.skip(i as int);
        assert(tail[0] == levels@[i as int]@);
        match decimal_cmp(&levels[i].price, &o.price) {
            Ordering::Equal => {
                let mut level = levels.remove(i);
                level.orders.push_back(o);
                levels.insert(i, level);
                proof {
                    assert(levels_view(levels@) =~= v0.take(i as int) + rest_in(tail, side, og));
                }
                return;
            },
            ord => {
                let o_first = match (side, ord) {
                    (OrderSide::Buy, Ordering::Less) => true,
                    (OrderSide::Sell, Ordering::Greater) => true,
                    _ => false,
                };
                if o_first {
                    let mut q: VecDeque<Order> = VecDeque::new();
                    let p = o.price;
                    q.push_back(o);
                    levels.insert(i, PriceLevel { price: p, orders: q });
                    proof {
                        assert(q@ =~= seq![og]);
                        assert(levels_view(levels@) =~= v0.take(i as int) + rest_in(tail, side, og));
                    }
                    return;
                }
                proof {
                    assert(tail.drop_first() =~= v0.skip(i + 1));
                    assert(v0.take(i as int) + seq![tail[0]] =~= v0.take(i + 1));
                    assert(v0.take(i as int) + (seq![tail[0]] + rest_in(tail.drop_first(), side, o))
                        =~= v0.take(i + 1) + rest_in(v0.skip(i + 1), side, o));
                }
                i = i + 1;
            },
        }
    }
}

/// The sum of the remaining quantities at one level.
fn level_quantity(level: &PriceLevel) -> (q: u64)
    requires
        orders_total(level.orders@) <= u64::MAX,
    ensures
        q == orders_total(level.orders@),
{
    let ghost s = level.orders@;
    let mut i: usize = level.orders.len();
    let mut sum: u64 = 0;
    assert(s.skip(s.len() as int) =~= Seq::<Order>::empty());
    while i > 0
        invariant
            s == level.orders@,
            i <= s.len(),
            sum == orders_total(s.skip(i as int)),
            orders_total(s) <= u64::MAX,
        decreases i,
    {
        i = i - 1;
        proof {
            lemma_orders_total_skip(s, i as int);
        }
        sum = sum + level.orders[i].remaining_quantity;
    }
    assert(s.skip(0) =~= s);
    sum
}

/// The best price of a side.
pub open spec fn best_price(levels: Seq<LevelView>) -> Option<Price> {
    if levels.len() == 0 {
        None
    } else {
        Some(levels[0].price)
    }
}

/// The aggregate quantity at the best price of a side, unset where there is none.
pub open spec fn best_qty(levels: Seq<LevelView>) -> Option<u64> {
    if levels.len() == 0 {
        None
    } else {
        published_qty(Some(orders_total(levels[0].orders) as u64))
    }
}

/// The best bid and offer of a book.
pub open spec fn bbo_of(b: BookView) -> BboView {
    BboView {
        symbol: b.symbol,
        bid_price: best_price(b.bids),
        bid_qty: best_qty(b.bids),
        ask_price: best_price(b.asks),
        ask_qty: best_qty(b.asks),
    }
}

pub open spec fn min_nat(a: nat, b: nat) -> nat {
    if a < b {
        a
    } else {
        b
    }
}

/// The first `depth` levels of a side, each with its aggregate quantity.
pub open spec fn level_infos(levels: Seq<LevelView>, depth: nat) -> Seq<PriceLevelInfo> {
    Seq::new(
        min_nat(depth, levels.len()),
        |i: int| PriceLevelInfo { price: levels[i].price, quantity: orders_total(levels[i].orders) as u64 },
    )
}

/// The depth snapshot of a book.
pub open spec fn snapshot_of(b: BookView, depth: nat) -> SnapshotView {
    SnapshotView {
        symbol: b.symbol,
        bids: level_infos(b.bids, depth),
        asks: level_infos(b.asks, depth),
    }
}

fn infos(levels: &Vec<PriceLevel>, depth: usize) -> (r: Vec<PriceLevelInfo>)
    requires
        levels_total(levels_view(levels@)) <= u64::MAX,
    ensures
        r@ == level_infos(levels_view(levels@), depth as nat),
{
    let ghost v = levels_view(levels@);
    let n = if depth < levels.len() {
        depth
    } else {
        levels.len()
    };
    let mut r: Vec<PriceLevelInfo> = Vec::new();
    let mut i: usize = 0;
    while i < n
        invariant
            n == min_nat(depth as nat, v.len()),
            n <= levels@.len(),
            v == levels_view(levels@),
            levels_total(v) <= u64::MAX,
            i <= n,
            r@ == level_infos(v, depth as nat).take(i as int),
        decreases n - i,
    {
        proof {
            lemma_level_total_le(v, i as int);
        }
        assert(v[i as int] == levels@[i as int]@);
        let q = level_quantity(&levels[i]);
        r.push(PriceLevelInfo { price: levels[i].price, quantity: q });
        i = i + 1;
        assert(r@ =~= level_infos(v, depth as nat).take(i as int));
    }
    assert(level_infos(v, depth as nat).take(n as int) =~= level_infos(v, depth as nat));
    r
}

/// The book of one symbol: bids best (highest) first, asks best (lowest) first, and the
/// market data last published for it.
pub struct OrderBook {
    symbol: String,
    bids: Vec<PriceLevel>,
    asks: Vec<PriceLevel>,
    last_bbo: Option<BboUpdate>,
    last_snapshot: Option<OrderBookSnapshot>,
}

impl View for OrderBook {
    type V = BookView;

    closed spec fn view(&self) -> BookView {
        BookView {
            symbol: self.symbol@,
            bids: levels_view(self.bids@),
            asks: levels_view(self.asks@),
        }
    }
}

impl OrderBook {
    /// Sides well formed and not crossed.
    pub open spec fn wf(&self) -> bool {
        book_wf(self@)
    }

    /// The best bid and offer last published.
    pub closed spec fn cached_bbo(&self) -> Option<BboUpdate> {
        self.last_bbo
    }

    /// The snapshot last published.
    pub closed spec fn cached_snapshot(&self) -> Option<OrderBookSnapshot> {
        self.last_snapshot
    }

    /// An empty book for `symbol`.
    pub fn new(symbol: String) -> (r: OrderBook)
        ensures
            r@ == (BookView { symbol: symbol@, bids: Seq::empty(), asks: Seq::empty() }),
            r.wf(),
            r.cached_bbo().is_none(),
            r.cached_snapshot().is_none(),
    {
        let r = OrderBook {
            symbol,
            bids: Vec::new(),
            asks: Vec::new(),
            last_bbo: None,
            last_snapshot: None,
        };
        assert(levels_view(r.bids@) =~= Seq::<LevelView>::empty());
        assert(levels_view(r.asks@) =~= Seq::<LevelView>::empty());
        proof {
            assert(levels_total(Seq::<LevelView>::empty()) == 0);
        }
        r
    }

    pub fn symbol(&self) -> (r: &str)
        ensures
            r@ == self@.symbol,
    {
        self.symbol.as_str()
    }

    /// The bid levels, best first.
    pub fn bid_levels(&self) -> (r: &Vec<PriceLevel>)
        ensures
            levels_view(r@) == self@.bids,
    {
        &self.bids
    }

    /// The ask levels, best first.
    pub fn ask_levels(&self) -> (r: &Vec<PriceLevel>)
        ensures
            levels_view(r@) == self@.asks,
    {
        &self.asks
    }

    pub fn last_bbo(&self) -> (r: &Option<BboUpdate>)
        ensures
            *r == self.cached_bbo(),
    {
        &self.last_bbo
    }

    pub fn last_snapshot(&self) -> (r: &Option<OrderBookSnapshot>)
        ensures
            *r == self.cached_snapshot(),
    {
        &self.last_snapshot
    }

    /// The last published best bid and offer, to be replaced by the caller.
    pub fn last_bbo_mut(&mut self) -> (r: &mut Option<BboUpdate>)
        ensures
            *r == old(self).cached_bbo(),
            final(self)@ == old(self)@,
            final(self).cached_bbo() == *final(r),
            final(self).cached_snapshot() == old(self).cached_snapshot(),
    {
        &mut self.last_bbo
    }

    /// The last published snapshot, to be replaced by the caller.
    pub fn last_snapshot_mut(&mut self) -> (r: &mut Option<OrderBookSnapshot>)
        ensures
            *r == old(self).cached_snapshot(),
            final(self)@ == old(self)@,
            final(self).cached_snapshot() == *final(r),
            final(self).cached_bbo() == old(self).cached_bbo(),
    {
        &mut self.last_snapshot
    }

    /// Best bid price and quantity, best ask price and quantity.
    pub fn get_bbo_with_qty(&self) -> (r: (Option<Price>, Option<u64>, Option<Price>, Option<u64>))
        requires
            self.wf(),
        ensures
            r.0 == best_price(self@.bids),
            r.1 == best_qty(self@.bids),
            r.2 == best_price(self@.asks),
            r.3 == best_qty(self@.asks),
    {
        (best_of(&self.bids), best_quantity_of(&self.bids), best_of(&self.asks), best_quantity_of(&self.asks))
    }

    /// The top `depth` levels of each side with their aggregate quantities.
    pub fn get_snapshot(&self, depth: usize) -> (r: OrderBookSnapshot)
        requires
            self.wf(),
        ensures
            r@ == snapshot_of(self@, depth as nat),
            forall|i: int| 0 <= i < r.bids@.len() ==> (#[trigger] r.bids@[i]).quantity > 0,
            forall|i: int| 0 <= i < r.asks@.len() ==> (#[trigger] r.asks@[i]).quantity > 0,
    {
        proof {
            assert forall|i: int| 0 <= i < self@.bids.len() implies 0 < orders_total(#[trigger] self@.bids[i].orders) <= u64::MAX by {
                assert(level_wf(self@.bids[i], OrderSide::Buy, self@.symbol));
                lemma_level_total_le(self@.bids, i);
                lemma_orders_total_positive(self@.bids[i].orders);
            }
            assert forall|i: int| 0 <= i < self@.asks.len() implies 0 < orders_total(#[trigger] self@.asks[i].orders) <= u64::MAX by {
                assert(level_wf(self@.asks[i], OrderSide::Sell, self@.symbol));
                lemma_level_total_le(self@.asks, i);
                lemma_orders_total_positive(self@.asks[i].orders);
            }
        }
        let bids = infos(&self.bids, depth);
        let asks = infos(&self.asks, depth);
        OrderBookSnapshot::new(self.symbol.clone(), bids, asks)
    }

    /// Admits `order`: matches it against the opposite side under price-time priority and
    /// rests what is left of it. Gives the taker's final status and the trades in the order
    /// they happened; a rejected order leaves the book as it was.
    pub fn add_order(&mut self, order: Order) -> (r: (OrderStatus, Vec<Trade>))
        requires
            old(self).wf(),
            order.price.wf(),
            levels_total(side_of(old(self)@, order.side)) + order.quantity <= u64::MAX,
        ensures
            ({
                let out = add_order_outcome(old(self)@, order);
                &&& r.0 == out.status
                &&& final(self)@ == out.book
                &&& r.1@.len() == out.fills.len()
                &&& forall|i: int|
                    0 <= i < out.fills.len() ==> records(#[trigger] r.1@[i], out.fills[i], order.id, old(self)@.symbol)
            }),
            final(self).wf(),
            final(self).cached_bbo() == old(self).cached_bbo(),
            final(self).cached_snapshot() == old(self).cached_snapshot(),
    {
        let ghost b0 = self@;
        let ghost o0 = order;
        proof {
            lemma_add_order_wf(b0, o0);
        }
        let mut order = order;
        order.ensure_remaining_quantity();
        if !(order.symbol == self.symbol) || !order.price.is_positive() || order.quantity == 0 {
            return (OrderStatus::Rejected, Vec::new());
        }
        proof {
            assert forall|i: int| 0 <= i < self.bids@.len() implies (#[trigger] self.bids@[i]).price.wf() by {
                assert(level_wf(b0.bids[i], OrderSide::Buy, b0.symbol));
            }
            assert forall|i: int| 0 <= i < self.asks@.len() implies (#[trigger] self.asks@[i]).price.wf() by {
                assert(level_wf(b0.asks[i], OrderSide::Sell, b0.symbol));
            }
        }
        let side = order.side;
        let (left, trades) = match side {
            OrderSide::Buy => match_side(
                &mut self.asks,
                side,
                &order.price,
                order.remaining_quantity,
                order.id,
                &self.symbol,
            ),
            OrderSide::Sell => match_side(
                &mut self.bids,
                side,
                &order.price,
                order.remaining_quantity,
                order.id,
                &self.symbol,
            ),
        };
        if left == 0 {
            return (OrderStatus::Filled, trades);
        }
        let status = if left < order.quantity {
            OrderStatus::PartiallyFilled
        } else {
            OrderStatus::Accepted
        };
        order.status = status;
        order.remaining_quantity = left;
        assert(order == with_progress(o0, left, status));
        match side {
            OrderSide::Buy => rest_order(&mut self.bids, side, order),
            OrderSide::Sell => rest_order(&mut self.asks, side, order),
        }
        (status, trades)
    }

    /// The current best bid and offer, when it is to be published (see `bbo_due`); it then
    /// becomes the last published one.
    pub fn bbo_if_changed(&mut self) -> (r: Option<BboUpdate>)
        requires
            old(self).wf(),
        ensures
            final(self)@ == old(self)@,
            final(self).cached_snapshot() == old(self).cached_snapshot(),
            r.is_some() == bbo_due(old(self).cached_bbo(), bbo_of(old(self)@)),
            r.is_some() ==> r.unwrap()@ == bbo_of(old(self)@) && final(self).cached_bbo().is_some()
                && final(self).cached_bbo().unwrap()@ == bbo_of(old(self)@),
            r.is_none() ==> final(self).cached_bbo() == old(self).cached_bbo(),
    {
        let (bp, bq, ap, aq) = self.get_bbo_with_qty();
        let current = BboUpdate::new(self.symbol.clone(), bp, bq, ap, aq);
        assert(current@ == bbo_of(self@));
        let changed = match &self.last_bbo {
            Some(prev) => !prev.same_as(&current),
            None => !current.is_empty(),
        };
        if changed {
            let out = current.duplicate();
            self.last_bbo = Some(current);
            Some(out)
        } else {
            None
        }
    }

    /// The current snapshot of depth `depth`, when it is to be published (see
    /// `snapshot_due`); it then becomes the last published one.
    pub fn snapshot_if_changed(&mut self, depth: usize) -> (r: Option<OrderBookSnapshot>)
        requires
            old(self).wf(),
        ensures
            final(self)@ == old(self)@,
            final(self).cached_bbo() == old(self).cached_bbo(),
            r.is_some() == snapshot_due(old(self).cached_snapshot(), snapshot_of(old(self)@, depth as nat)),
            r.is_some() ==> r.unwrap()@ == snapshot_of(old(self)@, depth as nat)
                && final(self).cached_snapshot().is_some() && final(self).cached_snapshot().unwrap()@
                == snapshot_of(old(self)@, depth as nat),
            r.is_none() ==> final(self).cached_snapshot() == old(self).cached_snapshot(),
    {
        let current = self.get_snapshot(depth);
        let changed = match &self.last_snapshot {
            Some(prev) => !prev.same_as(&current),
            None => !current.is_empty(),
        };
        if changed {
            let out = current.duplicate();
            self.last_snapshot = Some(current);
            Some(out)
        } else {
            None
        }
    }

    /// Whether this is the book for `symbol`.
    pub fn is_for(&self, symbol: &String) -> (r: bool)
        ensures
            r == (self@.symbol == symbol@),
    {
        self.symbol == *symbol
    }

    /// The sum of the remaining quantities resting on `side`.
    pub fn side_quantity(&self, side: OrderSide) -> (r: u64)
        requires
            self.wf(),
        ensures
            r == levels_total(side_of(self@, side)),
    {
        let levels = match side {
            OrderSide::Buy => &self.bids,
            OrderSide::Sell => &self.asks,
        };
        let ghost v = levels_view(levels@);
        let mut i: usize = levels.len();
        let mut sum: u64 = 0;
        assert(v.skip(v.len() as int) =~= Seq::<LevelView>::empty());
        proof {
            assert(levels_total(Seq::<LevelView>::empty()) == 0);
        }
        while i > 0
            invariant
                v == levels_view(levels@),
                i <= v.len(),
                sum == levels_total(v.skip(i as int)),
                levels_total(v) <= u64::MAX,
            decreases i,
        {
            i = i - 1;
            proof {
                lemma_levels_total_skip(v, i as int);
                lemma_level_total_le(v, i as int);
            }
            assert(v[i as int] == levels@[i as int]@);
            let q = level_quantity(&levels[i]);
            sum = sum + q;
        }
        assert(v.skip(0) =~= v);
        sum
    }

    /// Drops every resting order and forgets the market data last published.
    pub fn clear_book(&mut self)
        ensures
            final(self)@ == (BookView { symbol: old(self)@.symbol, bids: Seq::empty(), asks: Seq::empty() }),
            final(self).wf(),
            final(self).cached_bbo().is_none(),
            final(self).cached_snapshot().is_none(),
    {
        self.bids.clear();
        self.asks.clear();
        self.last_bbo = None;
        self.last_snapshot = None;
        assert(levels_view(self.bids@) =~= Seq::<LevelView>::empty());
        assert(levels_view(self.asks@) =~= Seq::<LevelView>::empty());
        proof {
            assert(levels_total(Seq::<LevelView>::empty()) == 0);
        }
    }
}

fn best_of(levels: &Vec<PriceLevel>) -> (r: Option<Price>)
    ensures
        r == best_price(levels_view(levels@)),
{
    if levels.len() == 0 {
        None
    } else {
        Some(levels[0].price)
    }
}

fn best_quantity_of(levels: &Vec<PriceLevel>) -> (r: Option<u64>)
    requires
        levels_total(levels_view(levels@)) <= u64::MAX,
    ensures
        r == best_qty(levels_view(levels@)),
{
    if levels.len() == 0 {
        None
    } else {
        proof {
            lemma_level_total_le(levels_view(levels@), 0);
        }
        let q = level_quantity(&levels[0]);
        if q > 0 {
            Some(q)
        } else {
            None
        }
    }
}

} // verus!
