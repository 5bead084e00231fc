//! Properties that hold of every book and every order.
use vstd::prelude::*;

use crate::book::bbo_of;
use crate::lemmas::{
    lemma_add_order_wf, lemma_fill_level, lemma_fills_total_concat, lemma_match_levels,
    lemma_orders_total_positive, lemma_rest_in, lemma_side_wf_drop_first,
};
use crate::market_data::{bbo_due, snapshot_due, BboUpdate, BboView, OrderBookSnapshot, SnapshotView};
use crate::matching::{
    add_order_outcome, better, book_wf, crosses, fill_level, fills_total, level_wf, levels_total,
    match_levels, opposite, orders_total, rejects, rest_in, side_of, side_wf, BookView, Fill,
    LevelView,
};
use crate::order::{normalized_remaining, with_progress, Order, OrderSide, OrderStatus};
use crate::price::Price;

verus! {

/// Resting quantity of both sides.
pub open spec fn book_total(b: BookView) -> nat {
    levels_total(b.bids) + levels_total(b.asks)
}

/// Admitting the orders of `orders` one after another, from `b`: the book at the end and
/// all fills in order.
pub open spec fn run(b: BookView, orders: Seq<Order>) -> (BookView, Seq<Fill>)
    decreases orders.len(),
{
    if orders.len() == 0 {
        (b, Seq::empty())
    } else {
        let out = add_order_outcome(b, orders[0]);
        let (b2, fills) = run(out.book, orders.drop_first());
        (b2, out.fills + fills)
    }
}

/// Sum of the quantities of `orders`.
pub open spec fn quantities(orders: Seq<Order>) -> nat
    decreases orders.len(),
{
    if orders.len() == 0 {
        0
    } else {
        orders[0].quantity as nat + quantities(orders.drop_first())
    }
}

proof fn lemma_fill_level_total(orders: Seq<Order>, r: nat)
    ensures
        fill_level(orders, r).2 <= r,
        fills_total(fill_level(orders, r).1) == r - fill_level(orders, r).2,
    decreases orders.len(),
{
    assert(fills_total(Seq::<Fill>::empty()) == 0);
    if r > 0 && orders.len() > 0 {
        let m = orders[0];
        if m.remaining_quantity as nat <= r {
            let f = Fill { price: m.price, quantity: m.remaining_quantity, maker_order_id: m.id };
            lemma_fill_level_total(orders.drop_first(), (r - m.remaining_quantity) as nat);
            let fills = fill_level(orders.drop_first(), (r - m.remaining_quantity) as nat).1;
            assert((seq![f] + fills).drop_first() =~= fills);
        } else {
            let f = Fill { price: m.price, quantity: r as u64, maker_order_id: m.id };
            assert(seq![f].drop_first() =~= Seq::<Fill>::empty());
        }
    }
}

proof fn lemma_match_total(levels: Seq<LevelView>, side: OrderSide, limit: Price, r: nat)
    ensures
        match_levels(levels, side, limit, r).2 <= r,
        fills_total(match_levels(levels, side, limit, r).1) == r - match_levels(levels, side, limit, r).2,
    decreases levels.len(),
{
    assert(fills_total(Seq::<Fill>::empty()) == 0);
    if r > 0 && levels.len() > 0 && crosses(side, levels[0].price, limit) {
        lemma_fill_level_total(levels[0].orders, r);
        let (orders, fills, r2) = fill_level(levels[0].orders, r);
        if orders.len() == 0 {
            lemma_match_total(levels.drop_first(), side, limit, r2);
            lemma_fills_total_concat(fills, match_levels(levels.drop_first(), side, limit, r2).1);
        }
    }
}

/// A book stays uncrossed: after any order is admitted to a well-formed book, its best bid is
/// below its best ask whenever both sides have orders, and it stays well formed.
pub proof fn law_add_order_keeps_book_uncrossed(b: BookView, order: Order)
    requires
        book_wf(b),
        order.price.wf(),
        levels_total(side_of(b, order.side)) + order.quantity <= u64::MAX,
    ensures
        book_wf(add_order_outcome(b, order).book),
        ({
            let nb = add_order_outcome(b, order).book;
            nb.bids.len() > 0 && nb.asks.len() > 0 ==> nb.bids[0].price.units() < nb.asks[0].price.units()
        }),
{
    lemma_add_order_wf(b, order);
}

/// Quantity is conserved: each trade takes its quantity from both the taker and the maker,
/// so the remaining quantity of all orders falls by twice the traded quantity. Before, all
/// orders are the book's and the taker; after, they are the book's, which holds the taker's
/// remainder where it rests (a filled taker has none left). A rejected order changes nothing.
pub proof fn law_quantity_conservation(b: BookView, order: Order)
    requires
        book_wf(b),
        order.price.wf(),
        levels_total(side_of(b, order.side)) + order.quantity <= u64::MAX,
    ensures
        ({
            let out = add_order_outcome(b, order);
            &&& !rejects(b.symbol, order) ==> book_total(out.book) - (book_total(b)
                + normalized_remaining(order)) == -2 * fills_total(out.fills)
            &&& rejects(b.symbol, order) ==> book_total(out.book) == book_total(b) && fills_total(
                out.fills,
            ) == 0
        }),
{
    assert(fills_total(Seq::<Fill>::empty()) == 0);
    if !rejects(b.symbol, order) {
        let side = order.side;
        let r0 = normalized_remaining(order);
        lemma_match_levels(side_of(b, opposite(side)), side, order.price, r0 as nat, b.symbol);
        let (opp, fills, r) = match_levels(side_of(b, opposite(side)), side, order.price, r0 as nat);
        if r != 0 {
            let status = if r < order.quantity {
                OrderStatus::PartiallyFilled
            } else {
                OrderStatus::Accepted
            };
            let resting = with_progress(order, r as u64, status);
            lemma_rest_in(side_of(b, side), side, resting, b.symbol);
        }
    }
}

/// No empty levels: every level of a book reached by admitting an order has a positive
/// aggregate remaining quantity.
pub proof fn law_no_empty_levels(b: BookView, order: Order)
    requires
        book_wf(b),
        order.price.wf(),
        levels_total(side_of(b, order.side)) + order.quantity <= u64::MAX,
    ensures
        ({
            let nb = add_order_outcome(b, order).book;
            &&& forall|i: int| 0 <= i < nb.bids.len() ==> orders_total(#[trigger] nb.bids[i].orders) > 0
            &&& forall|i: int| 0 <= i < nb.asks.len() ==> orders_total(#[trigger] nb.asks[i].orders) > 0
        }),
{
    lemma_add_order_wf(b, order);
    let nb = add_order_outcome(b, order).book;
    assert forall|i: int| 0 <= i < nb.bids.len() implies orders_total(#[trigger] nb.bids[i].orders) > 0 by {
        assert(level_wf(nb.bids[i], OrderSide::Buy, nb.symbol));
        lemma_orders_total_positive(nb.bids[i].orders);
    }
    assert forall|i: int| 0 <= i < nb.asks.len() implies orders_total(#[trigger] nb.asks[i].orders) > 0 by {
        assert(level_wf(nb.asks[i], OrderSide::Sell, nb.symbol));
        lemma_orders_total_positive(nb.asks[i].orders);
    }
}

/// Over any sequence of orders, from any book, the quantity traded never exceeds the
/// quantity submitted.
pub proof fn law_traded_within_submitted(b: BookView, orders: Seq<Order>)
    ensures
        fills_total(run(b, orders).1) <= quantities(orders),
    decreases orders.len(),
{
    assert(fills_total(Seq::<Fill>::empty()) == 0);
    if orders.len() > 0 {
        let o = orders[0];
        let out = add_order_outcome(b, o);
        law_traded_within_submitted(out.book, orders.drop_first());
        lemma_fills_total_concat(out.fills, run(out.book, orders.drop_first()).1);
        if !rejects(b.symbol, o) {
            lemma_match_total(side_of(b, opposite(o.side)), o.side, o.price, normalized_remaining(o) as nat);
        }
    }
}

/// In every well-formed book the best bid is below the best ask whenever both sides have
/// orders, and the published best bid and offer says so.
pub proof fn law_best_bid_below_best_ask(b: BookView)
    requires
        book_wf(b),
    ensures
        ({
            let q = bbo_of(b);
            q.bid_price.is_some() && q.ask_price.is_some() ==> q.bid_price.unwrap().units()
                < q.ask_price.unwrap().units()
        }),
{
}

/// Change detection publishes a best bid and offer once per state: a second refresh on an
/// unchanged book, after a first that stored what it published, publishes nothing.
pub proof fn law_bbo_published_once(
    last: Option<BboUpdate>,
    stored: Option<BboUpdate>,
    current: BboView,
)
    requires
        bbo_due(last, current) ==> stored.is_some() && stored.unwrap()@ == current,
        !bbo_due(last, current) ==> stored == last,
    ensures
        !bbo_due(stored, current),
{
}

/// The same for depth snapshots.
pub proof fn law_snapshot_published_once(
    last: Option<OrderBookSnapshot>,
    stored: Option<OrderBookSnapshot>,
    current: SnapshotView,
)
    requires
        snapshot_due(last, current) ==> stored.is_some() && stored.unwrap()@ == current,
        !snapshot_due(last, current) ==> stored == last,
    ensures
        !snapshot_due(stored, current),
{
}

/// An order is rejected exactly when its symbol is not the book's, its price is not
/// positive or its quantity is zero; a rejected order leaves the book as it was and trades
/// nothing.
pub proof fn law_rejected_order_changes_nothing(b: BookView, order: Order)
    ensures
        (add_order_outcome(b, order).status == OrderStatus::Rejected) == rejects(b.symbol, order),
        rejects(b.symbol, order) ==> add_order_outcome(b, order).book == b && add_order_outcome(
            b,
            order,
        ).fills.len() == 0,
{
}

/// The identifiers of `s`, in order.
pub open spec fn ids(s: Seq<Order>) -> Seq<u128> {
    s.map_values(|o: Order| o.id)
}

/// The queue `new` keeps the arrival order of `old`: it is what is left of `old` once some
/// orders have left from its front, followed at most by `taker`, the latest arrival.
pub open spec fn queue_keeps_arrival(new: Seq<Order>, old: Seq<Order>, taker: u128) -> bool {
    exists|d: int|
        0 <= d <= old.len() && (ids(new) == #[trigger] ids(old).skip(d) || ids(new) == ids(old).skip(
            d,
        ).push(taker))
}

/// Each level of `new` is a new level holding `taker` alone, or keeps the arrival order of
/// the level of `old` at its price.
pub open spec fn side_keeps_arrival(new: Seq<LevelView>, old: Seq<LevelView>, taker: u128) -> bool {
    forall|i: int|
        0 <= i < new.len() ==> ids(#[trigger] new[i].orders) == seq![taker] || exists|j: int|
            0 <= j < old.len() && (#[trigger] old[j]).price.units() == new[i].price.units()
                && queue_keeps_arrival(new[i].orders, old[j].orders, taker)
}

proof fn lemma_queue_kept(new: Seq<Order>, old: Seq<Order>, taker: u128, d: int)
    requires
        0 <= d <= old.len(),
        ids(new) == ids(old).skip(d) || ids(new) == ids(old).skip(d).push(taker),
    ensures
        queue_keeps_arrival(new, old, taker),
{
    assert(0 <= d <= old.len() && (ids(new) == ids(old).skip(d) || ids(new) == ids(old).skip(d).push(
        taker,
    )));
}

/// Matching leaves a suffix of the side: the first `k` levels are gone, those after the new
/// first are untouched, and the new first kept its queue but for orders from its front.
proof fn lemma_match_suffix(
    levels: Seq<LevelView>,
    side: OrderSide,
    limit: Price,
    r: nat,
    symbol: Seq<char>,
) -> (kd: (int, int))
    requires
        side_wf(levels, opposite(side), symbol),
    ensures
        ({
            let res = match_levels(levels, side, limit, r).0;
            let (k, d) = kd;
            &&& 0 <= k <= levels.len()
            &&& res.len() == levels.len() - k
            &&& forall|i: int| 1 <= i < res.len() ==> #[trigger] res[i] == levels[k + i]
            &&& res.len() > 0 ==> res[0].price == levels[k].price && 0 <= d <= levels[k].orders.len()
                && ids(res[0].orders) == ids(levels[k].orders).skip(d)
        }),
    decreases levels.len(),
{
    let res = match_levels(levels, side, limit, r).0;
    if r == 0 || levels.len() == 0 || !crosses(side, levels[0].price, limit) {
        if levels.len() > 0 {
            assert(ids(levels[0].orders).skip(0) =~= ids(levels[0].orders));
        }
        (0, 0)
    } else {
        let l0 = levels[0];
        assert(level_wf(l0, opposite(side), symbol));
        lemma_fill_level(l0.orders, r, opposite(side), symbol, l0.price);
        let (orders, fills, r2) = fill_level(l0.orders, r);
        if orders.len() == 0 {
            lemma_side_wf_drop_first(levels, opposite(side), symbol);
            let (k, d) = lemma_match_suffix(levels.drop_first(), side, limit, r2, symbol);
            assert forall|i: int| 1 <= i < res.len() implies #[trigger] res[i] == levels[k + 1 + i] by {
                assert(levels.drop_first()[k + i] == levels[k + 1 + i]);
            }
            (k + 1, d)
        } else {
            let d = l0.orders.len() - orders.len();
            assert(ids(orders) =~= ids(l0.orders).skip(d));
            (0, d)
        }
    }
}

/// Resting an order either puts a new level at index `i` or appends the order to the queue
/// of the level at index `i`.
proof fn lemma_rest_in_place(levels: Seq<LevelView>, side: OrderSide, o: Order) -> (ia: (int, bool))
    ensures
        ({
            let res = rest_in(levels, side, o);
            let (i, appended) = ia;
            &&& 0 <= i <= levels.len()
            &&& !appended ==> res == levels.take(i) + seq![LevelView { price: o.price, orders: seq![o] }]
                + levels.skip(i)
            &&& appended ==> i < levels.len() && res == levels.update(
                i,
                LevelView { price: levels[i].price, orders: levels[i].orders.push(o) },
            )
        }),
    decreases levels.len(),
{
    let fresh = LevelView { price: o.price, orders: seq![o] };
    if levels.len() == 0 {
        assert(rest_in(levels, side, o) =~= levels.take(0) + seq![fresh] + levels.skip(0));
        (0, false)
    } else if levels[0].price.units() == o.price.units() {
        (0, true)
    } else if better(side, o.price, levels[0].price) {
        assert(rest_in(levels, side, o) =~= levels.take(0) + seq![fresh] + levels.skip(0));
        (0, false)
    } else {
        let t = levels.drop_first();
        let (i, appended) = lemma_rest_in_place(t, side, o);
        if appended {
            assert(rest_in(levels, side, o) =~= levels.update(
                i + 1,
                LevelView { price: levels[i + 1].price, orders: levels[i + 1].orders.push(o) },
            ));
        } else {
            assert(rest_in(levels, side, o) =~= levels.take(i + 1) + seq![fresh] + levels.skip(i + 1));
        }
        (i + 1, appended)
    }
}

proof fn lemma_unchanged_side_keeps_arrival(levels: Seq<LevelView>, taker: u128)
    ensures
        side_keeps_arrival(levels, levels, taker),
{
    assert forall|i: int| 0 <= i < levels.len() implies ids(#[trigger] levels[i].orders) == seq![taker]
        || exists|j: int|
        0 <= j < levels.len() && (#[trigger] levels[j]).price.units() == levels[i].price.units()
            && queue_keeps_arrival(levels[i].orders, levels[j].orders, taker) by {
        assert(ids(levels[i].orders).skip(0) =~= ids(levels[i].orders));
        lemma_queue_kept(levels[i].orders, levels[i].orders, taker, 0);
    }
}

proof fn lemma_matched_side_keeps_arrival(
    levels: Seq<LevelView>,
    side: OrderSide,
    limit: Price,
    r: nat,
    symbol: Seq<char>,
    taker: u128,
)
    requires
        side_wf(levels, opposite(side), symbol),
    ensures
        side_keeps_arrival(match_levels(levels, side, limit, r).0, levels, taker),
{
    let res = match_levels(levels, side, limit, r).0;
    let (k, d) = lemma_match_suffix(levels, side, limit, r, symbol);
    assert forall|i: int| 0 <= i < res.len() implies ids(#[trigger] res[i].orders) == seq![taker]
        || exists|j: int|
        0 <= j < levels.len() && (#[trigger] levels[j]).price.units() == res[i].price.units()
            && queue_keeps_arrival(res[i].orders, levels[j].orders, taker) by {
        if i == 0 {
            lemma_queue_kept(res[0].orders, levels[k].orders, taker, d);
            assert(levels[k].price.units() == res[0].price.units());
        } else {
            assert(res[i] == levels[k + i]);
            assert(ids(levels[k + i].orders).skip(0) =~= ids(levels[k + i].orders));
            lemma_queue_kept(res[i].orders, levels[k + i].orders, taker, 0);
            assert(levels[k + i].price.units() == res[i].price.units());
        }
    }
}

proof fn lemma_rested_side_keeps_arrival(levels: Seq<LevelView>, side: OrderSide, o: Order)
    ensures
        side_keeps_arrival(rest_in(levels, side, o), levels, o.id),
{
    let res = rest_in(levels, side, o);
    let (p, appended) = lemma_rest_in_place(levels, side, o);
    assert forall|i: int| 0 <= i < res.len() implies ids(#[trigger] res[i].orders) == seq![o.id]
        || exists|j: int|
        0 <= j < levels.len() && (#[trigger] levels[j]).price.units() == res[i].price.units()
            && queue_keeps_arrival(res[i].orders, levels[j].orders, o.id) by {
        let j = if appended || i < p {
            i
        } else {
            i - 1
        };
        if !appended && i == p {
            assert(res[i].orders == seq![o]);
            assert(ids(seq![o]) =~= seq![o.id]);
        } else if appended && i == p {
            assert(ids(levels[i].orders.push(o)) =~= ids(levels[i].orders).skip(0).push(o.id));
            lemma_queue_kept(res[i].orders, levels[i].orders, o.id, 0);
            assert(levels[j].price.units() == res[i].price.units());
        } else {
            assert(res[i] == levels[j]);
            assert(ids(levels[j].orders).skip(0) =~= ids(levels[j].orders));
            lemma_queue_kept(res[i].orders, levels[j].orders, o.id, 0);
            assert(levels[j].price.units() == res[i].price.units());
        }
    }
}

/// Time priority: at every price, resting orders keep the order in which they arrived there.
/// Each level after an order is admitted is the level at its price before, less orders that
/// left from its front, with at most the incoming order, the latest arrival, at its back; or
/// it is a new level that holds the incoming order alone.
pub proof fn law_time_priority_kept(b: BookView, order: Order)
    requires
        book_wf(b),
    ensures
        side_keeps_arrival(add_order_outcome(b, order).book.bids, b.bids, order.id),
        side_keeps_arrival(add_order_outcome(b, order).book.asks, b.asks, order.id),
{
    lemma_unchanged_side_keeps_arrival(b.bids, order.id);
    lemma_unchanged_side_keeps_arrival(b.asks, order.id);
    if !rejects(b.symbol, order) {
        let side = order.side;
        let r0 = normalized_remaining(order);
        let opp0 = side_of(b, opposite(side));
        lemma_matched_side_keeps_arrival(opp0, side, order.price, r0 as nat, b.symbol, order.id);
        let (opp, fills, r) = match_levels(opp0, side, order.price, r0 as nat);
        if r != 0 {
            let status = if r < order.quantity {
                OrderStatus::PartiallyFilled
            } else {
                OrderStatus::Accepted
            };
            let resting = with_progress(order, r as u64, status);
            lemma_rested_side_keeps_arrival(side_of(b, side), side, resting);
        }
    }
}

} // verus!
