//! Facts about the matching model, used by the book's proofs and by the laws.
use vstd::prelude::*;

use crate::matching::{
    add_order_outcome, better, book_wf, crosses, fill_level, fills_total, level_wf, levels_total,
    match_levels, opposite, orders_total, rejects, rest_in, resting_ok, side_of, side_wf, BookView,
    Fill, LevelView,
};
use crate::order::{normalized_remaining, with_progress, Order, OrderSide, OrderStatus};
use crate::price::Price;

verus! {

pub proof fn lemma_orders_total_push(s: Seq<Order>, o: Order)
    ensures
        orders_total(s.push(o)) == orders_total(s) + o.remaining_quantity,
    decreases s.len(),
{
    if s.len() > 0 {
        assert(s.push(o).drop_first() =~= s.drop_first().push(o));
        lemma_orders_total_push(s.drop_first(), o);
    } else {
        assert(s.push(o).drop_first() =~= Seq::<Order>::empty());
        assert(orders_total(Seq::<Order>::empty()) == 0);
    }
}

pub proof fn lemma_orders_total_skip(s: Seq<Order>, i: int)
    requires
        0 <= i < s.len(),
    ensures
        orders_total(s.skip(i)) == s[i].remaining_quantity + orders_total(s.skip(i + 1)),
        orders_total(s.skip(i)) <= orders_total(s),
    decreases i,
{
    assert(s.skip(i).drop_first() =~= s.skip(i + 1));
    if i > 0 {
        lemma_orders_total_skip(s, i - 1);
    } else {
        assert(s.skip(0) =~= s);
    }
}

pub proof fn lemma_levels_total_skip(s: Seq<LevelView>, i: int)
    requires
        0 <= i < s.len(),
    ensures
        levels_total(s.skip(i)) == orders_total(s[i].orders) + levels_total(s.skip(i + 1)),
        levels_total(s.skip(i)) <= levels_total(s),
    decreases i,
{
    assert(s.skip(i).drop_first() =~= s.skip(i + 1));
    if i > 0 {
        lemma_levels_total_skip(s, i - 1);
    } else {
        assert(s.skip(0) =~= s);
    }
}

/// A non-empty queue of orders that all have quantity left has a positive total.
pub proof fn lemma_orders_total_positive(s: Seq<Order>)
    requires
        s.len() > 0,
        s[0].remaining_quantity > 0,
    ensures
        orders_total(s) > 0,
{
}

pub proof fn lemma_fills_total_concat(a: Seq<Fill>, b: Seq<Fill>)
    ensures
        fills_total(a + b) == fills_total(a) + fills_total(b),
    decreases a.len(),
{
    if a.len() > 0 {
        assert((a + b).drop_first() =~= a.drop_first() + b);
        lemma_fills_total_concat(a.drop_first(), b);
    } else {
        assert(a + b =~= b);
    }
}

pub proof fn lemma_level_total_le(levels: Seq<LevelView>, i: int)
    requires
        0 <= i < levels.len(),
    ensures
        orders_total(levels[i].orders) <= levels_total(levels),
    decreases levels.len(),
{
    if i > 0 {
        lemma_level_total_le(levels.drop_first(), i - 1);
    }
}

/// Replacing the first level changes the side's total by the difference of the two levels.
pub proof fn lemma_levels_total_update_first(levels: Seq<LevelView>, l: LevelView)
    requires
        levels.len() > 0,
    ensures
        levels_total(levels.update(0, l)) + orders_total(levels[0].orders) == levels_total(levels)
            + orders_total(l.orders),
{
    assert(levels.update(0, l).drop_first() =~= levels.drop_first());
}

pub proof fn lemma_levels_total_prepend(l: LevelView, levels: Seq<LevelView>)
    ensures
        levels_total(seq![l] + levels) == orders_total(l.orders) + levels_total(levels),
{
    assert((seq![l] + levels).drop_first() =~= levels);
}

pub proof fn lemma_side_wf_drop_first(levels: Seq<LevelView>, side: OrderSide, symbol: Seq<char>)
    requires
        side_wf(levels, side, symbol),
        levels.len() > 0,
    ensures
        side_wf(levels.drop_first(), side, symbol),
{
    let t = levels.drop_first();
    assert forall|i: int, j: int| 0 <= i < j < t.len() implies better(side, #[trigger] t[i].price, #[trigger] t[j].price) by {
        assert(t[i] == levels[i + 1] && t[j] == levels[j + 1]);
    }
    assert forall|i: int| 0 <= i < t.len() implies level_wf(#[trigger] t[i], side, symbol) by {
        assert(t[i] == levels[i + 1]);
    }
}

/// What one level's fill does: the taker loses what the makers lose, the queue keeps its
/// survivors in order, and each survivor stays a valid resting order.
pub proof fn lemma_fill_level(
    orders: Seq<Order>,
    r: nat,
    side: OrderSide,
    symbol: Seq<char>,
    price: Price,
)
    requires
        forall|k: int| 0 <= k < orders.len() ==> resting_ok(#[trigger] orders[k], side, symbol, price),
    ensures
        ({
            let (res, fills, r2) = fill_level(orders, r);
            &&& r2 <= r
            &&& fills_total(fills) == r - r2
            &&& orders_total(res) + (r - r2) == orders_total(orders)
            &&& res.len() == 0 || r2 == 0
            &&& res.len() <= orders.len()
            &&& forall|k: int| 0 <= k < res.len() ==> resting_ok(#[trigger] res[k], side, symbol, price)
            &&& forall|k: int| 1 <= k < res.len() ==> #[trigger] res[k] == orders[orders.len() - res.len() + k]
            &&& res.len() > 0 ==> res[0].id == orders[orders.len() - res.len()].id
        }),
    decreases orders.len(),
{
    if r == 0 || orders.len() == 0 {
        assert(fills_total(Seq::<Fill>::empty()) == 0);
    } else {
        let m = orders[0];
        if m.remaining_quantity as nat <= r {
            let f = Fill { price: m.price, quantity: m.remaining_quantity, maker_order_id: m.id };
            let t = orders.drop_first();
            assert forall|k: int| 0 <= k < t.len() implies resting_ok(#[trigger] t[k], side, symbol, price) by {
                assert(t[k] == orders[k + 1]);
            }
            lemma_fill_level(t, (r - m.remaining_quantity) as nat, side, symbol, price);
            let (rest, fills, r2) = fill_level(t, (r - m.remaining_quantity) as nat);
            assert((seq![f] + fills).drop_first() =~= fills);
        } else {
            let m2 = with_progress(m, (m.remaining_quantity - r) as u64, OrderStatus::PartiallyFilled);
            let res = orders.update(0, m2);
            assert(res.drop_first() =~= orders.drop_first());
            let f = Fill { price: m.price, quantity: r as u64, maker_order_id: m.id };
            assert(seq![f].drop_first() =~= Seq::<Fill>::empty());
            assert(fills_total(Seq::<Fill>::empty()) == 0);
            assert(resting_ok(m2, side, symbol, price));
        }
    }
}

/// What walking the opposite side does: the side stays well formed, its best price does not
/// improve, the taker loses what the side loses, and where the taker has quantity left the
/// side's best level no longer crosses its limit.
pub proof fn lemma_match_levels(
    levels: Seq<LevelView>,
    side: OrderSide,
    limit: Price,
    r: nat,
    symbol: Seq<char>,
)
    requires
        side_wf(levels, opposite(side), symbol),
    ensures
        ({
            let (res, fills, r2) = match_levels(levels, side, limit, r);
            &&& r2 <= r
            &&& fills_total(fills) == r - r2
            &&& levels_total(res) + (r - r2) == levels_total(levels)
            &&& side_wf(res, opposite(side), symbol)
            &&& r2 > 0 ==> res.len() == 0 || !crosses(side, res[0].price, limit)
            &&& res.len() > 0 ==> levels.len() > 0 && !better(opposite(side), res[0].price, levels[0].price)
        }),
    decreases levels.len(),
{
    if r == 0 || levels.len() == 0 || !crosses(side, levels[0].price, limit) {
    } else {
        let l0 = levels[0];
        assert(level_wf(l0, opposite(side), symbol));
        lemma_fill_level(l0.orders, r, opposite(side), symbol, l0.price);
        let (orders, fills, r2) = fill_level(l0.orders, r);
        if orders.len() == 0 {
            lemma_side_wf_drop_first(levels, opposite(side), symbol);
            lemma_match_levels(levels.drop_first(), side, limit, r2, symbol);
            let (rest, fills2, r3) = match_levels(levels.drop_first(), side, limit, r2);
            lemma_fills_total_concat(fills, fills2);
            assert(orders_total(orders) == 0);
            if rest.len() > 0 {
                assert(levels.drop_first()[0] == levels[1]);
                assert(better(opposite(side), levels[0].price, levels[1].price));
            }
        } else {
            let l1 = LevelView { price: l0.price, orders: orders };
            let res = levels.update(0, l1);
            lemma_levels_total_update_first(levels, l1);
            assert(level_wf(l1, opposite(side), symbol));
            assert forall|i: int| 0 <= i < res.len() implies level_wf(#[trigger] res[i], opposite(side), symbol) by {
                if i > 0 {
                    assert(res[i] == levels[i]);
                }
            }
            assert forall|i: int, j: int| 0 <= i < j < res.len() implies better(opposite(side), #[trigger] res[i].price, #[trigger] res[j].price) by {
                assert(res[i].price == levels[i].price && res[j].price == levels[j].price);
            }
        }
    }
}

/// What resting an order does: the side stays well formed, gains the order's remaining
/// quantity, and its best price is the order's or the old best.
pub proof fn lemma_rest_in(levels: Seq<LevelView>, side: OrderSide, o: Order, symbol: Seq<char>)
    requires
        side_wf(levels, side, symbol),
        resting_ok(o, side, symbol, o.price),
        o.price.units() > 0,
    ensures
        ({
            let res = rest_in(levels, side, o);
            &&& side_wf(res, side, symbol)
            &&& levels_total(res) == levels_total(levels) + o.remaining_quantity
            &&& res.len() > 0
            &&& forall|i: int|
                0 <= i < res.len() ==> (#[trigger] res[i]).price == o.price || (i < levels.len()
                    && res[i].price == levels[i].price) || (1 <= i <= levels.len() && res[i].price
                    == levels[i - 1].price)
        }),
    decreases levels.len(),
{
    let res = rest_in(levels, side, o);
    let fresh = LevelView { price: o.price, orders: seq![o] };
    assert(seq![o].drop_first() =~= Seq::<Order>::empty());
    assert(orders_total(Seq::<Order>::empty()) == 0);
    assert(orders_total(seq![o]) == o.remaining_quantity);
    assert(level_wf(fresh, side, symbol));
    if levels.len() == 0 {
        assert(res.drop_first() =~= Seq::<LevelView>::empty());
        assert(levels_total(Seq::<LevelView>::empty()) == 0);
    } else if levels[0].price.units() == o.price.units() {
        let l1 = LevelView { price: levels[0].price, orders: levels[0].orders.push(o) };
        lemma_levels_total_update_first(levels, l1);
        lemma_orders_total_push(levels[0].orders, o);
        assert(level_wf(levels[0], side, symbol));
        assert(level_wf(l1, side, symbol)) by {
            assert forall|k: int| 0 <= k < l1.orders.len() implies resting_ok(#[trigger] l1.orders[k], side, symbol, l1.price) by {
                if k < levels[0].orders.len() {
                    assert(l1.orders[k] == levels[0].orders[k]);
                }
            }
        }
        assert forall|i: int| 0 <= i < res.len() implies level_wf(#[trigger] res[i], side, symbol) by {
            if i > 0 {
                assert(res[i] == levels[i]);
            }
        }
        assert forall|i: int, j: int| 0 <= i < j < res.len() implies better(side, #[trigger] res[i].price, #[trigger] res[j].price) by {
            assert(res[i].price == levels[i].price && res[j].price == levels[j].price);
        }
    } else if better(side, o.price, levels[0].price) {
        lemma_levels_total_prepend(fresh, levels);
        assert forall|i: int| 0 <= i < res.len() implies level_wf(#[trigger] res[i], side, symbol) by {
            if i > 0 {
                assert(res[i] == levels[i - 1]);
            }
        }
        assert forall|i: int, j: int| 0 <= i < j < res.len() implies better(side, #[trigger] res[i].price, #[trigger] res[j].price) by {
            assert(res[j] == levels[j - 1]);
            if i > 0 {
                assert(res[i] == levels[i - 1]);
            } else if j > 1 {
                assert(better(side, levels[0].price, levels[j - 1].price));
            }
        }
        assert forall|i: int| 0 <= i < res.len() implies (#[trigger] res[i]).price == o.price || (i
            < levels.len() && res[i].price == levels[i].price) || (1 <= i <= levels.len()
            && res[i].price == levels[i - 1].price) by {
            if i > 0 {
                assert(res[i] == levels[i - 1]);
            }
        }
    } else {
        let t = levels.drop_first();
        lemma_side_wf_drop_first(levels, side, symbol);
        lemma_rest_in(t, side, o, symbol);
        let rec = rest_in(t, side, o);
        lemma_levels_total_prepend(levels[0], rec);
        assert(res =~= seq![levels[0]] + rec);
        assert forall|i: int| 0 <= i < res.len() implies level_wf(#[trigger] res[i], side, symbol) by {
            if i > 0 {
                assert(res[i] == rec[i - 1]);
            }
        }
        assert forall|i: int| 0 <= i < res.len() implies (#[trigger] res[i]).price == o.price || (i
            < levels.len() && res[i].price == levels[i].price) || (1 <= i <= levels.len()
            && res[i].price == levels[i - 1].price) by {
            if i > 0 {
                assert(res[i] == rec[i - 1]);
                assert(rec[i - 1].price == o.price || (i - 1 < t.len() && rec[i - 1].price
                    == t[i - 1].price) || (1 <= i - 1 <= t.len() && rec[i - 1].price == t[i
                    - 2].price));
            }
        }
        assert forall|i: int, j: int| 0 <= i < j < res.len() implies better(side, #[trigger] res[i].price, #[trigger] res[j].price) by {
            assert(res[j] == rec[j - 1]);
            if i > 0 {
                assert(res[i] == rec[i - 1]);
            } else {
                assert(rec[j - 1].price == o.price || (j - 1 < t.len() && rec[j - 1].price
                    == t[j - 1].price) || (1 <= j - 1 <= t.len() && rec[j - 1].price == t[j
                    - 2].price));
                if j - 1 < t.len() && rec[j - 1].price == t[j - 1].price {
                    assert(t[j - 1] == levels[j]);
                } else if 1 <= j - 1 <= t.len() && rec[j - 1].price == t[j - 2].price {
                    assert(t[j - 2] == levels[j - 1]);
                }
            }
        }
    }
}

/// Admitting an order keeps the book well formed and not crossed.
pub proof fn lemma_add_order_wf(b: BookView, order: Order)
    requires
        book_wf(b),
        order.price.wf(),
        levels_total(side_of(b, order.side)) + order.quantity <= u64::MAX,
    ensures
        book_wf(add_order_outcome(b, order).book),
        add_order_outcome(b, order).book.symbol == b.symbol,
{
    if !rejects(b.symbol, order) {
        let side = order.side;
        let r0 = normalized_remaining(order);
        let opp0 = side_of(b, opposite(side));
        lemma_match_levels(opp0, side, order.price, r0 as nat, b.symbol);
        let (opp, fills, r) = match_levels(opp0, side, order.price, r0 as nat);
        if r != 0 {
            let status = if r < order.quantity {
                OrderStatus::PartiallyFilled
            } else {
                OrderStatus::Accepted
            };
            let resting = with_progress(order, r as u64, status);
            assert(resting_ok(resting, side, b.symbol, resting.price));
            lemma_rest_in(side_of(b, side), side, resting, b.symbol);
            let own = rest_in(side_of(b, side), side, resting);
            assert(own[0].price == resting.price || (0 < side_of(b, side).len() && own[0].price
                == side_of(b, side)[0].price));
        }
    }
}

} // verus!
