use rust_matching_engine::book::OrderBook;
use rust_matching_engine::market_data::{BboUpdate, OrderBookSnapshot, PriceLevelInfo};
use rust_matching_engine::{Order, OrderSide, OrderStatus, Price};

fn p(mantissa: i128, scale: u32) -> Price {
    Price::new(mantissa, scale)
}

fn create_test_order(side: OrderSide, price: Price, qty: u64) -> Order {
    Order::new(side, "TEST".to_string(), price, qty)
}

fn new_book() -> OrderBook {
    OrderBook::new("TEST".to_string())
}

#[test]
fn test_add_order_empty_book() {
    let mut book = new_book();
    let buy = create_test_order(OrderSide::Buy, p(1000, 1), 10);
    let id = buy.id;
    let (status, trades) = book.add_order(buy);
    assert_eq!(status, OrderStatus::Accepted);
    assert!(trades.is_empty());
    assert_eq!(book.bid_levels().len(), 1);
    assert!(book.ask_levels().is_empty());
    let level = &book.bid_levels()[0];
    assert_eq!(level.price, p(1000, 1));
    assert_eq!(level.orders.len(), 1);
    assert_eq!(level.orders[0].id, id);
    assert_eq!(level.orders[0].remaining_quantity, 10);
    assert_eq!(level.orders[0].status, OrderStatus::Accepted);
}

#[test]
fn test_simple_full_match() {
    let mut book = new_book();
    let sell = create_test_order(OrderSide::Sell, p(1000, 1), 10);
    let sell_id = sell.id;
    book.add_order(sell);
    let buy = create_test_order(OrderSide::Buy, p(1000, 1), 10);
    let buy_id = buy.id;
    let (status, trades) = book.add_order(buy);
    assert_eq!(status, OrderStatus::Filled);
    assert_eq!(trades.len(), 1);
    assert_eq!(trades[0].price, p(1000, 1));
    assert_eq!(trades[0].quantity, 10);
    assert_eq!(trades[0].taker_order_id, buy_id);
    assert_eq!(trades[0].maker_order_id, sell_id);
    assert_eq!(trades[0].symbol, "TEST");
    assert!(book.bid_levels().is_empty());
    assert!(book.ask_levels().is_empty());
}

#[test]
fn test_partial_match_taker_remaining() {
    let mut book = new_book();
    let sell = create_test_order(OrderSide::Sell, p(1000, 1), 5);
    let sell_id = sell.id;
    book.add_order(sell);
    let buy = create_test_order(OrderSide::Buy, p(1000, 1), 10);
    let buy_id = buy.id;
    let (status, trades) = book.add_order(buy);
    assert_eq!(status, OrderStatus::PartiallyFilled);
    assert_eq!(trades.len(), 1);
    assert_eq!(trades[0].price, p(1000, 1));
    assert_eq!(trades[0].quantity, 5);
    assert_eq!(trades[0].taker_order_id, buy_id);
    assert_eq!(trades[0].maker_order_id, sell_id);
    assert!(book.ask_levels().is_empty());
    assert_eq!(book.bid_levels().len(), 1);
    let level = &book.bid_levels()[0];
    assert_eq!(level.price, p(1000, 1));
    assert_eq!(level.orders.len(), 1);
    assert_eq!(level.orders[0].id, buy_id);
    assert_eq!(level.orders[0].remaining_quantity, 5);
    assert_eq!(level.orders[0].status, OrderStatus::PartiallyFilled);
}

#[test]
fn test_partial_match_maker_remaining() {
    let mut book = new_book();
    let sell = create_test_order(OrderSide::Sell, p(1000, 1), 15);
    let sell_id = sell.id;
    book.add_order(sell);
    let buy = create_test_order(OrderSide::Buy, p(1000, 1), 10);
    let buy_id = buy.id;
    let (status, trades) = book.add_order(buy);
    assert_eq!(status, OrderStatus::Filled);
    assert_eq!(trades.len(), 1);
    assert_eq!(trades[0].price, p(1000, 1));
    assert_eq!(trades[0].quantity, 10);
    assert_eq!(trades[0].taker_order_id, buy_id);
    assert_eq!(trades[0].maker_order_id, sell_id);
    assert!(book.bid_levels().is_empty());
    assert_eq!(book.ask_levels().len(), 1);
    let level = &book.ask_levels()[0];
    assert_eq!(level.price, p(1000, 1));
    assert_eq!(level.orders.len(), 1);
    assert_eq!(level.orders[0].id, sell_id);
    assert_eq!(level.orders[0].remaining_quantity, 5);
    assert_eq!(level.orders[0].status, OrderStatus::PartiallyFilled);
}

#[test]
fn test_match_multiple_makers_at_same_price() {
    let mut book = new_book();
    let a = create_test_order(OrderSide::Sell, p(1000, 1), 5);
    let a_id = a.id;
    book.add_order(a);
    let c = create_test_order(OrderSide::Sell, p(1000, 1), 8);
    let c_id = c.id;
    book.add_order(c);
    let b = create_test_order(OrderSide::Buy, p(1005, 1), 10);
    let b_id = b.id;
    let (status, trades) = book.add_order(b);
    assert_eq!(status, OrderStatus::Filled);
    assert_eq!(trades.len(), 2);
    assert_eq!(trades[0].price, p(1000, 1));
    assert_eq!(trades[0].quantity, 5);
    assert_eq!(trades[0].taker_order_id, b_id);
    assert_eq!(trades[0].maker_order_id, a_id);
    assert_eq!(trades[1].price, p(1000, 1));
    assert_eq!(trades[1].quantity, 5);
    assert_eq!(trades[1].taker_order_id, b_id);
    assert_eq!(trades[1].maker_order_id, c_id);
    assert_eq!(book.ask_levels().len(), 1);
    let level = &book.ask_levels()[0];
    assert_eq!(level.price, p(1000, 1));
    assert_eq!(level.orders.len(), 1);
    assert_eq!(level.orders[0].id, c_id);
    assert_eq!(level.orders[0].remaining_quantity, 3);
    assert!(book.bid_levels().is_empty());
}

#[test]
fn test_match_multiple_price_levels() {
    let mut book = new_book();
    let a = create_test_order(OrderSide::Sell, p(1000, 1), 5);
    let a_id = a.id;
    book.add_order(a);
    let c = create_test_order(OrderSide::Sell, p(1005, 1), 8);
    let c_id = c.id;
    book.add_order(c);
    let b = create_test_order(OrderSide::Buy, p(1010, 1), 10);
    let b_id = b.id;
    let (status, trades) = book.add_order(b);
    assert_eq!(status, OrderStatus::Filled);
    assert_eq!(trades.len(), 2);
    assert_eq!(trades[0].price, p(1000, 1));
    assert_eq!(trades[0].quantity, 5);
    assert_eq!(trades[0].taker_order_id, b_id);
    assert_eq!(trades[0].maker_order_id, a_id);
    assert_eq!(trades[1].price, p(1005, 1));
    assert_eq!(trades[1].quantity, 5);
    assert_eq!(trades[1].taker_order_id, b_id);
    assert_eq!(trades[1].maker_order_id, c_id);
    assert_eq!(book.ask_levels().len(), 1);
    let level = &book.ask_levels()[0];
    assert_eq!(level.price, p(1005, 1));
    assert_eq!(level.orders.len(), 1);
    assert_eq!(level.orders[0].id, c_id);
    assert_eq!(level.orders[0].remaining_quantity, 3);
    assert!(book.bid_levels().is_empty());
}

fn resting_ids(book: &OrderBook) -> Vec<(bool, i128, u32, u128, u64)> {
    let mut out = Vec::new();
    for l in book.bid_levels() {
        for o in l.orders.iter() {
            out.push((true, l.price.mantissa, l.price.scale, o.id, o.remaining_quantity));
        }
    }
    for l in book.ask_levels() {
        for o in l.orders.iter() {
            out.push((false, l.price.mantissa, l.price.scale, o.id, o.remaining_quantity));
        }
    }
    out
}

#[test]
fn test_add_invalid_order_rejected() {
    let mut book = new_book();
    book.add_order(create_test_order(OrderSide::Buy, p(990, 1), 4));
    book.add_order(create_test_order(OrderSide::Sell, p(1010, 1), 6));
    let before = resting_ids(&book);

    let cases = vec![
        create_test_order(OrderSide::Buy, p(0, 0), 10),
        create_test_order(OrderSide::Sell, p(100, 0), 0),
        Order::new(OrderSide::Buy, "OTHER".to_string(), p(100, 0), 10),
        create_test_order(OrderSide::Buy, p(-50, 0), 10),
    ];
    for o in cases {
        let (status, trades) = book.add_order(o);
        assert_eq!(status, OrderStatus::Rejected);
        assert!(trades.is_empty());
        assert_eq!(resting_ids(&book), before);
    }
}

#[test]
fn test_get_bbo_with_qty_logic() {
    let mut book = new_book();
    assert_eq!(book.get_bbo_with_qty(), (None, None, None, None));
    book.add_order(create_test_order(OrderSide::Buy, p(998, 1), 5));
    assert_eq!(book.get_bbo_with_qty(), (Some(p(998, 1)), Some(5), None, None));
    book.add_order(create_test_order(OrderSide::Buy, p(998, 1), 7));
    assert_eq!(book.get_bbo_with_qty(), (Some(p(998, 1)), Some(12), None, None));
    book.add_order(create_test_order(OrderSide::Buy, p(997, 1), 10));
    assert_eq!(book.get_bbo_with_qty(), (Some(p(998, 1)), Some(12), None, None));
    book.add_order(create_test_order(OrderSide::Sell, p(1002, 1), 3));
    book.add_order(create_test_order(OrderSide::Sell, p(1001, 1), 4));
    assert_eq!(
        book.get_bbo_with_qty(),
        (Some(p(998, 1)), Some(12), Some(p(1001, 1)), Some(4))
    );
}

#[test]
fn test_get_snapshot() {
    let mut book = new_book();
    book.add_order(create_test_order(OrderSide::Buy, p(998, 1), 5));
    book.add_order(create_test_order(OrderSide::Buy, p(998, 1), 7));
    book.add_order(create_test_order(OrderSide::Buy, p(997, 1), 10));
    book.add_order(create_test_order(OrderSide::Buy, p(996, 1), 8));
    book.add_order(create_test_order(OrderSide::Buy, p(995, 1), 20));
    let snap = book.get_snapshot(3);
    assert_eq!(snap.symbol, "TEST");
    assert_eq!(
        snap.bids,
        vec![
            PriceLevelInfo { price: p(998, 1), quantity: 12 },
            PriceLevelInfo { price: p(997, 1), quantity: 10 },
            PriceLevelInfo { price: p(996, 1), quantity: 8 },
        ]
    );
    assert!(snap.asks.is_empty());
}

#[test]
fn test_clear_book() {
    let mut book = new_book();
    book.add_order(create_test_order(OrderSide::Buy, p(990, 1), 10));
    book.add_order(create_test_order(OrderSide::Sell, p(1000, 1), 8));
    *book.last_bbo_mut() = Some(BboUpdate::new("TEST".to_string(), None, None, None, None));
    *book.last_snapshot_mut() = Some(OrderBookSnapshot::new("TEST".to_string(), vec![], vec![]));
    book.clear_book();
    assert!(book.bid_levels().is_empty() && book.ask_levels().is_empty());
    assert!(book.last_bbo().is_none());
    assert!(book.last_snapshot().is_none());
    let (bp, bq, ap, aq) = book.get_bbo_with_qty();
    assert!(bp.is_none() && bq.is_none() && ap.is_none() && aq.is_none());
    assert!(book.get_snapshot(5).bids.is_empty() && book.get_snapshot(5).asks.is_empty());
}

#[test]
fn sell_taker_walks_bids_highest_first() {
    let mut book = new_book();
    let a = create_test_order(OrderSide::Buy, p(990, 1), 4);
    let a_id = a.id;
    book.add_order(a);
    let c = create_test_order(OrderSide::Buy, p(995, 1), 4);
    let c_id = c.id;
    book.add_order(c);
    let (status, trades) = book.add_order(create_test_order(OrderSide::Sell, p(990, 1), 10));
    assert_eq!(status, OrderStatus::PartiallyFilled);
    assert_eq!(trades.len(), 2);
    assert_eq!((trades[0].maker_order_id, trades[0].price, trades[0].quantity), (c_id, p(995, 1), 4));
    assert_eq!((trades[1].maker_order_id, trades[1].price, trades[1].quantity), (a_id, p(990, 1), 4));
    assert!(book.bid_levels().is_empty());
    assert_eq!(book.ask_levels().len(), 1);
    assert_eq!(book.ask_levels()[0].orders[0].remaining_quantity, 2);
}

#[test]
fn equal_prices_written_differently_share_a_level() {
    let mut book = new_book();
    book.add_order(create_test_order(OrderSide::Buy, p(1000, 1), 3));
    book.add_order(create_test_order(OrderSide::Buy, p(10000, 2), 4));
    assert_eq!(book.bid_levels().len(), 1);
    assert_eq!(book.bid_levels()[0].price, p(1000, 1));
    assert_eq!(book.get_bbo_with_qty().1, Some(7));
    // A limit of 100 crosses an ask of 100.00.
    book.add_order(create_test_order(OrderSide::Sell, p(10000, 2), 2));
    assert_eq!(book.get_bbo_with_qty().1, Some(5));
    assert!(book.ask_levels().is_empty());
}

#[test]
fn no_trade_when_limit_does_not_cross() {
    let mut book = new_book();
    book.add_order(create_test_order(OrderSide::Sell, p(1001, 1), 5));
    let (status, trades) = book.add_order(create_test_order(OrderSide::Buy, p(1000, 1), 5));
    assert_eq!(status, OrderStatus::Accepted);
    assert!(trades.is_empty());
    let (bp, _, ap, _) = book.get_bbo_with_qty();
    assert_eq!((bp, ap), (Some(p(1000, 1)), Some(p(1001, 1))));
}

#[test]
fn levels_are_price_ordered_best_first() {
    let mut book = new_book();
    for (m, q) in [(995, 1), (999, 2), (990, 3), (997, 4)] {
        book.add_order(create_test_order(OrderSide::Buy, p(m, 1), q));
    }
    for (m, q) in [(1010, 1), (1003, 2), (1020, 3), (1005, 4)] {
        book.add_order(create_test_order(OrderSide::Sell, p(m, 1), q));
    }
    let bids: Vec<i128> = book.bid_levels().iter().map(|l| l.price.mantissa).collect();
    let asks: Vec<i128> = book.ask_levels().iter().map(|l| l.price.mantissa).collect();
    assert_eq!(bids, vec![999, 997, 995, 990]);
    assert_eq!(asks, vec![1003, 1005, 1010, 1020]);
    let snap = book.get_snapshot(2);
    assert_eq!(
        snap.asks,
        vec![
            PriceLevelInfo { price: p(1003, 1), quantity: 2 },
            PriceLevelInfo { price: p(1005, 1), quantity: 4 },
        ]
    );
}

#[test]
fn book_stays_uncrossed_after_aggressive_orders() {
    let mut book = new_book();
    book.add_order(create_test_order(OrderSide::Sell, p(1000, 1), 5));
    book.add_order(create_test_order(OrderSide::Sell, p(1010, 1), 5));
    book.add_order(create_test_order(OrderSide::Buy, p(1020, 1), 7));
    book.add_order(create_test_order(OrderSide::Buy, p(1015, 1), 9));
    let (bp, _, ap, _) = book.get_bbo_with_qty();
    // The second buy takes the 3 left at 101.0 and rests at 101.5 with nothing asked above.
    assert_eq!(ap, None);
    assert_eq!(bp, Some(p(1015, 1)));
    book.add_order(create_test_order(OrderSide::Sell, p(1030, 1), 1));
    let (bp, _, ap, _) = book.get_bbo_with_qty();
    assert!(bp.unwrap().mantissa < ap.unwrap().mantissa);
}

#[test]
fn quantity_is_conserved() {
    let mut book = new_book();
    book.add_order(create_test_order(OrderSide::Sell, p(1000, 1), 5));
    book.add_order(create_test_order(OrderSide::Sell, p(1005, 1), 8));
    let before = book.side_quantity(OrderSide::Buy) + book.side_quantity(OrderSide::Sell);
    let (_, trades) = book.add_order(create_test_order(OrderSide::Buy, p(1010, 1), 20));
    let after = book.side_quantity(OrderSide::Buy) + book.side_quantity(OrderSide::Sell);
    let traded: u64 = trades.iter().map(|t| t.quantity).sum();
    assert_eq!(traded, 13);
    assert_eq!(before, 13);
    assert_eq!(after, 7);
    assert_eq!(after as i64 - (before as i64 + 20), -2 * traded as i64);
}

#[test]
fn traded_never_exceeds_submitted() {
    let mut book = new_book();
    let mut submitted = 0u64;
    let mut traded = 0u64;
    let orders = [
        (OrderSide::Sell, 1000, 5),
        (OrderSide::Buy, 1010, 3),
        (OrderSide::Buy, 1000, 9),
        (OrderSide::Sell, 990, 20),
    ];
    for (side, m, q) in orders {
        submitted += q;
        let (_, trades) = book.add_order(create_test_order(side, p(m, 1), q));
        traded += trades.iter().map(|t| t.quantity).sum::<u64>();
        assert!(traded <= submitted);
    }
    assert_eq!(traded, 5 + 7);
}

#[test]
fn no_empty_level_remains_after_fills() {
    let mut book = new_book();
    book.add_order(create_test_order(OrderSide::Sell, p(1000, 1), 5));
    book.add_order(create_test_order(OrderSide::Sell, p(1000, 1), 5));
    book.add_order(create_test_order(OrderSide::Sell, p(1001, 1), 5));
    book.add_order(create_test_order(OrderSide::Buy, p(1000, 1), 10));
    assert_eq!(book.ask_levels().len(), 1);
    for l in book.ask_levels() {
        assert!(!l.orders.is_empty());
    }
    assert_eq!(book.get_snapshot(5).asks, vec![PriceLevelInfo { price: p(1001, 1), quantity: 5 }]);
}

#[test]
fn arrival_order_kept_at_a_price() {
    let mut book = new_book();
    let ids: Vec<u128> = (0..4)
        .map(|_| {
            let o = create_test_order(OrderSide::Sell, p(1000, 1), 5);
            let id = o.id;
            book.add_order(o);
            id
        })
        .collect();
    let (_, trades) = book.add_order(create_test_order(OrderSide::Buy, p(1000, 1), 7));
    assert_eq!(trades[0].maker_order_id, ids[0]);
    assert_eq!(trades[1].maker_order_id, ids[1]);
    let late = create_test_order(OrderSide::Sell, p(1000, 1), 1);
    let late_id = late.id;
    book.add_order(late);
    let queue: Vec<u128> = book.ask_levels()[0].orders.iter().map(|o| o.id).collect();
    assert_eq!(queue, vec![ids[1], ids[2], ids[3], late_id]);
    assert_eq!(book.ask_levels()[0].orders[0].remaining_quantity, 3);
}

#[test]
fn bbo_published_once_per_state() {
    let mut book = new_book();
    assert!(book.bbo_if_changed().is_none());
    assert!(book.snapshot_if_changed(5).is_none());
    book.add_order(create_test_order(OrderSide::Buy, p(998, 1), 5));
    let first = book.bbo_if_changed().unwrap();
    assert_eq!((first.bid_price, first.bid_qty), (Some(p(998, 1)), Some(5)));
    assert!(book.bbo_if_changed().is_none());
    assert!(book.snapshot_if_changed(5).is_some());
    assert!(book.snapshot_if_changed(5).is_none());
    book.add_order(create_test_order(OrderSide::Buy, p(998, 1), 7));
    assert_eq!(book.bbo_if_changed().unwrap().bid_qty, Some(12));
    book.add_order(create_test_order(OrderSide::Buy, p(997, 1), 10));
    assert!(book.bbo_if_changed().is_none());
    assert!(book.snapshot_if_changed(5).is_some());
}

#[test]
fn remaining_quantity_normalized() {
    let mut o = create_test_order(OrderSide::Buy, p(1000, 1), 10);
    o.remaining_quantity = 4;
    o.ensure_remaining_quantity();
    assert_eq!(o.remaining_quantity, 10);
    o.status = OrderStatus::Accepted;
    o.remaining_quantity = 4;
    o.ensure_remaining_quantity();
    assert_eq!(o.remaining_quantity, 4);
    o.remaining_quantity = 0;
    o.ensure_remaining_quantity();
    assert_eq!(o.remaining_quantity, 10);
    o.remaining_quantity = 11;
    o.ensure_remaining_quantity();
    assert_eq!(o.remaining_quantity, 10);
}

#[test]
fn resubmitted_order_keeps_its_remaining_quantity() {
    let mut book = new_book();
    let mut o = create_test_order(OrderSide::Buy, p(1000, 1), 10);
    o.status = OrderStatus::Accepted;
    o.remaining_quantity = 4;
    let (status, _) = book.add_order(o);
    assert_eq!(status, OrderStatus::PartiallyFilled);
    assert_eq!(book.get_bbo_with_qty().1, Some(4));
}

#[test]
fn fresh_orders_get_distinct_ids_and_a_time() {
    let a = create_test_order(OrderSide::Buy, p(1, 0), 1);
    let b = create_test_order(OrderSide::Buy, p(1, 0), 1);
    assert_ne!(a.id, b.id);
    assert!(a.timestamp.seconds > 1_600_000_000);
    assert_eq!(a.status, OrderStatus::New);
    assert_eq!(a.remaining_quantity, 1);
}

#[test]
fn bbo_update_drops_zero_quantities() {
    let u = BboUpdate::new("X".to_string(), Some(p(1, 0)), Some(0), Some(p(2, 0)), Some(3));
    assert_eq!(u.bid_qty, None);
    assert_eq!(u.ask_qty, Some(3));
    let v = BboUpdate::new("X".to_string(), Some(p(1, 0)), None, Some(p(2, 0)), Some(3));
    assert!(u.same_as(&v));
    assert!(!u.same_as(&BboUpdate::new("X".to_string(), None, None, Some(p(2, 0)), Some(3))));
}

#[test]
fn price_positivity() {
    assert!(p(1, 28).is_positive());
    assert!(!p(0, 3).is_positive());
    assert!(!p(-1, 0).is_positive());
}
