//! Best bid and offer, depth snapshots, and when to publish them.
use vstd::prelude::*;

use crate::order::{now, Timestamp};
use crate::price::Price;

verus! {

/// A price level as published: its price and the sum of its resting quantities.
#[derive(Clone, Copy, Debug, PartialEq, Eq, Structural)]
pub struct PriceLevelInfo {
    pub price: Price,
    pub quantity: u64,
}

/// The best price and aggregate quantity on each side.
#[derive(Clone, Debug)]
pub struct BboUpdate {
    pub symbol: String,
    pub bid_price: Option<Price>,
    pub bid_qty: Option<u64>,
    pub ask_price: Option<Price>,
    pub ask_qty: Option<u64>,
    pub timestamp: Timestamp,
}

/// What a best bid and offer says, its timestamp aside.
pub struct BboView {
    pub symbol: Seq<char>,
    pub bid_price: Option<Price>,
    pub bid_qty: Option<u64>,
    pub ask_price: Option<Price>,
    pub ask_qty: Option<u64>,
}

/// A quantity as published: unset where it is zero.
pub open spec fn published_qty(q: Option<u64>) -> Option<u64> {
    match q {
        Some(v) => if v > 0 {
            Some(v)
        } else {
            None
        },
        None => None,
    }
}

fn positive_qty(q: Option<u64>) -> (r: Option<u64>)
    ensures
        r == published_qty(q),
{
    match q {
        Some(v) => if v > 0 {
            Some(v)
        } else {
            None
        },
        None => None,
    }
}

fn same_price(a: &Option<Price>, b: &Option<Price>) -> (r: bool)
    ensures
        r == (*a == *b),
{
    match (a, b) {
        (Some(x), Some(y)) => x.mantissa == y.mantissa && x.scale == y.scale,
        (None, None) => true,
        _ => false,
    }
}

fn same_qty(a: &Option<u64>, b: &Option<u64>) -> (r: bool)
    ensures
        r == (*a == *b),
{
    match (a, b) {
        (Some(x), Some(y)) => *x == *y,
        (None, None) => true,
        _ => false,
    }
}

impl View for BboUpdate {
    type V = BboView;

    open spec fn view(&self) -> BboView {
        BboView {
            symbol: self.symbol@,
            bid_price: self.bid_price,
            bid_qty: self.bid_qty,
            ask_price: self.ask_price,
            ask_qty: self.ask_qty,
        }
    }
}

impl BboView {
    /// Neither side has a price.
    pub open spec fn is_empty(self) -> bool {
        self.bid_price.is_none() && self.ask_price.is_none()
    }
}

impl BboUpdate {
    /// A best bid and offer stamped with the current time; zero quantities are unset.
    pub fn new(
        symbol: String,
        bid_price: Option<Price>,
        bid_qty: Option<u64>,
        ask_price: Option<Price>,
        ask_qty: Option<u64>,
    ) -> (r: BboUpdate)
        ensures
            r.symbol == symbol,
            r.bid_price == bid_price,
            r.bid_qty == published_qty(bid_qty),
            r.ask_price == ask_price,
            r.ask_qty == published_qty(ask_qty),
    {
        BboUpdate {
            symbol,
            bid_price,
            bid_qty: positive_qty(bid_qty),
            ask_price,
            ask_qty: positive_qty(ask_qty),
            timestamp: now(),
        }
    }

    /// Equality of everything but the timestamp.
    pub fn same_as(&self, other: &BboUpdate) -> (r: bool)
        ensures
            r == (self@ == other@),
    {
        self.symbol == other.symbol && same_price(&self.bid_price, &other.bid_price) && same_qty(
            &self.bid_qty,
            &other.bid_qty,
        ) && same_price(&self.ask_price, &other.ask_price) && same_qty(&self.ask_qty, &other.ask_qty)
    }

    /// Neither side has a price.
    pub fn is_empty(&self) -> (r: bool)
        ensures
            r == self@.is_empty(),
    {
        self.bid_price.is_none() && self.ask_price.is_none()
    }

    /// A field-for-field copy.
    pub fn duplicate(&self) -> (r: BboUpdate)
        ensures
            r@ == self@,
            r.timestamp == self.timestamp,
    {
        BboUpdate {
            symbol: self.symbol.clone(),
            bid_price: self.bid_price,
            bid_qty: self.bid_qty,
            ask_price: self.ask_price,
            ask_qty: self.ask_qty,
            timestamp: self.timestamp,
        }
    }
}

/// The top levels of each side.
#[derive(Clone, Debug)]
pub struct OrderBookSnapshot {
    pub symbol: String,
    pub bids: Vec<PriceLevelInfo>,
    pub asks: Vec<PriceLevelInfo>,
    pub timestamp: Timestamp,
}

/// What a snapshot says, its timestamp aside.
pub struct SnapshotView {
    pub symbol: Seq<char>,
    pub bids: Seq<PriceLevelInfo>,
    pub asks: Seq<PriceLevelInfo>,
}

impl SnapshotView {
    /// Neither side has a level.
    pub open spec fn is_empty(self) -> bool {
        self.bids.len() == 0 && self.asks.len() == 0
    }
}

impl View for OrderBookSnapshot {
    type V = SnapshotView;

    open spec fn view(&self) -> SnapshotView {
        SnapshotView { symbol: self.symbol@, bids: self.bids@, asks: self.asks@ }
    }
}

fn same_levels(a: &Vec<PriceLevelInfo>, b: &Vec<PriceLevelInfo>) -> (r: bool)
    ensures
        r == (a@ == b@),
{
    if a.len() != b.len() {
        return false;
    }
    let mut i: usize = 0;
    while i < a.len()
        invariant
            a@.len() == b@.len(),
            i <= a@.len(),
            forall|k: int| 0 <= k < i ==> a@[k] == b@[k],
        decreases a@.len() - i,
    {
        if a[i] != b[i] {
            return false;
        }
        i = i + 1;
    }
    assert(a@ =~= b@);
    true
}

fn copy_levels(a: &Vec<PriceLevelInfo>) -> (r: Vec<PriceLevelInfo>)
    ensures
        r@ == a@,
{
    let mut r: Vec<PriceLevelInfo> = Vec::new();
    let mut i: usize = 0;
    while i < a.len()
        invariant
            i <= a@.len(),
            r@ == a@.subrange(0, i as int),
        decreases a@.len() - i,
    {
        r.push(a[i]);
        i = i + 1;
        assert(r@ =~= a@.subrange(0, i as int));
    }
    assert(a@.subrange(0, a@.len() as int) =~= a@);
    r
}

impl OrderBookSnapshot {
    /// A snapshot stamped with the current time.
    pub fn new(symbol: String, bids: Vec<PriceLevelInfo>, asks: Vec<PriceLevelInfo>) -> (r:
        OrderBookSnapshot)
        ensures
            r.symbol == symbol,
            r.bids == bids,
            r.asks == asks,
    {
        OrderBookSnapshot { symbol, bids, asks, timestamp: now() }
    }

    /// Equality of everything but the timestamp.
    pub fn same_as(&self, other: &OrderBookSnapshot) -> (r: bool)
        ensures
            r == (self@ == other@),
    {
        self.symbol == other.symbol && same_levels(&self.bids, &other.bids) && same_levels(
            &self.asks,
            &other.asks,
        )
    }

    /// Neither side has a level.
    pub fn is_empty(&self) -> (r: bool)
        ensures
            r == self@.is_empty(),
    {
        self.bids.len() == 0 && self.asks.len() == 0
    }

    /// A field-for-field copy.
    pub fn duplicate(&self) -> (r: OrderBookSnapshot)
        ensures
            r@ == self@,
            r.timestamp == self.timestamp,
    {
        OrderBookSnapshot {
            symbol: self.symbol.clone(),
            bids: copy_levels(&self.bids),
            asks: copy_levels(&self.asks),
            timestamp: self.timestamp,
        }
    }
}

/// Whether a freshly computed best bid and offer is to be published, given the last one
/// published: where there is one, when the new value differs from it; where there is none,
/// when the new value is not empty.
pub open spec fn bbo_due(last: Option<BboUpdate>, current: BboView) -> bool {
    match last {
        Some(b) => b@ != current,
        None => !current.is_empty(),
    }
}

/// The same rule for snapshots.
pub open spec fn snapshot_due(last: Option<OrderBookSnapshot>, current: SnapshotView) -> bool {
    match last {
        Some(s) => s@ != current,
        None => !current.is_empty(),
    }
}

} // verus!
