//! Orders, trades and the values they carry.
use vstd::prelude::*;

use crate::price::Price;
use chrono::Utc;
use uuid::Uuid;

verus! {

/// Which side of the book an order is on.
#[derive(Clone, Copy, Debug, PartialEq, Eq, Structural, PartialOrd, Ord, Hash)]
pub enum OrderSide {
    Buy,
    Sell,
}

/// Lifecycle state of an order.
#[derive(Clone, Copy, Debug, PartialEq, Eq, Structural, Hash)]
pub enum OrderStatus {
    New,
    Accepted,
    Rejected,
    Filled,
    PartiallyFilled,
    Cancelled,
}

impl Default for OrderStatus {
    fn default() -> (r: OrderStatus)
        ensures
            r == OrderStatus::New,
    {
        OrderStatus::New
    }
}

/// A point in time: whole seconds since the Unix epoch (UTC) and the nanoseconds past them.
#[derive(Clone, Copy, Debug, PartialEq, Eq, Structural, Hash)]
pub struct Timestamp {
    pub seconds: i64,
    pub nanos: u32,
}

/// Relies on uuid's `Uuid::new_v4`: a random identifier, taken as its 128-bit value.
#[verifier::external_body]
pub(crate) fn fresh_id() -> (r: u128) {
    Uuid::new_v4().as_u128()
}

/// Relies on chrono's `Utc::now`: the current time, split into seconds and nanoseconds.
#[verifier::external_body]
pub(crate) fn now() -> (r: Timestamp) {
    let t = Utc::now();
    Timestamp { seconds: t.timestamp(), nanos: t.timestamp_subsec_nanos() }
}

/// A limit order.
#[derive(Clone, Debug)]
pub struct Order {
    pub id: u128,
    pub side: OrderSide,
    pub symbol: String,
    pub price: Price,
    pub quantity: u64,
    pub timestamp: Timestamp,
    pub status: OrderStatus,
    pub remaining_quantity: u64,
}

/// The remaining quantity an order is processed with: its full quantity when it is new,
/// or when the given remaining quantity is zero or above the full quantity.
pub open spec fn normalized_remaining(o: Order) -> u64 {
    if o.status == OrderStatus::New || o.remaining_quantity == 0 || o.remaining_quantity
        > o.quantity {
        o.quantity
    } else {
        o.remaining_quantity
    }
}

/// `o` with `remaining_quantity` and `status` replaced.
pub open spec fn with_progress(o: Order, remaining: u64, status: OrderStatus) -> Order {
    Order {
        id: o.id,
        side: o.side,
        symbol: o.symbol,
        price: o.price,
        quantity: o.quantity,
        timestamp: o.timestamp,
        status: status,
        remaining_quantity: remaining,
    }
}

impl Order {
    /// Resets the remaining quantity to the full quantity where it cannot be trusted.
    pub fn ensure_remaining_quantity(&mut self)
        ensures
            *final(self) == with_progress(*old(self), normalized_remaining(*old(self)), old(self).status),
    {
        if self.remaining_quantity == 0 || self.remaining_quantity > self.quantity {
            self.remaining_quantity = self.quantity;
        }
        if self.status == OrderStatus::New {
            self.remaining_quantity = self.quantity;
        }
    }

    /// A new order with a fresh identifier, stamped with the current time.
    pub fn new(side: OrderSide, symbol: String, price: Price, quantity: u64) -> (r: Order)
        ensures
            r.side == side,
            r.symbol == symbol,
            r.price == price,
            r.quantity == quantity,
            r.status == OrderStatus::New,
            r.remaining_quantity == quantity,
    {
        Order {
            id: fresh_id(),
            side,
            symbol,
            price,
            quantity,
            timestamp: now(),
            status: OrderStatus::New,
            remaining_quantity: quantity,
        }
    }
}

/// An execution between an incoming order (the taker) and a resting one (the maker).
#[derive(Clone, Debug)]
pub struct Trade {
    pub trade_id: u128,
    pub symbol: String,
    pub price: Price,
    pub quantity: u64,
    pub taker_order_id: u128,
    pub maker_order_id: u128,
    pub timestamp: Timestamp,
}

impl Trade {
    /// A trade with a fresh identifier, stamped with the current time.
    pub fn new(
        symbol: String,
        price: Price,
        quantity: u64,
        taker_order_id: u128,
        maker_order_id: u128,
    ) -> (r: Trade)
        ensures
            r.symbol == symbol,
            r.price == price,
            r.quantity == quantity,
            r.taker_order_id == taker_order_id,
            r.maker_order_id == maker_order_id,
    {
        Trade {
            trade_id: fresh_id(),
            symbol,
            price,
            quantity,
            taker_order_id,
            maker_order_id,
            timestamp: now(),
        }
    }
}

} // verus!
