//! A per-symbol limit-order matching engine with price-time priority.

pub mod book;
pub mod engine;
pub mod laws;
mod lemmas;
pub mod market_data;
pub mod matching;
pub mod order;
pub mod price;

pub use order::{Order, OrderSide, OrderStatus, Timestamp, Trade};
pub use price::Price;
pub use book::{OrderBook, PriceLevel};
pub use market_data::{BboUpdate, OrderBookSnapshot, PriceLevelInfo};
