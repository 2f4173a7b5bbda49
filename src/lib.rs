//! Matching core for a two-sided lending and borrowing market.
//!
//! Lend orders (supply) and borrow orders (demand) rest in an order book
//! under price-then-time priority; whenever the best borrow rate reaches the
//! best lend rate the two are paired into a trade. A matching engine feeds
//! orders to the book and keeps an ordered log of what happened.
pub mod engine;
pub mod error;
pub mod events;
pub mod orderbook;
pub mod persistence;
pub mod types;
