//! A limit-order book with price-time priority and a minimum-fill floor.
//!
//! Each side of the book is a sequence of resting orders kept in best-first
//! order: by price (descending for bids, ascending for asks), then by the
//! minimum fill size, then by arrival. A price level is a run of orders that
//! share a price; a bucket is a run that shares price and minimum fill size.
use vstd::prelude::*;

pub mod laws;
pub mod order;
pub mod price;
pub mod orderbook;

pub use order::Order;
pub use orderbook::OrderBook;
