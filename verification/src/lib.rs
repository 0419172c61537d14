//! A single-instrument limit order book with a price-time matching engine.
//!
//! The book keeps two sides of resting orders, bids sorted best-price-first
//! (highest first) and asks sorted best-price-first (lowest first), with
//! earlier order ids ahead of later ones at an equal price. The engine
//! consumes one intent at a time (new buy, new sell, cancel, update), matches
//! crossing orders in strict price-time order, and answers each intent with
//! exactly one execution event.

pub mod events;
pub mod matching_engine;
pub mod order;
pub mod order_book;
pub mod price_level;
