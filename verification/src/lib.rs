//! A continuous-batch stock exchange: limit orders, price-time priority
//! order books, per-instrument trade statistics and the decisions of the
//! engine that serves client connections.
//!
//! Prices are fixed-point integers in hundredths of a currency unit.

pub mod depth;
pub mod engine;
pub mod ledger;
pub mod market;
pub mod matching;
pub mod ohlc;
pub mod order;
pub mod price;
pub mod query;
pub mod queue;
pub mod session;
pub mod stock;
pub mod text;
pub mod trade;
