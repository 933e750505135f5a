//! Order-book replay, market-making strategy, execution simulation and
//! trade accounting on integer prices and quantities.
//!
//! Prices are whole ticks and quantities whole lots: the caller picks the
//! tick and lot sizes, and every amount of money the library reports is in
//! tick-lots (one tick times one lot).
pub mod models;
pub mod order_book;
pub mod pnl;
pub mod trading;
pub mod strategy;
pub mod ledger;
pub mod backtest;
pub mod loader;
pub mod reader;
pub mod config;
pub mod dashboard;
