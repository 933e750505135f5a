//! The market-making strategy.
pub mod signals;
pub mod gpt_market_maker;
