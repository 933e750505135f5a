//! Trade accounting: realized and unrealized pnl by FIFO lot matching or by
//! average cost, and the figures derived from them.
pub mod book;
pub mod fifo;
pub mod position;
pub mod calculator;
pub mod unrealized;
