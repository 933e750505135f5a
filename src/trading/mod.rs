//! Simulated execution, figures of closed trades, and position tracking.
pub mod executor;
pub mod metrics;
pub mod position;
