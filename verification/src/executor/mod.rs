//! From a trade opportunity to an order and back out of it: risk limits, sizing, open positions,
//! exits, and what is sent to and read from the exchange.

pub mod answer_laws;
pub mod auth;
pub mod client;
pub mod engine;
pub mod exit_laws;
pub mod kelly_laws;
pub mod laws;
pub mod position_tracker;
pub mod risk;
pub mod run;
pub mod sizing;
pub mod step_laws;
pub mod trade_laws;
