//! From index estimates to trade opportunities: momentum, the model's probability, and the
//! markets that are worth a bet.

pub mod bet_laws;
pub mod compare;
pub mod compare_laws;
pub mod delta;
pub mod engine;
pub mod kalshi_poller;
pub mod laws;
pub mod market_laws;
pub mod momentum_laws;
pub mod price_laws;
pub mod probability;
pub mod report;
pub mod run;
pub mod spike;
