//! The index estimate: a rolling window of trades for each exchange, the volume-weighted median
//! price of each window, and the mean over the exchanges that are live.

pub mod engine;
pub mod laws;
pub mod report;
pub mod run;
pub mod validator;
pub mod volume_laws;
pub mod window;
