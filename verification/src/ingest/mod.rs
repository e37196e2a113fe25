//! From the messages of the exchanges to trades.

pub mod backoff;
pub mod bitstamp;
pub mod bullish;
pub mod coinbase;
pub mod cryptocom;
pub mod gemini;
pub mod itbit;
pub mod kraken;
pub mod laws;
pub mod record;
pub mod timestamps;
