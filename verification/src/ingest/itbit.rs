//! The ticker of itBit, which stands in for its trades.

use crate::clock;
use crate::json;
use crate::json::{Json, JsonTree};
use crate::numeric::binary64::Binary64;
use crate::types::{Exchange, Trade};
use vstd::prelude::*;

verus! {

/// The trade that a ticker stands for, if it has a last price. The ticker has no volume of a single
/// trade, so the size is a fixed one.
pub open spec fn ticker_trade(ticker: JsonTree, local: u64) -> Option<Trade> {
    match ticker.decimal_field("lastPrice"@) {
        Some(price) => Some(
            Trade {
                exchange: Exchange::ItBit,
                price,
                size: Binary64::ratio(1, 100),
                exchange_ts: local,
                local_ts: local,
            },
        ),
        None => None,
    }
}

/// The trade that a ticker stands for, at a given time.
pub fn trade(ticker: &Json, local: u64) -> (r: Option<Trade>)
    ensures
        r == ticker_trade(ticker.tree(), local),
{
    match ticker.decimal_field("lastPrice") {
        Some(price) => Some(
            Trade {
                exchange: Exchange::ItBit,
                price,
                size: Binary64::from_ratio(1, 100),
                exchange_ts: local,
                local_ts: local,
            },
        ),
        None => None,
    }
}

/// The trade that a ticker stands for now; none where the text is no ticker.
pub fn normalize(raw: &str) -> (r: Option<Trade>)
    ensures
        match json::json_document(raw@) {
            Some(ticker) => exists|now: std::time::SystemTime|
                r == ticker_trade(ticker, clock::clock_value(#[trigger] clock::reading_millis(now)) as u64),
            None => r is None,
        },
{
    match json::parse(raw) {
        Ok(ticker) => trade(&ticker, clock::local_ts_ms()),
        Err(_) => None,
    }
}

/// Whether there is a trade does not depend on the time, and its price neither.
pub proof fn lemma_price_is_timeless(ticker: JsonTree, local: u64, other: u64)
    ensures
        match (ticker_trade(ticker, local), ticker_trade(ticker, other)) {
            (Some(a), Some(b)) => a.price == b.price && a.size == b.size && a.exchange_ts
                == a.local_ts,
            (None, None) => true,
            _ => false,
        },
{
}

} // verus!
