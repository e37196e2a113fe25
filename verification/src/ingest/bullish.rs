//! Messages of Bullish's market data.

use crate::clock;
use crate::ingest::timestamps;
use crate::json;
use crate::json::{Json, JsonError, JsonTree};
use crate::numeric::binary64::Binary64;
use crate::text;
use crate::types::{Exchange, Trade};
use vstd::prelude::*;

verus! {

/// The trade of a message, if it is one with a price; its size is zero where it has none, and its
/// time the one at which it came.
pub open spec fn message_trade(message: JsonTree, local: u64) -> Option<Trade> {
    if message.text_field("type"@) == Some("trade"@) {
        match message.decimal_field("price"@) {
            Some(price) => Some(
                Trade {
                    exchange: Exchange::Bullish,
                    price,
                    size: match message.decimal_field("size"@) {
                        Some(size) => size,
                        None => Binary64::whole(0),
                    },
                    exchange_ts: match message.text_field("timestamp"@) {
                        Some(s) => timestamps::time_or(s, local),
                        None => local,
                    },
                    local_ts: local,
                },
            ),
            None => None,
        }
    } else {
        None
    }
}

/// The trades of a message: one or none.
pub open spec fn message_trades(message: JsonTree, local: u64) -> Seq<Trade> {
    match message_trade(message, local) {
        Some(trade) => seq![trade],
        None => Seq::empty(),
    }
}

/// The trades of a message that came at a given time.
pub fn trades(message: &Json, local: u64) -> (r: Vec<Trade>)
    ensures
        r@ == message_trades(message.tree(), local),
{
    let mut r: Vec<Trade> = Vec::new();
    let is_trade = match message.text_field("type") {
        Some(kind) => text::same_text(kind, "trade"),
        None => false,
    };
    if !is_trade {
        return r;
    }
    let price: Binary64 = match message.decimal_field("price") {
        Some(price) => price,
        None => {
            return r;
        },
    };
    let size: Binary64 = match message.decimal_field("size") {
        Some(size) => size,
        None => Binary64::from_u64(0),
    };
    let exchange_ts: u64 = match message.text_field("timestamp") {
        Some(s) => timestamps::parse_time_or(s, local),
        None => local,
    };
    r.push(Trade { exchange: Exchange::Bullish, price, size, exchange_ts, local_ts: local });
    proof {
        assert(r@ =~= message_trades(message.tree(), local));
    }
    r
}

/// The trades of a message that comes now.
pub fn normalize(raw: &str) -> (r: Result<Vec<Trade>, JsonError>)
    ensures
        match r {
            Ok(found) => {
                &&& json::json_document(raw@) is Some
                &&& exists|now: std::time::SystemTime|
                    found@ == message_trades(
                        json::json_document(raw@)->0,
                        clock::clock_value(#[trigger] clock::reading_millis(now)) as u64,
                    )
            },
            Err(e) => e == JsonError::Malformed && json::json_document(raw@) is None,
        },
{
    match json::parse(raw) {
        Ok(message) => Ok(trades(&message, clock::local_ts_ms())),
        Err(e) => Err(e),
    }
}

/// A message has at most one trade, which carries its exchange and the time at which it came.
pub proof fn lemma_trades_are_stamped(message: JsonTree, local: u64)
    ensures
        message_trades(message, local).len() <= 1,
        forall|i: int|
            0 <= i < message_trades(message, local).len() ==> {
                let trade = #[trigger] message_trades(message, local)[i];
                trade.exchange == Exchange::Bullish && trade.local_ts == local
            },
{
}

} // verus!
