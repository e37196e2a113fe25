//! Messages of Bitstamp's live trades.

use crate::numeric::binary64::Binary64;
use crate::numeric::decimal;
use crate::text;
use crate::types::{Exchange, Trade};
use vstd::prelude::*;

verus! {

/// The payload of a trade, as it is written.
#[derive(Debug)]
pub struct BitstampData {
    /// Microseconds since the epoch.
    pub microtimestamp: String,
    pub amount: String,
    pub price: String,
}

/// Whether an event has the payload of a trade. Other events, such as the answer to a
/// subscription, have another payload or none.
pub fn has_trade(event: &str) -> (r: bool)
    ensures
        r == (event@ == "trade"@),
{
    text::same_text(event, "trade")
}

/// The trade of a payload, if its price and amount are numbers; its time is the one at which it
/// came where it has none.
pub open spec fn payload_trade(data: BitstampData, local: u64) -> Option<Trade> {
    match (decimal::number_text(data.price@), decimal::number_text(data.amount@)) {
        (Some(price), Some(size)) => Some(
            Trade {
                exchange: Exchange::Bitstamp,
                price,
                size,
                exchange_ts: match text::unsigned_text(data.microtimestamp@) {
                    Some(us) => us / 1000,
                    None => local,
                },
                local_ts: local,
            },
        ),
        _ => None,
    }
}

/// The trades of a payload: one or none.
pub open spec fn payload_trades(data: BitstampData, local: u64) -> Seq<Trade> {
    match payload_trade(data, local) {
        Some(trade) => seq![trade],
        None => Seq::empty(),
    }
}

/// The trades of a payload that came at a given time.
pub fn normalize(data: &BitstampData, local: u64) -> (r: Vec<Trade>)
    ensures
        r@ == payload_trades(*data, local),
{
    let mut r: Vec<Trade> = Vec::new();
    let price: Binary64 = match decimal::parse_number(data.price.as_str()) {
        Some(price) => price,
        None => {
            return r;
        },
    };
    let size: Binary64 = match decimal::parse_number(data.amount.as_str()) {
        Some(size) => size,
        None => {
            return r;
        },
    };
    let exchange_ts: u64 = match text::parse_u64(data.microtimestamp.as_str()) {
        Some(us) => us / 1000,
        None => local,
    };
    r.push(Trade { exchange: Exchange::Bitstamp, price, size, exchange_ts, local_ts: local });
    proof {
        assert(r@ =~= payload_trades(*data, local));
    }
    r
}

/// A payload has at most one trade, which carries its exchange and the time at which it came.
pub proof fn lemma_trades_are_stamped(data: BitstampData, local: u64)
    ensures
        payload_trades(data, local).len() <= 1,
        forall|i: int|
            0 <= i < payload_trades(data, local).len() ==> {
                let trade = #[trigger] payload_trades(data, local)[i];
                trade.exchange == Exchange::Bitstamp && trade.local_ts == local
            },
{
}

} // verus!
