//! What is recorded of each trade.

use crate::historian::schema::TradeRecord;
use crate::types::{Exchange, Trade};
use vstd::prelude::*;

verus! {

/// The name of an exchange.
pub open spec fn exchange_name(exchange: Exchange) -> Seq<char> {
    match exchange {
        Exchange::Coinbase => "Coinbase"@,
        Exchange::Kraken => "Kraken"@,
        Exchange::Bitstamp => "Bitstamp"@,
        Exchange::Gemini => "Gemini"@,
        Exchange::ItBit => "ItBit"@,
        Exchange::Lmax => "Lmax"@,
        Exchange::Bullish => "Bullish"@,
        Exchange::CryptoCom => "CryptoCom"@,
    }
}

/// The name of an exchange.
pub fn exchange_str(exchange: Exchange) -> (r: &'static str)
    ensures
        r@ == exchange_name(exchange),
{
    match exchange {
        Exchange::Coinbase => "Coinbase",
        Exchange::Kraken => "Kraken",
        Exchange::Bitstamp => "Bitstamp",
        Exchange::Gemini => "Gemini",
        Exchange::ItBit => "ItBit",
        Exchange::Lmax => "Lmax",
        Exchange::Bullish => "Bullish",
        Exchange::CryptoCom => "CryptoCom",
    }
}

/// A whole number in the low 64 bits, with their sign.
pub open spec fn low_signed(n: int) -> int {
    let low = n % 0x1_0000_0000_0000_0000;
    if low < 0x8000_0000_0000_0000 {
        low
    } else {
        low - 0x1_0000_0000_0000_0000
    }
}

/// The time from an exchange's clock to the clock here, in the low 64 bits.
pub fn latency_ms(local_ts: u64, exchange_ts: u64) -> (r: i64)
    ensures
        r == low_signed(local_ts - exchange_ts),
{
    let difference: i128 = local_ts as i128 - exchange_ts as i128;
    let low: i128 = if difference < 0 {
        difference + 0x1_0000_0000_0000_0000
    } else {
        difference
    };
    if low < 0x8000_0000_0000_0000 {
        low as i64
    } else {
        (low - 0x1_0000_0000_0000_0000) as i64
    }
}

/// What is recorded of a trade.
pub fn trade_record(trade: &Trade) -> (r: TradeRecord)
    ensures
        r.timestamp_ms == trade.local_ts,
        r.exchange@ == exchange_name(trade.exchange),
        r.price == trade.price,
        r.size == trade.size,
        r.exchange_ts == trade.exchange_ts,
        r.local_ts == trade.local_ts,
        r.latency_ms == low_signed(trade.local_ts - trade.exchange_ts),
{
    TradeRecord {
        timestamp_ms: trade.local_ts,
        exchange: exchange_str(trade.exchange).to_owned(),
        price: trade.price,
        size: trade.size,
        exchange_ts: trade.exchange_ts,
        local_ts: trade.local_ts,
        latency_ms: latency_ms(trade.local_ts, trade.exchange_ts),
    }
}

} // verus!
