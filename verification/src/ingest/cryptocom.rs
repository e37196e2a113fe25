//! Messages of Crypto.com's market data.

use crate::clock;
use crate::json;
use crate::json::{Json, JsonError, JsonTree};
use crate::numeric::binary64::Binary64;
use crate::text;
use crate::types::{Exchange, Trade};
use vstd::prelude::*;

verus! {

/// The trade of one entry, if it has a price; its size is zero where it has none, and its time the
/// one at which it came.
pub open spec fn entry_trade(entry: JsonTree, local: u64) -> Option<Trade> {
    match entry.decimal_field("p"@) {
        Some(price) => Some(
            Trade {
                exchange: Exchange::CryptoCom,
                price,
                size: match entry.decimal_field("q"@) {
                    Some(size) => size,
                    None => Binary64::whole(0),
                },
                exchange_ts: match entry.unsigned_field("t"@) {
                    Some(ms) => ms,
                    None => local,
                },
                local_ts: local,
            },
        ),
        None => None,
    }
}

/// The trades of a row of entries.
pub open spec fn entry_trades(entries: Seq<JsonTree>, local: u64) -> Seq<Trade>
    decreases entries.len(),
{
    if entries.len() == 0 {
        Seq::empty()
    } else {
        let rest = entry_trades(entries.drop_last(), local);
        match entry_trade(entries.last(), local) {
            Some(trade) => rest.push(trade),
            None => rest,
        }
    }
}

/// The trades of a message: one that answers the subscription with data has some, any other has
/// none.
pub open spec fn message_trades(message: JsonTree, local: u64) -> Seq<Trade> {
    if message.text_field("method"@) == Some("subscribe"@) {
        match message.field("result"@) {
            Some(result) => match result.array_field("data"@) {
                Some(entries) => entry_trades(entries, local),
                None => Seq::empty(),
            },
            None => Seq::empty(),
        }
    } else {
        Seq::empty()
    }
}

fn trade_of(entry: &Json, local: u64) -> (r: Option<Trade>)
    ensures
        r == entry_trade(entry.tree(), local),
{
    let price: Binary64 = match entry.decimal_field("p") {
        Some(price) => price,
        None => {
            return None;
        },
    };
    let size: Binary64 = match entry.decimal_field("q") {
        Some(size) => size,
        None => Binary64::from_u64(0),
    };
    let exchange_ts: u64 = match entry.unsigned_field("t") {
        Some(ms) => ms,
        None => local,
    };
    Some(Trade { exchange: Exchange::CryptoCom, price, size, exchange_ts, local_ts: local })
}

/// The trades of a message that came at a given time.
pub fn trades(message: &Json, local: u64) -> (r: Vec<Trade>)
    ensures
        r@ == message_trades(message.tree(), local),
{
    let mut r: Vec<Trade> = Vec::new();
    let subscription = match message.text_field("method") {
        Some(method) => text::same_text(method, "subscribe"),
        None => false,
    };
    if !subscription {
        return r;
    }
    let result: &Json = match message.get("result") {
        Some(result) => result,
        None => {
            return r;
        },
    };
    let entries: &Vec<Json> = match result.array_field("data") {
        Some(entries) => entries,
        None => {
            return r;
        },
    };
    let ghost all = json::trees(entries@);
    let mut i: usize = 0;
    proof {
        assert(all.take(0) == Seq::<JsonTree>::empty());
    }
    while i < entries.len()
        invariant
            i <= entries@.len(),
            all == json::trees(entries@),
            r@ == entry_trades(all.take(i as int), local),
        decreases entries.len() - i,
    {
        let entry: &Json = json::item(entries, i);
        proof {
            assert(all.take(i + 1).drop_last() == all.take(i as int));
        }
        match trade_of(entry, local) {
            Some(trade) => {
                r.push(trade);
            },
            None => {},
        }
        i = i + 1;
    }
    proof {
        json::lemma_trees(entries@);
        assert(all.take(i as int) == all);
    }
    r
}

/// The trades of a message that comes now.
pub fn normalize(raw: &str) -> (r: Result<Vec<Trade>, JsonError>)
    ensures
        match r {
            Ok(found) => {
                &&& json::json_document(raw@) is Some
                &&& exists|now: std::time::SystemTime|
                    found@ == message_trades(
                        json::json_document(raw@)->0,
                        clock::clock_value(#[trigger] clock::reading_millis(now)) as u64,
                    )
            },
            Err(e) => e == JsonError::Malformed && json::json_document(raw@) is None,
        },
{
    match json::parse(raw) {
        Ok(message) => Ok(trades(&message, clock::local_ts_ms())),
        Err(e) => Err(e),
    }
}

/// Each trade carries its exchange and the time at which it came.
pub proof fn lemma_trades_are_stamped(message: JsonTree, local: u64)
    ensures
        forall|i: int|
            0 <= i < message_trades(message, local).len() ==> {
                let trade = #[trigger] message_trades(message, local)[i];
                trade.exchange == Exchange::CryptoCom && trade.local_ts == local
            },
{
    if message.field("result"@) is Some && message.field("result"@)->0.array_field(
        "data"@,
    ) is Some {
        lemma_entries_are_stamped(message.field("result"@)->0.array_field("data"@)->0, local);
    }
}

proof fn lemma_entries_are_stamped(entries: Seq<JsonTree>, local: u64)
    ensures
        forall|i: int|
            0 <= i < entry_trades(entries, local).len() ==> {
                let trade = #[trigger] entry_trades(entries, local)[i];
                trade.exchange == Exchange::CryptoCom && trade.local_ts == local
            },
    decreases entries.len(),
{
    if entries.len() > 0 {
        lemma_entries_are_stamped(entries.drop_last(), local);
        let rest = entry_trades(entries.drop_last(), local);
        assert forall|i: int| 0 <= i < entry_trades(entries, local).len() implies ({
            let trade = #[trigger] entry_trades(entries, local)[i];
            trade.exchange == Exchange::CryptoCom && trade.local_ts == local
        }) by {
            if i < rest.len() {
                assert(entry_trades(entries, local)[i] == rest[i]);
            }
        }
    }
}

} // verus!
