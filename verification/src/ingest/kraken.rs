//! Messages of Kraken's market data, version 2.

use crate::clock;
use crate::ingest::timestamps;
use crate::json;
use crate::json::{Json, JsonError, JsonTree};
use crate::numeric::binary64::Binary64;
use crate::text;
use crate::types::{Exchange, Trade};
use vstd::prelude::*;

verus! {

/// The trade of one entry, if it has a price, a quantity and a time.
pub open spec fn entry_trade(entry: JsonTree, local: u64) -> Option<Trade> {
    match (
        entry.number_field("price"@),
        entry.number_field("qty"@),
        entry.text_field("timestamp"@),
    ) {
        (Some(price), Some(size), Some(timestamp)) => Some(
            Trade {
                exchange: Exchange::Kraken,
                price,
                size,
                exchange_ts: timestamps::time_or(timestamp, local),
                local_ts: local,
            },
        ),
        _ => None,
    }
}

/// The trades of a row of entries.
pub open spec fn entry_trades(entries: Seq<JsonTree>, local: u64) -> Seq<Trade>
    decreases entries.len(),
{
    if entries.len() == 0 {
        Seq::empty()
    } else {
        let rest = entry_trades(entries.drop_last(), local);
        match entry_trade(entries.last(), local) {
            Some(trade) => rest.push(trade),
            None => rest,
        }
    }
}

/// The trades of a message: an update of the trade channel has some, any other has none.
pub open spec fn message_trades(message: JsonTree, local: u64) -> Seq<Trade> {
    if message.text_field("channel"@) == Some("trade"@) && message.text_field("type"@) == Some(
        "update"@,
    ) {
        match message.array_field("data"@) {
            Some(entries) => entry_trades(entries, local),
            None => Seq::empty(),
        }
    } else {
        Seq::empty()
    }
}

fn trade_of(entry: &Json, local: u64) -> (r: Option<Trade>)
    ensures
        r == entry_trade(entry.tree(), local),
{
    let price: Binary64 = match entry.number_field("price") {
        Some(price) => price,
        None => {
            return None;
        },
    };
    let size: Binary64 = match entry.number_field("qty") {
        Some(size) => size,
        None => {
            return None;
        },
    };
    let timestamp: &str = match entry.text_field("timestamp") {
        Some(timestamp) => timestamp,
        None => {
            return None;
        },
    };
    Some(
        Trade {
            exchange: Exchange::Kraken,
            price,
            size,
            exchange_ts: timestamps::parse_time_or(timestamp, local),
            local_ts: local,
        },
    )
}

/// The trades of a message that came at a given time.
pub fn trades(message: &Json, local: u64) -> (r: Vec<Trade>)
    ensures
        r@ == message_trades(message.tree(), local),
{
    let mut r: Vec<Trade> = Vec::new();
    let trade_channel = match message.text_field("channel") {
        Some(channel) => text::same_text(channel, "trade"),
        None => false,
    };
    let update = match message.text_field("type") {
        Some(kind) => text::same_text(kind, "update"),
        None => false,
    };
    if !trade_channel || !update {
        return r;
    }
    let entries: &Vec<Json> = match message.array_field("data") {
        Some(entries) => entries,
        None => {
            return r;
        },
    };
    let ghost all = json::trees(entries@);
    let mut i: usize = 0;
    proof {
        assert(all.take(0) == Seq::<JsonTree>::empty());
    }
    while i < entries.len()
        invariant
            i <= entries@.len(),
            all == json::trees(entries@),
            r@ == entry_trades(all.take(i as int), local),
        decreases entries.len() - i,
    {
        let entry: &Json = json::item(entries, i);
        proof {
            assert(all.take(i + 1).drop_last() == all.take(i as int));
        }
        match trade_of(entry, local) {
            Some(trade) => {
                r.push(trade);
            },
            None => {},
        }
        i = i + 1;
    }
    proof {
        json::lemma_trees(entries@);
        assert(all.take(i as int) == all);
    }
    r
}

/// The trades of a message that comes now.
pub fn normalize(raw: &str) -> (r: Result<Vec<Trade>, JsonError>)
    ensures
        match r {
            Ok(found) => {
                &&& json::json_document(raw@) is Some
                &&& exists|now: std::time::SystemTime|
                    found@ == message_trades(
                        json::json_document(raw@)->0,
                        clock::clock_value(#[trigger] clock::reading_millis(now)) as u64,
                    )
            },
            Err(e) => e == JsonError::Malformed && json::json_document(raw@) is None,
        },
{
    match json::parse(raw) {
        Ok(message) => Ok(trades(&message, clock::local_ts_ms())),
        Err(e) => Err(e),
    }
}

/// Each trade carries its exchange and the time at which it came.
pub proof fn lemma_trades_are_stamped(message: JsonTree, local: u64)
    ensures
        forall|i: int|
            0 <= i < message_trades(message, local).len() ==> {
                let trade = #[trigger] message_trades(message, local)[i];
                trade.exchange == Exchange::Kraken && trade.local_ts == local
            },
{
    if message.array_field("data"@) is Some {
        lemma_entries_are_stamped(message.array_field("data"@)->0, local);
    }
}

proof fn lemma_entries_are_stamped(entries: Seq<JsonTree>, local: u64)
    ensures
        forall|i: int|
            0 <= i < entry_trades(entries, local).len() ==> {
                let trade = #[trigger] entry_trades(entries, local)[i];
                trade.exchange == Exchange::Kraken && trade.local_ts == local
            },
    decreases entries.len(),
{
    if entries.len() > 0 {
        lemma_entries_are_stamped(entries.drop_last(), local);
        let rest = entry_trades(entries.drop_last(), local);
        assert forall|i: int| 0 <= i < entry_trades(entries, local).len() implies ({
            let trade = #[trigger] entry_trades(entries, local)[i];
            trade.exchange == Exchange::Kraken && trade.local_ts == local
        }) by {
            if i < rest.len() {
                assert(entry_trades(entries, local)[i] == rest[i]);
            }
        }
    }
}

} // verus!
