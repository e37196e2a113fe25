//! Messages of Gemini's market data.

use crate::clock;
use crate::json;
use crate::json::{Json, JsonError, JsonTree};
use crate::numeric::binary64::Binary64;
use crate::text;
use crate::types::{Exchange, Trade};
use vstd::prelude::*;

verus! {

/// The trade of one event, if it is one with a price and an amount.
pub open spec fn event_trade(event: JsonTree, exchange_ts: u64, local: u64) -> Option<Trade> {
    if event.text_field("type"@) == Some("trade"@) {
        match (event.decimal_field("price"@), event.decimal_field("amount"@)) {
            (Some(price), Some(size)) => Some(
                Trade { exchange: Exchange::Gemini, price, size, exchange_ts, local_ts: local },
            ),
            _ => None,
        }
    } else {
        None
    }
}

/// The trades of a row of events.
pub open spec fn event_trades(events: Seq<JsonTree>, exchange_ts: u64, local: u64) -> Seq<Trade>
    decreases events.len(),
{
    if events.len() == 0 {
        Seq::empty()
    } else {
        let rest = event_trades(events.drop_last(), exchange_ts, local);
        match event_trade(events.last(), exchange_ts, local) {
            Some(trade) => rest.push(trade),
            None => rest,
        }
    }
}

/// The time of a message: its own, or the one at which it came.
pub open spec fn message_time(message: JsonTree, local: u64) -> u64 {
    match message.unsigned_field("timestampms"@) {
        Some(ms) => ms,
        None => local,
    }
}

/// The trades of a message: a heartbeat has none, and all carry the time of the message.
pub open spec fn message_trades(message: JsonTree, local: u64) -> Seq<Trade> {
    if message.text_field("type"@) == Some("heartbeat"@) {
        Seq::empty()
    } else {
        match message.array_field("events"@) {
            Some(events) => event_trades(events, message_time(message, local), local),
            None => Seq::empty(),
        }
    }
}

fn trade_of(event: &Json, exchange_ts: u64, local: u64) -> (r: Option<Trade>)
    ensures
        r == event_trade(event.tree(), exchange_ts, local),
{
    let is_trade = match event.text_field("type") {
        Some(kind) => text::same_text(kind, "trade"),
        None => false,
    };
    if !is_trade {
        return None;
    }
    let price: Binary64 = match event.decimal_field("price") {
        Some(price) => price,
        None => {
            return None;
        },
    };
    let size: Binary64 = match event.decimal_field("amount") {
        Some(size) => size,
        None => {
            return None;
        },
    };
    Some(Trade { exchange: Exchange::Gemini, price, size, exchange_ts, local_ts: local })
}

/// The trades of a message that came at a given time.
pub fn trades(message: &Json, local: u64) -> (r: Vec<Trade>)
    ensures
        r@ == message_trades(message.tree(), local),
{
    let mut r: Vec<Trade> = Vec::new();
    let heartbeat = match message.text_field("type") {
        Some(kind) => text::same_text(kind, "heartbeat"),
        None => false,
    };
    if heartbeat {
        return r;
    }
    let exchange_ts: u64 = match message.unsigned_field("timestampms") {
        Some(ms) => ms,
        None => local,
    };
    let events: &Vec<Json> = match message.array_field("events") {
        Some(events) => events,
        None => {
            return r;
        },
    };
    let ghost all = json::trees(events@);
    let mut i: usize = 0;
    proof {
        assert(all.take(0) == Seq::<JsonTree>::empty());
    }
    while i < events.len()
        invariant
            i <= events@.len(),
            all == json::trees(events@),
            r@ == event_trades(all.take(i as int), exchange_ts, local),
        decreases events.len() - i,
    {
        let event: &Json = json::item(events, i);
        proof {
            assert(all.take(i + 1).drop_last() == all.take(i as int));
        }
        match trade_of(event, exchange_ts, local) {
            Some(trade) => {
                r.push(trade);
            },
            None => {},
        }
        i = i + 1;
    }
    proof {
        json::lemma_trees(events@);
        assert(all.take(i as int) == all);
    }
    r
}

/// The trades of a message that comes now.
pub fn normalize(raw: &str) -> (r: Result<Vec<Trade>, JsonError>)
    ensures
        match r {
            Ok(found) => {
                &&& json::json_document(raw@) is Some
                &&& exists|now: std::time::SystemTime|
                    found@ == message_trades(
                        json::json_document(raw@)->0,
                        clock::clock_value(#[trigger] clock::reading_millis(now)) as u64,
                    )
            },
            Err(e) => e == JsonError::Malformed && json::json_document(raw@) is None,
        },
{
    match json::parse(raw) {
        Ok(message) => Ok(trades(&message, clock::local_ts_ms())),
        Err(e) => Err(e),
    }
}

/// Each trade carries its exchange, the time of its message and the time at which it came; an event
/// that is no trade costs no other event its trade.
pub proof fn lemma_trades_are_stamped(message: JsonTree, local: u64)
    ensures
        forall|i: int|
            0 <= i < message_trades(message, local).len() ==> {
                let trade = #[trigger] message_trades(message, local)[i];
                &&& trade.exchange == Exchange::Gemini
                &&& trade.local_ts == local
                &&& trade.exchange_ts == message_time(message, local)
            },
        forall|i: int|
            message.text_field("type"@) != Some("heartbeat"@) && message.array_field(
                "events"@,
            ) is Some && 0 <= i < message.array_field("events"@)->0.len() && event_trade(
                #[trigger] message.array_field("events"@)->0[i],
                message_time(message, local),
                local,
            ) is Some ==> message_trades(message, local).contains(
                event_trade(
                    message.array_field("events"@)->0[i],
                    message_time(message, local),
                    local,
                )->0,
            ),
{
    if message.array_field("events"@) is Some {
        lemma_event_trades(
            message.array_field("events"@)->0,
            message_time(message, local),
            local,
        );
    }
}

proof fn lemma_event_trades(events: Seq<JsonTree>, exchange_ts: u64, local: u64)
    ensures
        forall|i: int|
            0 <= i < event_trades(events, exchange_ts, local).len() ==> {
                let trade = #[trigger] event_trades(events, exchange_ts, local)[i];
                &&& trade.exchange == Exchange::Gemini
                &&& trade.local_ts == local
                &&& trade.exchange_ts == exchange_ts
            },
        forall|i: int|
            0 <= i < events.len() && event_trade(
                #[trigger] events[i],
                exchange_ts,
                local,
            ) is Some ==> event_trades(events, exchange_ts, local).contains(
                event_trade(events[i], exchange_ts, local)->0,
            ),
    decreases events.len(),
{
    if events.len() > 0 {
        let before = events.drop_last();
        lemma_event_trades(before, exchange_ts, local);
        let rest = event_trades(before, exchange_ts, local);
        let all = event_trades(events, exchange_ts, local);
        assert forall|i: int| 0 <= i < all.len() implies ({
            let trade = #[trigger] all[i];
            &&& trade.exchange == Exchange::Gemini
            &&& trade.local_ts == local
            &&& trade.exchange_ts == exchange_ts
        }) by {
            if i < rest.len() {
                assert(all[i] == rest[i]);
            }
        }
        assert forall|i: int|
            0 <= i < events.len() && event_trade(
                #[trigger] events[i],
                exchange_ts,
                local,
            ) is Some implies all.contains(event_trade(events[i], exchange_ts, local)->0) by {
            let trade = event_trade(events[i], exchange_ts, local)->0;
            if i < before.len() {
                assert(before[i] == events[i]);
                let j = choose|j: int| 0 <= j < rest.len() && rest[j] == trade;
                assert(all[j] == trade);
            } else {
                assert(all[all.len() - 1] == trade);
            }
        }
    }
}

} // verus!
