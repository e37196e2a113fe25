//! Messages of Coinbase's market data.

use crate::ingest::timestamps;
use crate::numeric::binary64::Binary64;
use crate::numeric::decimal;
use crate::text;
use crate::types::{Exchange, Trade};
use vstd::prelude::*;

verus! {

/// A message. One without a channel, such as the answer to a subscription, has no trades.
#[derive(Debug)]
pub struct CoinbaseMsg {
    pub channel: Option<String>,
    pub events: Option<Vec<CoinbaseEvent>>,
}

/// One event of a message.
#[derive(Debug)]
pub struct CoinbaseEvent {
    pub trades: Option<Vec<CoinbaseRawTrade>>,
}

/// A trade as it is written.
#[derive(Debug)]
pub struct CoinbaseRawTrade {
    pub price: String,
    pub size: String,
    pub time: String,
}

/// The trade that is written, if its price and size are numbers.
pub open spec fn written_trade(raw: CoinbaseRawTrade, local: u64) -> Option<Trade> {
    match (decimal::number_text(raw.price@), decimal::number_text(raw.size@)) {
        (Some(price), Some(size)) => Some(
            Trade {
                exchange: Exchange::Coinbase,
                price,
                size,
                exchange_ts: timestamps::time_or(raw.time@, local),
                local_ts: local,
            },
        ),
        _ => None,
    }
}

/// The trades that are written in a row.
pub open spec fn written_trades(raw: Seq<CoinbaseRawTrade>, local: u64) -> Seq<Trade>
    decreases raw.len(),
{
    if raw.len() == 0 {
        Seq::empty()
    } else {
        let rest = written_trades(raw.drop_last(), local);
        match written_trade(raw.last(), local) {
            Some(trade) => rest.push(trade),
            None => rest,
        }
    }
}

/// The trades of one event.
pub open spec fn event_trades(event: CoinbaseEvent, local: u64) -> Seq<Trade> {
    match event.trades {
        Some(raw) => written_trades(raw@, local),
        None => Seq::empty(),
    }
}

/// The trades of a row of events.
pub open spec fn all_trades(events: Seq<CoinbaseEvent>, local: u64) -> Seq<Trade>
    decreases events.len(),
{
    if events.len() == 0 {
        Seq::empty()
    } else {
        all_trades(events.drop_last(), local) + event_trades(events.last(), local)
    }
}

/// The trades of a message: one of the trade channel has some, any other has none.
pub open spec fn message_trades(message: CoinbaseMsg, local: u64) -> Seq<Trade> {
    match (message.channel, message.events) {
        (Some(channel), Some(events)) => if channel@ == "market_trades"@ {
            all_trades(events@, local)
        } else {
            Seq::empty()
        },
        _ => Seq::empty(),
    }
}

fn trade_of(raw: &CoinbaseRawTrade, local: u64) -> (r: Option<Trade>)
    ensures
        r == written_trade(*raw, local),
{
    let price: Binary64 = match decimal::parse_number(raw.price.as_str()) {
        Some(price) => price,
        None => {
            return None;
        },
    };
    let size: Binary64 = match decimal::parse_number(raw.size.as_str()) {
        Some(size) => size,
        None => {
            return None;
        },
    };
    let exchange_ts: u64 = timestamps::parse_time_or(raw.time.as_str(), local);
    Some(Trade { exchange: Exchange::Coinbase, price, size, exchange_ts, local_ts: local })
}

/// The trades of a message that came at a given time.
pub fn normalize(message: &CoinbaseMsg, local: u64) -> (r: Vec<Trade>)
    ensures
        r@ == message_trades(*message, local),
{
    let mut r: Vec<Trade> = Vec::new();
    let trade_channel = match &message.channel {
        Some(channel) => text::same_text(channel.as_str(), "market_trades"),
        None => false,
    };
    if !trade_channel {
        return r;
    }
    let events: &Vec<CoinbaseEvent> = match &message.events {
        Some(events) => events,
        None => {
            return r;
        },
    };
    let mut i: usize = 0;
    proof {
        assert(events@.take(0) == Seq::<CoinbaseEvent>::empty());
    }
    while i < events.len()
        invariant
            i <= events@.len(),
            r@ == all_trades(events@.take(i as int), local),
        decreases events.len() - i,
    {
        let ghost before = r@;
        proof {
            assert(events@.take(i + 1).drop_last() == events@.take(i as int));
            assert(events@.take(i + 1).last() == events@[i as int]);
        }
        match &events[i].trades {
            Some(raw) => {
                let mut j: usize = 0;
                proof {
                    assert(raw@.take(0) == Seq::<CoinbaseRawTrade>::empty());
                    assert(before + Seq::<Trade>::empty() == before);
                }
                while j < raw.len()
                    invariant
                        j <= raw@.len(),
                        r@ == before + written_trades(raw@.take(j as int), local),
                    decreases raw.len() - j,
                {
                    proof {
                        assert(raw@.take(j + 1).drop_last() == raw@.take(j as int));
                    }
                    match trade_of(&raw[j], local) {
                        Some(trade) => {
                            r.push(trade);
                        },
                        None => {},
                    }
                    j = j + 1;
                    proof {
                        assert(r@ =~= before + written_trades(raw@.take(j as int), local));
                    }
                }
                proof {
                    assert(raw@.take(j as int) == raw@);
                }
            },
            None => {
                proof {
                    assert(before + Seq::<Trade>::empty() == before);
                }
            },
        }
        i = i + 1;
    }
    proof {
        assert(events@.take(i as int) == events@);
    }
    r
}

/// Each trade carries its exchange and the time at which it came.
pub proof fn lemma_trades_are_stamped(message: CoinbaseMsg, local: u64)
    ensures
        forall|i: int|
            0 <= i < message_trades(message, local).len() ==> {
                let trade = #[trigger] message_trades(message, local)[i];
                trade.exchange == Exchange::Coinbase && trade.local_ts == local
            },
{
    if message.events is Some {
        lemma_all_are_stamped(message.events->0@, local);
    }
}

proof fn lemma_all_are_stamped(events: Seq<CoinbaseEvent>, local: u64)
    ensures
        forall|i: int|
            0 <= i < all_trades(events, local).len() ==> {
                let trade = #[trigger] all_trades(events, local)[i];
                trade.exchange == Exchange::Coinbase && trade.local_ts == local
            },
    decreases events.len(),
{
    if events.len() > 0 {
        lemma_all_are_stamped(events.drop_last(), local);
        let rest = all_trades(events.drop_last(), local);
        if events.last().trades is Some {
            lemma_written_are_stamped(events.last().trades->0@, local);
        }
        let last = event_trades(events.last(), local);
        assert forall|i: int| 0 <= i < all_trades(events, local).len() implies ({
            let trade = #[trigger] all_trades(events, local)[i];
            trade.exchange == Exchange::Coinbase && trade.local_ts == local
        }) by {
            if i < rest.len() {
                assert(all_trades(events, local)[i] == rest[i]);
            } else {
                assert(all_trades(events, local)[i] == last[i - rest.len()]);
            }
        }
    }
}

proof fn lemma_written_are_stamped(raw: Seq<CoinbaseRawTrade>, local: u64)
    ensures
        forall|i: int|
            0 <= i < written_trades(raw, local).len() ==> {
                let trade = #[trigger] written_trades(raw, local)[i];
                trade.exchange == Exchange::Coinbase && trade.local_ts == local
            },
    decreases raw.len(),
{
    if raw.len() > 0 {
        lemma_written_are_stamped(raw.drop_last(), local);
        let rest = written_trades(raw.drop_last(), local);
        assert forall|i: int| 0 <= i < written_trades(raw, local).len() implies ({
            let trade = #[trigger] written_trades(raw, local)[i];
            trade.exchange == Exchange::Coinbase && trade.local_ts == local
        }) by {
            if i < rest.len() {
                assert(written_trades(raw, local)[i] == rest[i]);
            }
        }
    }
}

} // verus!
