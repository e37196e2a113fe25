//! What becomes of the trades in the exchanges' messages: each one that is complete is kept, in its
//! place, and nothing is added.

use crate::ingest::backoff;
use crate::ingest::bitstamp;
use crate::ingest::bitstamp::BitstampData;
use crate::ingest::bullish;
use crate::ingest::coinbase;
use crate::ingest::coinbase::{CoinbaseEvent, CoinbaseMsg, CoinbaseRawTrade};
use crate::ingest::cryptocom;
use crate::ingest::gemini;
use crate::ingest::itbit;
use crate::ingest::kraken;
use crate::ingest::record;
use crate::ingest::timestamps;
use crate::json::JsonTree;
use crate::numeric::accuracy;
use crate::numeric::binary64::Binary64;
use crate::numeric::decimal;
use crate::numeric::laws;
use crate::text;
use crate::types::{Exchange, Trade};
use vstd::arithmetic::power2::*;
use vstd::prelude::*;

verus! {

/// The time of a trade: the moment that a text says, in milliseconds, or the time at which the trade
/// came where the text says none.
pub open spec fn said_time(text: Seq<char>, came: u64) -> u64 {
    match timestamps::rfc3339_ms(text) {
        Some(ms) => ms,
        None => came,
    }
}

/// Whether an entry of Kraken's has what a trade needs: numbers for the price and the quantity, and a
/// text for the time.
pub open spec fn kraken_complete() -> spec_fn(JsonTree) -> bool {
    |entry: JsonTree|
        entry.number_field("price"@) is Some && entry.number_field("qty"@) is Some
            && entry.text_field("timestamp"@) is Some
}

/// Whether a row of trades is that of a row of Kraken's entries.
pub open spec fn kraken_row(found: Seq<Trade>, entries: Seq<JsonTree>, local: u64) -> bool {
    let complete = entries.filter(kraken_complete());
    &&& found.len() == complete.len()
    &&& forall|i: int|
        0 <= i < found.len() ==> {
            let entry = complete[i];
            &&& (#[trigger] found[i]).price == entry.number_field("price"@)->0
            &&& found[i].size == entry.number_field("qty"@)->0
            &&& found[i].exchange_ts == said_time(entry.text_field("timestamp"@)->0, local)
            &&& found[i].local_ts == local
            &&& found[i].exchange == Exchange::Kraken
        }
}

/// An update of Kraken's trade channel has as many trades as it has complete entries, in their order,
/// each with its entry's price, quantity and time.
pub proof fn lemma_kraken_keeps_every_trade(
    message: JsonTree,
    entries: Seq<JsonTree>,
    local: u64,
)
    requires
        message.text_field("channel"@) == Some("trade"@),
        message.text_field("type"@) == Some("update"@),
        message.array_field("data"@) == Some(entries),
    ensures
        kraken_row(kraken::message_trades(message, local), entries, local),
{
    lemma_kraken_entries(entries, local);
}

proof fn lemma_kraken_entries(entries: Seq<JsonTree>, local: u64)
    ensures
        kraken_row(kraken::entry_trades(entries, local), entries, local),
    decreases entries.len(),
{
    reveal(Seq::filter);
    if entries.len() > 0 {
        lemma_kraken_entries(entries.drop_last(), local);
        let rest = kraken::entry_trades(entries.drop_last(), local);
        let found = kraken::entry_trades(entries, local);
        let before = entries.drop_last().filter(kraken_complete());
        let complete = entries.filter(kraken_complete());
        assert forall|i: int| 0 <= i < rest.len() implies found[i] == #[trigger] rest[i]
            && complete[i] == before[i] by {}
    }
}

/// Any other message of Kraken's has no trades.
pub proof fn lemma_kraken_has_no_other_trades(message: JsonTree, local: u64)
    requires
        message.text_field("channel"@) != Some("trade"@) || message.text_field("type"@) != Some(
            "update"@,
        ) || message.array_field("data"@) is None,
    ensures
        kraken::message_trades(message, local).len() == 0,
{
}

/// Whether an event of Gemini's has what a trade needs: the type of one, and decimal numbers for the
/// price and the amount.
pub open spec fn gemini_complete() -> spec_fn(JsonTree) -> bool {
    |event: JsonTree|
        event.text_field("type"@) == Some("trade"@) && event.decimal_field("price"@) is Some
            && event.decimal_field("amount"@) is Some
}

/// Whether a row of trades is that of a row of Gemini's events.
pub open spec fn gemini_row(
    found: Seq<Trade>,
    events: Seq<JsonTree>,
    exchange_ts: u64,
    local: u64,
) -> bool {
    let complete = events.filter(gemini_complete());
    &&& found.len() == complete.len()
    &&& forall|i: int|
        0 <= i < found.len() ==> {
            &&& (#[trigger] found[i]).price == complete[i].decimal_field("price"@)->0
            &&& found[i].size == complete[i].decimal_field("amount"@)->0
            &&& found[i].exchange_ts == exchange_ts
            &&& found[i].local_ts == local
            &&& found[i].exchange == Exchange::Gemini
        }
}

/// A message of Gemini's has as many trades as it has complete events, in their order, each with its
/// event's price and amount and the message's time, or the time at which it came where the message has
/// none; a heartbeat has no trades, nor has a message without events.
pub proof fn lemma_gemini_keeps_every_trade(message: JsonTree, local: u64)
    ensures
        message.text_field("type"@) == Some("heartbeat"@) || message.array_field("events"@) is None
            ==> gemini::message_trades(message, local).len() == 0,
        message.text_field("type"@) != Some("heartbeat"@) && message.array_field("events"@) is Some
            ==> gemini_row(
            gemini::message_trades(message, local),
            message.array_field("events"@)->0,
            match message.unsigned_field("timestampms"@) {
                Some(ms) => ms,
                None => local,
            },
            local,
        ),
{
    if message.array_field("events"@) is Some {
        lemma_gemini_events(
            message.array_field("events"@)->0,
            match message.unsigned_field("timestampms"@) {
                Some(ms) => ms,
                None => local,
            },
            local,
        );
    }
}

proof fn lemma_gemini_events(events: Seq<JsonTree>, exchange_ts: u64, local: u64)
    ensures
        gemini_row(gemini::event_trades(events, exchange_ts, local), events, exchange_ts, local),
    decreases events.len(),
{
    reveal(Seq::filter);
    if events.len() > 0 {
        lemma_gemini_events(events.drop_last(), exchange_ts, local);
        let rest = gemini::event_trades(events.drop_last(), exchange_ts, local);
        let found = gemini::event_trades(events, exchange_ts, local);
        let before = events.drop_last().filter(gemini_complete());
        let complete = events.filter(gemini_complete());
        assert forall|i: int| 0 <= i < rest.len() implies found[i] == #[trigger] rest[i]
            && complete[i] == before[i] by {}
    }
}

/// Whether an entry of Crypto.com's has what a trade needs: a decimal number for the price.
pub open spec fn cryptocom_complete() -> spec_fn(JsonTree) -> bool {
    |entry: JsonTree| entry.decimal_field("p"@) is Some
}

/// Whether a row of trades is that of a row of Crypto.com's entries.
pub open spec fn cryptocom_row(found: Seq<Trade>, entries: Seq<JsonTree>, local: u64) -> bool {
    let complete = entries.filter(cryptocom_complete());
    &&& found.len() == complete.len()
    &&& forall|i: int|
        0 <= i < found.len() ==> {
            let entry = complete[i];
            &&& (#[trigger] found[i]).price == entry.decimal_field("p"@)->0
            &&& entry.decimal_field("q"@) is Some ==> found[i].size == entry.decimal_field("q"@)->0
            &&& entry.decimal_field("q"@) is None ==> accuracy::is_whole(found[i].size, 0)
            &&& entry.unsigned_field("t"@) is Some ==> found[i].exchange_ts == entry.unsigned_field(
                "t"@,
            )->0
            &&& entry.unsigned_field("t"@) is None ==> found[i].exchange_ts == local
            &&& found[i].local_ts == local
            &&& found[i].exchange == Exchange::CryptoCom
        }
}

/// An answer of Crypto.com's to the subscription has as many trades as it has complete entries, in
/// their order, each with its entry's price, quantity and time.
pub proof fn lemma_cryptocom_keeps_every_trade(
    message: JsonTree,
    result: JsonTree,
    entries: Seq<JsonTree>,
    local: u64,
)
    requires
        message.text_field("method"@) == Some("subscribe"@),
        message.field("result"@) == Some(result),
        result.array_field("data"@) == Some(entries),
    ensures
        cryptocom_row(cryptocom::message_trades(message, local), entries, local),
{
    lemma_cryptocom_entries(entries, local);
}

proof fn lemma_cryptocom_entries(entries: Seq<JsonTree>, local: u64)
    ensures
        cryptocom_row(cryptocom::entry_trades(entries, local), entries, local),
    decreases entries.len(),
{
    reveal(Seq::filter);
    laws::lemma_whole_exact(0);
    if entries.len() > 0 {
        lemma_cryptocom_entries(entries.drop_last(), local);
        let rest = cryptocom::entry_trades(entries.drop_last(), local);
        let found = cryptocom::entry_trades(entries, local);
        let before = entries.drop_last().filter(cryptocom_complete());
        let complete = entries.filter(cryptocom_complete());
        assert forall|i: int| 0 <= i < rest.len() implies found[i] == #[trigger] rest[i]
            && complete[i] == before[i] by {}
    }
}

/// Any other message of Crypto.com's has no trades.
pub proof fn lemma_cryptocom_has_no_other_trades(message: JsonTree, local: u64)
    requires
        message.text_field("method"@) != Some("subscribe"@) || message.field("result"@) is None
            || message.field("result"@)->0.array_field("data"@) is None,
    ensures
        cryptocom::message_trades(message, local).len() == 0,
{
}

/// Whether a trade that Coinbase writes has what a trade needs: numbers for the price and the size.
pub open spec fn coinbase_complete() -> spec_fn(CoinbaseRawTrade) -> bool {
    |raw: CoinbaseRawTrade|
        decimal::number_text(raw.price@) is Some && decimal::number_text(raw.size@) is Some
}

/// Whether a row of trades is that of a row of trades that Coinbase writes.
pub open spec fn coinbase_row(found: Seq<Trade>, raw: Seq<CoinbaseRawTrade>, local: u64) -> bool {
    let complete = raw.filter(coinbase_complete());
    &&& found.len() == complete.len()
    &&& forall|i: int|
        0 <= i < found.len() ==> {
            &&& Some((#[trigger] found[i]).price) == decimal::number_text(complete[i].price@)
            &&& Some(found[i].size) == decimal::number_text(complete[i].size@)
            &&& found[i].exchange_ts == said_time(complete[i].time@, local)
            &&& found[i].local_ts == local
            &&& found[i].exchange == Exchange::Coinbase
        }
}

/// The trades that are written in a row of events, event by event.
pub open spec fn coinbase_rows(events: Seq<CoinbaseEvent>) -> Seq<Seq<CoinbaseRawTrade>> {
    Seq::new(
        events.len(),
        |i: int|
            match events[i].trades {
                Some(raw) => raw@,
                None => Seq::empty(),
            },
    )
}

/// A message of Coinbase's trade channel has as many trades as its events have complete ones, in their
/// order, each with its price, size and time. Any other message has none.
pub proof fn lemma_coinbase_keeps_every_trade(message: CoinbaseMsg, local: u64)
    ensures
        message.channel is Some && message.channel->0@ == "market_trades"@ && message.events is Some
            ==> coinbase_row(
            coinbase::message_trades(message, local),
            coinbase_rows(message.events->0@).flatten(),
            local,
        ),
        message.channel is None || message.channel->0@ != "market_trades"@ || message.events is None
            ==> coinbase::message_trades(message, local).len() == 0,
{
    if message.events is Some {
        lemma_coinbase_events(message.events->0@, local);
        coinbase_rows(message.events->0@).lemma_flatten_and_flatten_alt_are_equivalent();
    }
}

proof fn lemma_coinbase_events(events: Seq<CoinbaseEvent>, local: u64)
    ensures
        coinbase_row(
            coinbase::all_trades(events, local),
            coinbase_rows(events).flatten_alt(),
            local,
        ),
    decreases events.len(),
{
    reveal(Seq::filter);
    if events.len() > 0 {
        let rows = coinbase_rows(events);
        assert(rows.drop_last() == coinbase_rows(events.drop_last()));
        lemma_coinbase_events(events.drop_last(), local);
        let earlier = rows.drop_last().flatten_alt();
        let last = rows.last();
        if events.last().trades is Some {
            lemma_coinbase_written(last, local);
        }
        Seq::filter_distributes_over_add(earlier, last, coinbase_complete());
        let rest = coinbase::all_trades(events.drop_last(), local);
        let more = coinbase::event_trades(events.last(), local);
        let found = coinbase::all_trades(events, local);
        let a = earlier.filter(coinbase_complete());
        let b = last.filter(coinbase_complete());
        let complete = rows.flatten_alt().filter(coinbase_complete());
        assert(complete == a + b);
        assert forall|i: int| 0 <= i < rest.len() implies found[i] == #[trigger] rest[i]
            && complete[i] == a[i] by {}
        assert forall|i: int| 0 <= i < more.len() implies found[rest.len() + i]
            == #[trigger] more[i] && complete[rest.len() + i] == b[i] by {}
        assert forall|i: int| 0 <= i < found.len() implies {
            &&& Some((#[trigger] found[i]).price) == decimal::number_text(complete[i].price@)
            &&& Some(found[i].size) == decimal::number_text(complete[i].size@)
            &&& found[i].exchange_ts == said_time(complete[i].time@, local)
            &&& found[i].local_ts == local
            &&& found[i].exchange == Exchange::Coinbase
        } by {
            if i < rest.len() {
                assert(found[i] == rest[i]);
            } else {
                assert(found[rest.len() + (i - rest.len())] == more[i - rest.len()]);
            }
        }
    }
}

proof fn lemma_coinbase_written(raw: Seq<CoinbaseRawTrade>, local: u64)
    ensures
        coinbase_row(coinbase::written_trades(raw, local), raw, local),
    decreases raw.len(),
{
    reveal(Seq::filter);
    if raw.len() > 0 {
        lemma_coinbase_written(raw.drop_last(), local);
        let rest = coinbase::written_trades(raw.drop_last(), local);
        let found = coinbase::written_trades(raw, local);
        let before = raw.drop_last().filter(coinbase_complete());
        let complete = raw.filter(coinbase_complete());
        assert forall|i: int| 0 <= i < rest.len() implies found[i] == #[trigger] rest[i]
            && complete[i] == before[i] by {}
    }
}

/// A message of Bullish's has one trade where it has the type of one and a price, with that price and
/// its size and time, and none otherwise.
pub proof fn lemma_bullish_keeps_every_trade(message: JsonTree, local: u64)
    ensures
        ({
            let found = bullish::message_trades(message, local);
            let complete = message.text_field("type"@) == Some("trade"@) && message.decimal_field(
                "price"@,
            ) is Some;
            &&& !complete ==> found.len() == 0
            &&& complete ==> {
                &&& found.len() == 1
                &&& Some(found[0].price) == message.decimal_field("price"@)
                &&& message.decimal_field("size"@) is Some ==> Some(found[0].size)
                    == message.decimal_field("size"@)
                &&& message.decimal_field("size"@) is None ==> accuracy::is_whole(found[0].size, 0)
                &&& message.text_field("timestamp"@) is Some ==> found[0].exchange_ts == said_time(
                    message.text_field("timestamp"@)->0,
                    local,
                )
                &&& message.text_field("timestamp"@) is None ==> found[0].exchange_ts == local
                &&& found[0].local_ts == local
                &&& found[0].exchange == Exchange::Bullish
            }
        }),
{
    laws::lemma_whole_exact(0);
}

/// A payload of Bitstamp's has one trade where its price and amount are numbers, with these and the
/// whole milliseconds of its time, and none otherwise.
pub proof fn lemma_bitstamp_keeps_every_trade(data: BitstampData, local: u64)
    ensures
        ({
            let found = bitstamp::payload_trades(data, local);
            let complete = decimal::number_text(data.price@) is Some && decimal::number_text(
                data.amount@,
            ) is Some;
            &&& !complete ==> found.len() == 0
            &&& complete ==> {
                &&& found.len() == 1
                &&& Some(found[0].price) == decimal::number_text(data.price@)
                &&& Some(found[0].size) == decimal::number_text(data.amount@)
                &&& match text::unsigned_text(data.microtimestamp@) {
                    Some(us) => found[0].exchange_ts * 1000 <= us < found[0].exchange_ts * 1000
                        + 1000,
                    None => found[0].exchange_ts == local,
                }
                &&& found[0].local_ts == local
                &&& found[0].exchange == Exchange::Bitstamp
            }
        }),
{
}

/// A ticker of itBit's stands for a trade where it has a last price: at that price, of a hundredth of
/// a coin, at the time at which it came.
pub proof fn lemma_itbit_stands_for_a_trade(ticker: JsonTree, local: u64)
    ensures
        match itbit::ticker_trade(ticker, local) {
            Some(trade) => {
                &&& Some(trade.price) == ticker.decimal_field("lastPrice"@)
                &&& trade.size == Binary64::ratio(1, 100)
                &&& trade.exchange_ts == local
                &&& trade.local_ts == local
                &&& trade.exchange == Exchange::ItBit
            },
            None => ticker.decimal_field("lastPrice"@) is None,
        },
{
}

/// The milliseconds of a moment since the epoch: whole ones, with what is left over dropped.
pub proof fn lemma_moment_in_milliseconds(seconds: i64, nanoseconds: u32)
    requires
        0 <= seconds <= 0x2_0000_0000_0000,
        nanoseconds < 1_000_000_000,
    ensures
        ({
            let ms = timestamps::moment_value((seconds, nanoseconds));
            ms * 1_000_000 <= seconds * 1_000_000_000 + nanoseconds < ms * 1_000_000 + 1_000_000
        }),
{
}

/// A text that says a moment since the epoch is read as its milliseconds, and one that says none leaves
/// the time at which the trade came.
pub proof fn lemma_time_of_a_text(s: Seq<char>, came: u64)
    ensures
        match timestamps::rfc3339_moment(s) {
            Some((seconds, nanoseconds)) => 0 <= seconds <= 0x2_0000_0000_0000 && nanoseconds
                < 1_000_000_000 ==> {
                let ms = timestamps::time_or(s, came);
                ms * 1_000_000 <= seconds * 1_000_000_000 + nanoseconds < ms * 1_000_000
                    + 1_000_000
            },
            None => timestamps::time_or(s, came) == came,
        },
{
    match timestamps::rfc3339_moment(s) {
        Some((seconds, nanoseconds)) => {
            if 0 <= seconds <= 0x2_0000_0000_0000 && nanoseconds < 1_000_000_000 {
                lemma_moment_in_milliseconds(seconds, nanoseconds);
            }
        },
        None => {},
    }
}

/// The latency of a trade is the time from the exchange's clock to the clock here, negative where the
/// exchange's clock is ahead, for clocks less than two to the power of 63 milliseconds apart.
pub proof fn lemma_latency(local_ts: u64, exchange_ts: u64)
    requires
        -0x8000_0000_0000_0000 <= local_ts - exchange_ts < 0x8000_0000_0000_0000,
    ensures
        record::low_signed(local_ts - exchange_ts) == local_ts - exchange_ts,
{
}

/// No two exchanges are recorded under one name.
pub proof fn lemma_exchange_names_differ(a: Exchange, b: Exchange)
    requires
        record::exchange_name(a) == record::exchange_name(b),
    ensures
        a == b,
{
    reveal_strlit("Coinbase");
    reveal_strlit("Kraken");
    reveal_strlit("Bitstamp");
    reveal_strlit("Gemini");
    reveal_strlit("ItBit");
    reveal_strlit("Lmax");
    reveal_strlit("Bullish");
    reveal_strlit("CryptoCom");
    assert("Coinbase"@[0] == 'C' && "Coinbase"@[1] == 'o');
    assert("Kraken"@[0] == 'K' && "Bitstamp"@[0] == 'B' && "Bitstamp"@[1] == 'i');
    assert("Gemini"@[0] == 'G' && "ItBit"@[0] == 'I' && "Lmax"@[0] == 'L');
    assert("Bullish"@[0] == 'B' && "Bullish"@[1] == 'u');
    assert("CryptoCom"@[0] == 'C' && "CryptoCom"@[1] == 'r');
}

/// A feed that keeps failing is tried again after a tenth of a second, then after twice as long each time,
/// up to half a minute; the wait that is slept is within a fifth of that.
pub proof fn lemma_waits_in_milliseconds(failures: nat, factor: Binary64)
    requires
        Binary64::ratio(8, 10).at_most(factor),
        factor.at_most(Binary64::ratio(12, 10)),
    ensures
        ({
            let wait = backoff::wait_after(failures);
            let row = 100 * pow2(failures);
            &&& row <= 30_000 ==> wait == row
            &&& row > 30_000 ==> wait == 30_000
            &&& 4 * wait <= 5 * backoff::scaled(wait, factor) <= 6 * wait
        }),
{
    backoff::lemma_waits_double(failures, factor);
}

} // verus!
