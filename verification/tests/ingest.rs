//! Exchange messages.

use btc_kalshi::ingest::backoff::{after_poll, jitter, next_backoff, FIRST_BACKOFF_MS, MAX_BACKOFF_MS};
use btc_kalshi::ingest::bitstamp::BitstampData;
use btc_kalshi::ingest::coinbase::{CoinbaseEvent, CoinbaseMsg, CoinbaseRawTrade};
use btc_kalshi::ingest::record::{exchange_str, latency_ms, trade_record};
use btc_kalshi::ingest::timestamps::{moment_ms, parse_rfc3339_ms, parse_time_or};
use btc_kalshi::ingest::{bitstamp, bullish, coinbase, cryptocom, gemini, itbit, kraken};
use btc_kalshi::json;
use btc_kalshi::json::JsonError;
use btc_kalshi::numeric::binary64::Binary64;
use btc_kalshi::types::{Exchange, Trade};
use serde_json::Value;

fn num(x: f64) -> Binary64 {
    Binary64::from_bits(x.to_bits())
}

fn back(x: Binary64) -> f64 {
    f64::from_bits(x.to_bits())
}

fn now() -> u64 {
    btc_kalshi::clock::local_ts_ms()
}

fn field(v: &Value, key: &str) -> String {
    v[key].as_str().expect("text").to_string()
}

/// A Coinbase message as the feed reads it.
fn coinbase_message(raw: &str) -> Result<CoinbaseMsg, serde_json::Error> {
    let v: Value = serde_json::from_str(raw)?;
    Ok(CoinbaseMsg {
        channel: v["channel"].as_str().map(|s| s.to_string()),
        events: v["events"].as_array().map(|events| {
            events
                .iter()
                .map(|e| CoinbaseEvent {
                    trades: e["trades"].as_array().map(|trades| {
                        trades
                            .iter()
                            .map(|t| CoinbaseRawTrade {
                                price: field(t, "price"),
                                size: field(t, "size"),
                                time: field(t, "time"),
                            })
                            .collect()
                    }),
                })
                .collect()
        }),
    })
}

fn coinbase_normalize(raw: &str) -> Result<Vec<Trade>, serde_json::Error> {
    let message = coinbase_message(raw)?;
    Ok(coinbase::normalize(&message, now()))
}

/// A Bitstamp message as the feed reads it.
fn bitstamp_normalize(raw: &str) -> Result<Vec<Trade>, serde_json::Error> {
    let v: Value = serde_json::from_str(raw)?;
    if !bitstamp::has_trade(&field(&v, "event")) {
        return Ok(vec![]);
    }
    let data = BitstampData {
        microtimestamp: field(&v["data"], "microtimestamp"),
        amount: field(&v["data"], "amount_str"),
        price: field(&v["data"], "price_str"),
    };
    Ok(bitstamp::normalize(&data, now()))
}

#[test]
fn parses_bitstamp_trade_message() {
    // Real Bitstamp WS live_trades format
    let raw = r#"{
            "event": "trade",
            "channel": "live_trades_btcusd",
            "data": {
                "id": 123456789,
                "timestamp": "1705319696",
                "microtimestamp": "1705319696789000",
                "amount": 0.12345,
                "amount_str": "0.12345000",
                "price": 43210.5,
                "price_str": "43210.50",
                "type": 0,
                "buy_order_id": 100,
                "sell_order_id": 200
            }
        }"#;

    let trades = bitstamp_normalize(raw).expect("should parse");
    assert_eq!(trades.len(), 1);
    let t = &trades[0];
    assert_eq!(t.exchange, Exchange::Bitstamp);
    assert!((back(t.price) - 43210.5).abs() < f64::EPSILON);
    assert!((back(t.size) - 0.12345).abs() < 1e-9);
    // microtimestamp 1705319696789000 us → 1705319696789 ms
    assert_eq!(t.exchange_ts, 1_705_319_696_789);
    assert!(t.local_ts > 0);
}

#[test]
fn ignores_non_trade_events() {
    let raw = r#"{"event":"bts:subscription_succeeded","channel":"live_trades_btcusd","data":{}}"#;
    let trades = bitstamp_normalize(raw).expect("should parse");
    assert!(trades.is_empty());
}

#[test]
fn bitstamp_payload_edges() {
    let data = |price: &str, amount: &str, micros: &str| BitstampData {
        microtimestamp: micros.to_string(),
        amount: amount.to_string(),
        price: price.to_string(),
    };
    assert!(bitstamp::normalize(&data("x", "1", "1"), 5).is_empty());
    assert!(bitstamp::normalize(&data("1", "", "1"), 5).is_empty());
    let trades = bitstamp::normalize(&data("1.5", "2e3", "soon"), 5);
    assert_eq!(
        trades,
        vec![Trade {
            exchange: Exchange::Bitstamp,
            price: num(1.5),
            size: num(2000.0),
            exchange_ts: 5,
            local_ts: 5,
        }]
    );
    assert_eq!(bitstamp::normalize(&data("1", "1", "1999"), 5)[0].exchange_ts, 1);
}

#[test]
fn parses_bullish_trade_message() {
    let raw = r#"{"type":"trade","price":"69800.00","size":"0.001","timestamp":"2026-04-08T02:00:00.000Z"}"#;
    let trades = bullish::normalize(raw).expect("should parse");
    assert_eq!(trades.len(), 1);
    let t = &trades[0];
    assert_eq!(t.exchange, Exchange::Bullish);
    assert!((back(t.price) - 69800.0).abs() < f64::EPSILON);
    assert!((back(t.size) - 0.001).abs() < 1e-9);
    assert_eq!(t.exchange_ts, 1_775_613_600_000);
    assert!(t.local_ts > 0);
}

#[test]
fn silently_skips_non_trade_messages() {
    let raw = r#"{"type":"subscribed","channel":"trades","symbol":"BTCUSDC"}"#;
    let trades = bullish::normalize(raw).expect("should parse without error");
    assert!(trades.is_empty());
}

#[test]
fn handles_missing_size_gracefully() {
    let raw = r#"{"type":"trade","price":"69800.00","timestamp":"2026-04-08T02:00:00.000Z"}"#;
    let trades = bullish::normalize(raw).expect("should parse");
    assert_eq!(trades.len(), 1);
    assert!((back(trades[0].size) - 0.0).abs() < f64::EPSILON);
}

#[test]
fn returns_empty_for_missing_price() {
    let raw = r#"{"type":"trade","size":"0.001","timestamp":"2026-04-08T02:00:00.000Z"}"#;
    let trades = bullish::normalize(raw).expect("should parse");
    assert!(trades.is_empty());
}

#[test]
fn bullish_time_falls_back_to_receipt() {
    let m = json::parse(r#"{"type":"trade","price":"1","timestamp":"yesterday"}"#).unwrap();
    assert_eq!(bullish::trades(&m, 42)[0].exchange_ts, 42);
    let m = json::parse(r#"{"type":"trade","price":"1","timestamp":7}"#).unwrap();
    assert_eq!(bullish::trades(&m, 43)[0].exchange_ts, 43);
    assert_eq!(bullish::normalize("{"), Err(JsonError::Malformed));
}

#[test]
fn parses_coinbase_trade_message() {
    let raw = r#"{
            "channel": "market_trades",
            "events": [
                {
                    "type": "update",
                    "trades": [
                        {
                            "trade_id": "...",
                            "product_id": "BTC-USD",
                            "price": "69800.00",
                            "size": "0.001",
                            "side": "BUY",
                            "time": "2026-04-06T21:00:00.000000Z"
                        }
                    ]
                }
            ]
        }"#;

    let trades = coinbase_normalize(raw).expect("should parse");
    assert_eq!(trades.len(), 1);
    let t = &trades[0];
    assert_eq!(t.exchange, Exchange::Coinbase);
    assert!((back(t.price) - 69800.0).abs() < f64::EPSILON);
    assert!((back(t.size) - 0.001).abs() < 1e-9);
    assert!(t.exchange_ts > 0);
    assert!(t.local_ts > 0);
}

#[test]
fn coinbase_multiple_trades_in_one_message() {
    let raw = r#"{
            "channel": "market_trades",
            "events": [
                {
                    "type": "update",
                    "trades": [
                        {"trade_id": "1", "product_id": "BTC-USD", "price": "69800.00", "size": "0.001", "side": "BUY", "time": "2026-04-06T21:00:00.000000Z"},
                        {"trade_id": "2", "product_id": "BTC-USD", "price": "69801.00", "size": "0.002", "side": "SELL", "time": "2026-04-06T21:00:00.001000Z"}
                    ]
                }
            ]
        }"#;

    let trades = coinbase_normalize(raw).expect("should parse");
    assert_eq!(trades.len(), 2);
    assert_eq!(trades[1].exchange_ts - trades[0].exchange_ts, 1);
}

#[test]
fn silently_skips_non_market_trades_messages() {
    // Subscription ack — no `channel` field at all
    let raw = r#"{"type":"subscriptions","channels":[]}"#;
    let trades = coinbase_normalize(raw).expect("should parse without error");
    assert!(trades.is_empty());
}

#[test]
fn coinbase_bad_numbers_cost_only_their_own_trade() {
    let raw_trade = |price: &str, size: &str| CoinbaseRawTrade {
        price: price.to_string(),
        size: size.to_string(),
        time: "never".to_string(),
    };
    let message = CoinbaseMsg {
        channel: Some("market_trades".to_string()),
        events: Some(vec![
            CoinbaseEvent { trades: None },
            CoinbaseEvent { trades: Some(vec![raw_trade("x", "1"), raw_trade("3", "1")]) },
            CoinbaseEvent { trades: Some(vec![raw_trade("4", "y"), raw_trade("5", "2")]) },
        ]),
    };
    let prices: Vec<f64> =
        coinbase::normalize(&message, 9).iter().map(|t| back(t.price)).collect();
    assert_eq!(prices, vec![3.0, 5.0]);
    assert_eq!(coinbase::normalize(&message, 9)[1].exchange_ts, 9);
    let other = CoinbaseMsg { channel: Some("heartbeats".to_string()), events: message.events };
    assert!(coinbase::normalize(&other, 9).is_empty());
    let bare = CoinbaseMsg { channel: Some("market_trades".to_string()), events: None };
    assert!(coinbase::normalize(&bare, 9).is_empty());
}

#[test]
fn parses_cryptocom_trade_message() {
    let raw = r#"{
            "id": -1,
            "method": "subscribe",
            "result": {
                "channel": "trade.BTC_USD",
                "data": [
                    {"p": "69800.00", "q": "0.001", "t": 1712534400000, "s": "BUY", "d": 123}
                ]
            }
        }"#;
    let trades = cryptocom::normalize(raw).expect("should parse");
    assert_eq!(trades.len(), 1);
    let t = &trades[0];
    assert_eq!(t.exchange, Exchange::CryptoCom);
    assert!((back(t.price) - 69800.0).abs() < f64::EPSILON);
    assert!((back(t.size) - 0.001).abs() < 1e-9);
    assert_eq!(t.exchange_ts, 1_712_534_400_000);
    assert!(t.local_ts > 0);
}

#[test]
fn cryptocom_multiple_trades_in_one_message() {
    let raw = r#"{
            "id": -1,
            "method": "subscribe",
            "result": {
                "channel": "trade.BTC_USD",
                "data": [
                    {"p": "69800.00", "q": "0.001", "t": 1712534400000, "s": "BUY", "d": 1},
                    {"p": "69801.00", "q": "0.002", "t": 1712534400001, "s": "SELL", "d": 2}
                ]
            }
        }"#;
    let trades = cryptocom::normalize(raw).expect("should parse");
    assert_eq!(trades.len(), 2);
}

#[test]
fn silently_skips_non_subscribe_messages() {
    // Subscription ack or heartbeat
    let raw = r#"{"id":1,"method":"subscribe","code":0}"#;
    let trades = cryptocom::normalize(raw).expect("should parse without error");
    assert!(trades.is_empty());
}

#[test]
fn silently_skips_missing_result_data() {
    let raw = r#"{"id":-1,"method":"subscribe","result":{"channel":"trade.BTC_USD"}}"#;
    let trades = cryptocom::normalize(raw).expect("should parse without error");
    assert!(trades.is_empty());
}

#[test]
fn skips_entry_with_missing_price() {
    let raw = r#"{
            "id": -1,
            "method": "subscribe",
            "result": {
                "channel": "trade.BTC_USD",
                "data": [{"q": "0.001", "t": 1712534400000}]
            }
        }"#;
    let trades = cryptocom::normalize(raw).expect("should parse");
    assert!(trades.is_empty());
}

#[test]
fn cryptocom_missing_size_and_time() {
    let m = json::parse(
        r#"{"method":"subscribe","result":{"data":[{"p":"2"},{"p":"3","q":1,"t":-4}]}}"#,
    )
    .unwrap();
    let trades = cryptocom::trades(&m, 11);
    assert_eq!(trades.len(), 2);
    assert_eq!(back(trades[0].size), 0.0);
    assert_eq!(trades[0].exchange_ts, 11);
    assert_eq!(back(trades[1].size), 0.0);
    assert_eq!(trades[1].exchange_ts, 11);
    assert_eq!(cryptocom::normalize("nope"), Err(JsonError::Malformed));
    let other = json::parse(r#"{"method":"public/heartbeat"}"#).unwrap();
    assert!(cryptocom::trades(&other, 11).is_empty());
}

#[test]
fn parses_gemini_trade_message() {
    let raw = r#"{
            "type": "update",
            "eventId": 123,
            "timestampms": 1775509255000,
            "events": [
                {
                    "type": "trade",
                    "tid": 456,
                    "price": "69800.00",
                    "amount": "0.001",
                    "makerSide": "bid"
                }
            ]
        }"#;

    let trades = gemini::normalize(raw).expect("should parse");
    assert_eq!(trades.len(), 1);
    let t = &trades[0];
    assert_eq!(t.exchange, Exchange::Gemini);
    assert!((back(t.price) - 69800.0).abs() < f64::EPSILON);
    assert!((back(t.size) - 0.001).abs() < 1e-9);
    assert_eq!(t.exchange_ts, 1_775_509_255_000);
    assert!(t.local_ts > 0);
}

#[test]
fn skips_non_trade_events_individually() {
    // Each non-trade entry is skipped; the trade entry is still emitted.
    // A change event with unexpected fields must not abort the whole events array.
    let raw = r#"{
            "type": "update",
            "eventId": 124,
            "timestampms": 1775509255001,
            "events": [
                {"type": "change", "side": "bid", "price": "69799.00", "remaining": "1.5", "delta": "0.5", "reason": "place"},
                {"type": "trade", "tid": 457, "price": "69800.00", "amount": "0.002", "makerSide": "ask"},
                {"type": "change", "side": "ask", "price": "69801.00", "remaining": "0.5", "delta": "-0.5", "reason": "cancel"}
            ]
        }"#;

    let trades = gemini::normalize(raw).expect("should parse");
    assert_eq!(trades.len(), 1);
    assert!((back(trades[0].size) - 0.002).abs() < 1e-9);
}

#[test]
fn gemini_silently_skips_heartbeat() {
    let raw = r#"{"type":"heartbeat","timestampms":1775509255000,"sequence":1,"trace_id":"abc","socket_sequence":1}"#;
    let trades = gemini::normalize(raw).expect("should parse without error");
    assert!(trades.is_empty());
}

#[test]
fn silently_skips_update_with_no_trades() {
    let raw = r#"{"type":"update","eventId":125,"timestampms":1775509255002,"events":[]}"#;
    let trades = gemini::normalize(raw).expect("should parse without error");
    assert!(trades.is_empty());
}

#[test]
fn gemini_time_and_broken_entries() {
    let m = json::parse(
        r#"{"events":[{"type":"trade","price":1,"amount":"1"},{"type":"trade","price":"1","amount":"?"},{"type":"trade","price":"2","amount":"3"},{"type":"trade","price":"2"}]}"#,
    )
    .unwrap();
    let trades = gemini::trades(&m, 8);
    assert_eq!(trades.len(), 1);
    assert_eq!(trades[0].exchange_ts, 8);
    assert_eq!(trades[0].local_ts, 8);
    assert_eq!(gemini::normalize(""), Err(JsonError::Malformed));
}

#[test]
fn parses_itbit_ticker_response() {
    // Real itBit REST ticker shape
    let raw = r#"{
            "pair": "XBTUSD",
            "bid": "69750.00",
            "bidAmt": "0.10000000",
            "ask": "69800.00",
            "askAmt": "0.20000000",
            "lastPrice": "69775.00",
            "lastAmt": "0.01000000",
            "volume24h": "123.45678900",
            "volumeToday": "45.12345600",
            "high24h": "70000.00",
            "low24h": "69500.00",
            "highToday": "69900.00",
            "lowToday": "69600.00",
            "openToday": "69700.00",
            "vwapToday": "69750.00",
            "vwap24h": "69760.00",
            "serverTimeUTC": "2026-04-07T00:00:00.000Z"
        }"#;

    let trade = itbit::normalize(raw).expect("should parse");
    assert_eq!(trade.exchange, Exchange::ItBit);
    assert!((back(trade.price) - 69775.0).abs() < f64::EPSILON);
    assert!((back(trade.size) - 0.01).abs() < f64::EPSILON);
    assert!(trade.local_ts > 0);
    assert_eq!(trade.exchange_ts, trade.local_ts);
}

#[test]
fn returns_none_for_missing_last_price() {
    let raw = r#"{"pair":"XBTUSD","bid":"69750.00"}"#;
    assert!(itbit::normalize(raw).is_none());
}

#[test]
fn returns_none_for_invalid_json() {
    assert!(itbit::normalize("not json").is_none());
}

#[test]
fn parses_kraken_trade_message() {
    let raw = r#"{
            "channel": "trade",
            "type": "update",
            "data": [
                {
                    "symbol": "BTC/USD",
                    "price": 69800.12,
                    "qty": 0.001,
                    "timestamp": "2026-04-06T21:00:00.000000Z",
                    "side": "buy",
                    "ord_type": "market"
                }
            ]
        }"#;

    let trades = kraken::normalize(raw).expect("should parse");
    assert_eq!(trades.len(), 1);
    let t = &trades[0];
    assert_eq!(t.exchange, Exchange::Kraken);
    assert!((back(t.price) - 69800.12).abs() < f64::EPSILON);
    assert!((back(t.size) - 0.001).abs() < 1e-9);
    assert!(t.exchange_ts > 0);
    assert!(t.local_ts > 0);
}

#[test]
fn silently_skips_no_channel_system_message() {
    // Kraken sends these on connect — no "channel" key at all
    let raw = r#"{"method":"subscribe","result":{"channel":"trade","symbol":"XBT/USD"},"success":true,"time_in":"2026-04-06T21:00:00.000000Z","time_out":"2026-04-06T21:00:00.001000Z"}"#;
    let trades = kraken::normalize(raw).expect("should parse without error");
    assert!(trades.is_empty());
}

#[test]
fn kraken_silently_skips_heartbeat() {
    let raw = r#"{"channel":"heartbeat","type":"heartbeat"}"#;
    let trades = kraken::normalize(raw).expect("should parse without error");
    assert!(trades.is_empty());
}

#[test]
fn silently_skips_status() {
    // Status data contains non-trade objects with completely different fields
    let raw = r#"{"channel":"status","type":"update","data":[{"api_version":"2.0.0","connection_id":"abc","system":"online","version":"2.0.0"}]}"#;
    let trades = kraken::normalize(raw).expect("should parse without error");
    assert!(trades.is_empty());
}

#[test]
fn silently_skips_snapshot() {
    let raw = r#"{"channel":"trade","type":"snapshot","data":[]}"#;
    let trades = kraken::normalize(raw).expect("should parse without error");
    assert!(trades.is_empty());
}

#[test]
fn kraken_numbers_may_be_whole_and_entries_incomplete() {
    let m = json::parse(
        r#"{"channel":"trade","type":"update","data":[
            {"price":5,"qty":-1,"timestamp":"x"},
            {"price":"5","qty":1,"timestamp":"x"},
            {"price":5,"timestamp":"x"},
            {"price":5,"qty":1}
        ]}"#,
    )
    .unwrap();
    let trades = kraken::trades(&m, 3);
    assert_eq!(
        trades,
        vec![Trade {
            exchange: Exchange::Kraken,
            price: num(5.0),
            size: num(-1.0),
            exchange_ts: 3,
            local_ts: 3,
        }]
    );
    assert_eq!(kraken::normalize("]"), Err(JsonError::Malformed));
}

#[test]
fn moments_are_read_to_the_millisecond() {
    assert_eq!(parse_rfc3339_ms("1970-01-01T00:00:01.234567Z"), Some(1_234));
    assert_eq!(parse_rfc3339_ms("2026-04-06T21:00:00+02:00"), Some(1_775_502_000_000));
    assert_eq!(parse_rfc3339_ms("2026-04-06"), None);
    assert_eq!(parse_time_or("2026-04-06", 5), 5);
    assert_eq!(moment_ms((2, 999_999_999)), 2_999);
    // Before the epoch the count wraps.
    assert_eq!(moment_ms((-1, 0)), u64::MAX - 999);
}

#[test]
fn backoff_doubles_up_to_its_cap() {
    let mut wait = FIRST_BACKOFF_MS;
    let mut seen = vec![];
    for _ in 0..10 {
        seen.push(wait);
        wait = next_backoff(wait);
    }
    assert_eq!(seen, vec![100, 200, 400, 800, 1600, 3200, 6400, 12800, 25600, 30000]);
    assert_eq!(wait, MAX_BACKOFF_MS);
    assert_eq!(jitter(100, num(0.8)), 80);
    assert_eq!(jitter(100, num(1.2)), 120);
    assert_eq!(jitter(30_000, num(1.2)), 36_000);
    assert_eq!(jitter(333, num(1.0)), 333);
    assert_eq!(jitter(333, num(0.9)), (333.0_f64 * 0.9) as u64);
}

#[test]
fn trades_are_recorded_with_their_latency() {
    let trade = Trade {
        exchange: Exchange::Gemini,
        price: num(1.5),
        size: num(2.5),
        exchange_ts: 1_000,
        local_ts: 990,
    };
    let r = trade_record(&trade);
    assert_eq!(r.latency_ms, -10);
    assert_eq!(r.exchange, "Gemini");
    assert_eq!(r.timestamp_ms, 990);
    assert_eq!(latency_ms(5, 2), 3);
    assert_eq!(latency_ms(0, u64::MAX), 1);
    let names: Vec<&str> = [
        Exchange::Coinbase,
        Exchange::Kraken,
        Exchange::Bitstamp,
        Exchange::Gemini,
        Exchange::ItBit,
        Exchange::Lmax,
        Exchange::Bullish,
        Exchange::CryptoCom,
    ]
    .iter()
    .map(|e| exchange_str(*e))
    .collect();
    assert_eq!(
        names,
        vec!["Coinbase", "Kraken", "Bitstamp", "Gemini", "ItBit", "Lmax", "Bullish", "CryptoCom"]
    );
}

#[test]
fn waits_stay_within_a_fifth() {
    let mut wait = FIRST_BACKOFF_MS;
    for k in 0..12u32 {
        assert_eq!(wait, (100u64 << k).min(30_000));
        assert_eq!(jitter(wait, num(0.8)), wait / 5 * 4);
        for f in [0.8, 0.83, 0.95, 1.0, 1.11, 1.2] {
            let d = jitter(wait, num(f));
            assert!(4 * wait <= 5 * d && 5 * d <= 6 * wait);
        }
        wait = next_backoff(wait);
    }
}

#[test]
fn a_good_poll_starts_the_waits_over() {
    assert_eq!(after_poll(true, 25_600), 100);
    assert_eq!(after_poll(false, 25_600), 30_000);
    assert_eq!(after_poll(false, 100), 200);
}
