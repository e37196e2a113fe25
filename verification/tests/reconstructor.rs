//! Windows of trades and the index estimate.

use btc_kalshi::numeric::binary64::Binary64;
use btc_kalshi::reconstructor::engine::ReconstructorEngine;
use btc_kalshi::reconstructor::report::{LogDecision, Reporter};
use btc_kalshi::reconstructor::run::Reconstructor;
use btc_kalshi::reconstructor::validator::BrtiValidator;
use btc_kalshi::reconstructor::window::TradeWindow;
use btc_kalshi::types::{BrtiEstimate, Exchange, ReconstructorConfig, Trade};

fn num(x: f64) -> Binary64 {
    Binary64::from_bits(x.to_bits())
}

fn back(x: Binary64) -> f64 {
    f64::from_bits(x.to_bits())
}

fn make_trade(price: f64, size: f64) -> Trade {
    Trade {
        exchange: Exchange::Coinbase,
        price: num(price),
        size: num(size),
        exchange_ts: 1000,
        local_ts: 1000,
    }
}

fn vwmp(w: &TradeWindow) -> Option<f64> {
    w.vwmp().map(back)
}

#[test]
fn vwmp_five_trade_case() {
    // total_size = 5.0, target = 2.5
    // Sorted by price: 100(1.0), 200(1.0), 300(2.0), 400(0.5), 500(0.5)
    // cumulative after 100 = 1.0 < 2.5
    // cumulative after 200 = 2.0 < 2.5
    // cumulative after 300 = 4.0 >= 2.5 → VWMP = 300
    let mut w = TradeWindow::new();
    let window_secs = 60;
    w.push(make_trade(100.0, 1.0), window_secs);
    w.push(make_trade(200.0, 1.0), window_secs);
    w.push(make_trade(300.0, 2.0), window_secs);
    w.push(make_trade(400.0, 0.5), window_secs);
    w.push(make_trade(500.0, 0.5), window_secs);

    assert_eq!(vwmp(&w), Some(300.0));
}

#[test]
fn vwmp_empty_returns_none() {
    let w = TradeWindow::new();
    assert_eq!(vwmp(&w), None);
}

#[test]
fn is_stale_when_empty() {
    let w = TradeWindow::new();
    assert!(w.is_stale(1_000_000, 5000));
}

#[test]
fn is_stale_after_threshold() {
    let mut w = TradeWindow::new();
    w.push(make_trade(100.0, 1.0), 60);
    // last_ts = 1000; now_ms = 7000; delta = 6000 > 5000
    assert!(w.is_stale(7000, 5000));
}

#[test]
fn not_stale_within_threshold() {
    let mut w = TradeWindow::new();
    w.push(make_trade(100.0, 1.0), 60);
    // last_ts = 1000; now_ms = 4000; delta = 3000 < 5000
    assert!(!w.is_stale(4000, 5000));
}

#[test]
fn push_evicts_old_trades() {
    let mut w = TradeWindow::new();
    // Push a trade with local_ts = 0 (very old)
    let old = Trade {
        exchange: Exchange::Coinbase,
        price: num(999.0),
        size: num(1.0),
        exchange_ts: 0,
        local_ts: 0,
    };
    w.push(old, 60);
    assert_eq!(vwmp(&w), Some(999.0));

    // Push a new trade 2 minutes later — old trade falls outside 60s window
    let new = Trade {
        exchange: Exchange::Coinbase,
        price: num(100.0),
        size: num(1.0),
        exchange_ts: 120_000,
        local_ts: 120_000,
    };
    w.push(new, 60);
    // Window: cutoff = 120_000 - 60_000 = 60_000; old.local_ts=0 < 60_000 → evicted
    assert_eq!(vwmp(&w), Some(100.0));
}

#[test]
fn trade_at_the_edge_of_the_window_stays() {
    let mut w = TradeWindow::default();
    let mut early = make_trade(10.0, 5.0);
    early.local_ts = 60_000;
    w.push(early, 60);
    let mut late = make_trade(20.0, 1.0);
    late.local_ts = 120_000;
    w.push(late, 60);
    assert_eq!(vwmp(&w), Some(10.0));
    assert_eq!(w.last_trade_ts(), Some(120_000));
    late.local_ts = 120_001;
    w.push(late, 60);
    assert_eq!(vwmp(&w), Some(20.0));
    assert_eq!(TradeWindow::new().last_trade_ts(), None);
}

#[test]
fn median_is_a_price_of_the_window_whatever_the_order() {
    let mut w = TradeWindow::new();
    for (price, size) in [(300.0, 1.0), (100.0, 1.0), (200.0, 1.0), (100.0, 4.0)] {
        w.push(make_trade(price, size), 60);
    }
    // Half of 7 is 3.5, which the two trades at 100 reach with 5.
    assert_eq!(vwmp(&w), Some(100.0));
    let mut nothing = TradeWindow::new();
    nothing.push(make_trade(7.0, 0.0), 60);
    nothing.push(make_trade(5.0, 0.0), 60);
    assert_eq!(vwmp(&nothing), Some(5.0));
    let mut unknown = TradeWindow::new();
    unknown.push(make_trade(7.0, f64::NAN), 60);
    unknown.push(make_trade(9.0, 1.0), 60);
    assert_eq!(vwmp(&unknown), Some(9.0));
}

fn cfg(min_exchanges: u8) -> ReconstructorConfig {
    ReconstructorConfig {
        window_secs: 60,
        min_exchanges,
        staleness_threshold_ms: 5000,
    }
}

fn trade(exchange: Exchange, price: f64, ts: u64) -> Trade {
    Trade {
        exchange,
        price: num(price),
        size: num(1.0),
        exchange_ts: ts,
        local_ts: ts,
    }
}

#[test]
fn estimate_within_one_dollar_of_mean_vwmp() {
    // Coinbase: 3 trades at 100, 200, 300 (size 1.0 each)
    //   VWMP: total=3.0, target=1.5 → cumulative at 200 = 2.0 >= 1.5 → VWMP=200
    // Kraken:  3 trades at 400, 500, 600 (size 1.0 each)
    //   VWMP: total=3.0, target=1.5 → cumulative at 500 = 2.0 >= 1.5 → VWMP=500
    // Expected mean = (200 + 500) / 2 = 350.0
    let mut engine = ReconstructorEngine::new(cfg(2));
    let ts = 1_000_000_u64;

    for price in [100.0, 200.0, 300.0] {
        engine.ingest(trade(Exchange::Coinbase, price, ts));
    }
    // Inserting the first Kraken trade gives us 2 live exchanges → estimate published
    engine
        .ingest(trade(Exchange::Kraken, 400.0, ts))
        .expect("should have estimate with 2 live exchanges");
    engine.ingest(trade(Exchange::Kraken, 500.0, ts));
    let est = engine
        .ingest(trade(Exchange::Kraken, 600.0, ts))
        .expect("should produce final estimate");

    let expected = 350.0_f64;
    assert!(
        (back(est.value) - expected).abs() < 1.0,
        "estimate {:.2} deviates from expected {:.2} by more than $1",
        back(est.value),
        expected
    );
    assert_eq!(est.exchange_count, 2);
    assert!((back(est.confidence) - 0.25).abs() < f64::EPSILON);
}

#[test]
fn returns_none_below_min_exchanges() {
    let mut engine = ReconstructorEngine::new(cfg(2));
    // Only one exchange has data — should not publish
    let result = engine.ingest(trade(Exchange::Coinbase, 100.0, 1_000_000));
    assert!(result.is_none());
}

#[test]
fn stale_exchange_excluded_from_estimate() {
    let mut engine = ReconstructorEngine::new(cfg(2));
    // Push a Coinbase trade at ts=0 (will be stale when now_ms is large)
    engine.ingest(trade(Exchange::Coinbase, 100.0, 0));
    // Push a Kraken trade at ts=1_000_000 (fresh)
    let result = engine.ingest(trade(Exchange::Kraken, 200.0, 1_000_000));
    // Coinbase last_ts=0, now_ms=1_000_000, delta=1_000_000 > staleness=5000 → stale
    // Only Kraken is live → below min_exchanges=2 → None
    assert!(result.is_none());
}

#[test]
fn all_eight_exchanges_count_and_the_mean_is_in_cents() {
    let mut engine = ReconstructorEngine::new(cfg(1));
    let all = [
        Exchange::Coinbase,
        Exchange::Kraken,
        Exchange::Bitstamp,
        Exchange::Gemini,
        Exchange::ItBit,
        Exchange::Lmax,
        Exchange::Bullish,
        Exchange::CryptoCom,
    ];
    let mut last = None;
    for (i, exchange) in all.iter().enumerate() {
        last = engine.ingest(trade(*exchange, 70_000.0 + i as f64 / 1000.0, 10_000));
        let est = last.expect("one live exchange is enough");
        assert_eq!(est.exchange_count as usize, i + 1);
        assert_eq!(back(est.confidence), (i + 1) as f64 / 8.0);
    }
    // The mean is 70000.0035 dollars: in whole cents, 70000.00.
    let est = last.unwrap();
    assert_eq!(back(est.value), 70_000.0);
    assert_eq!(est.timestamp, 10_000);
}

#[test]
fn no_minimum_and_no_feeds_gives_no_number() {
    // A trade that leaves every window stale: the count is zero, and so is the minimum.
    let mut config = cfg(0);
    config.staleness_threshold_ms = 0;
    let mut engine = ReconstructorEngine::new(config);
    let est = engine.ingest(trade(Exchange::Kraken, 5.0, 7)).expect("no minimum");
    assert_eq!(est.exchange_count, 1);
    assert_eq!(back(est.value), 5.0);
}

#[test]
fn validator_keeps_a_hundred_errors() {
    let mut v = BrtiValidator::new();
    assert_eq!(back(v.mean_absolute_error()), 0.0);
    v.record(num(10.0), None);
    assert_eq!(back(v.mean_absolute_error()), 0.0);
    v.record(num(10.0), Some(num(14.0)));
    v.record(num(10.0), Some(num(8.0)));
    assert_eq!(back(v.mean_absolute_error()), 3.0);
    for _ in 0..100 {
        v.record(num(1.0), Some(num(2.0)));
    }
    assert_eq!(back(v.mean_absolute_error()), 1.0);
    let d = BrtiValidator::default();
    assert_eq!(back(d.mean_absolute_error()), 0.0);
}

#[test]
fn estimates_are_logged_on_a_change_or_after_a_while() {
    let est = |count: u8, confidence: f64| BrtiEstimate {
        value: num(70_000.0),
        timestamp: 5,
        exchange_count: count,
        confidence: num(confidence),
    };
    let mut r = Reporter::new();
    assert_eq!(
        r.observe(&est(2, 0.25), 0),
        LogDecision { log: true, low_confidence: true }
    );
    assert_eq!(
        r.observe(&est(2, 0.25), 99),
        LogDecision { log: false, low_confidence: false }
    );
    assert_eq!(
        r.observe(&est(2, 0.625), 100),
        LogDecision { log: true, low_confidence: false }
    );
    assert_eq!(r.last_exchange_count, 2);
}

#[test]
fn a_trade_leads_to_an_estimate_and_its_record() {
    let mut stage = Reconstructor::new();
    assert!(stage.take(trade(Exchange::Coinbase, 100.0, 1_000), 0).is_none());
    let p = stage.take(trade(Exchange::Kraken, 200.0, 2_000), 0).expect("two feeds");
    assert_eq!(back(p.estimate.value), 150.0);
    assert_eq!(back(p.record.value), 150.0);
    assert_eq!(p.record.timestamp_ms, 2_000);
    assert_eq!(p.record.exchange_count, 2);
    assert_eq!(back(p.record.confidence), 0.25);
    assert!(p.decision.log && p.decision.low_confidence);
}

#[test]
fn median_halves_the_volume() {
    let mut w = TradeWindow::new();
    for (price, size) in [(103.0, 2.0), (101.0, 1.0), (102.0, 4.0), (102.0, 1.0), (104.0, 3.0)] {
        w.push(make_trade(price, size), 60);
    }
    // Below 102 there is 1 of 11, and up to 102 there are 6.
    assert_eq!(vwmp(&w), Some(102.0));
}

#[test]
fn estimate_is_near_the_mean() {
    let mut engine = ReconstructorEngine::new(cfg(3));
    let prices = [70_000.123, 70_001.567, 69_998.891];
    engine.ingest(trade(Exchange::Coinbase, prices[0], 1_000));
    engine.ingest(trade(Exchange::Kraken, prices[1], 1_000));
    let e = engine.ingest(trade(Exchange::Gemini, prices[2], 1_000)).expect("an estimate");
    let mean = (prices[0] + prices[1] + prices[2]) / 3.0;
    assert!((back(e.value) - mean).abs() < 0.0051);
    assert_eq!(back(e.value), 70_000.19);
}

#[test]
fn estimate_of_large_prices_is_near_the_mean() {
    for scale in [1e12, 1e15, 1e100, 1e300] {
        let mut engine = ReconstructorEngine::new(cfg(3));
        let prices = [scale, 1.1 * scale, 1.3 * scale];
        engine.ingest(trade(Exchange::Coinbase, prices[0], 1_000));
        engine.ingest(trade(Exchange::Kraken, prices[1], 1_000));
        let e = engine.ingest(trade(Exchange::Gemini, prices[2], 1_000)).expect("an estimate");
        let sum = prices[0] + prices[1] + prices[2];
        assert_eq!(back(e.value), (sum / 3.0 * 100.0).round() / 100.0);
        let place = f64::from_bits(prices[2].to_bits() + 1) - prices[2];
        assert!((back(e.value) - sum / 3.0).abs() <= 0.005 + 12.0 * place);
    }
}

#[test]
fn estimate_of_the_largest_prices_is_infinite() {
    let mut engine = ReconstructorEngine::new(cfg(1));
    let e = engine.ingest(trade(Exchange::Coinbase, 1.7e308, 1_000)).expect("an estimate");
    assert_eq!(back(e.value), f64::INFINITY);
}
