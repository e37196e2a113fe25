//! The signal engine and the comparison.

use btc_kalshi::clock::local_ts_ms;
use btc_kalshi::numeric::binary64::Binary64;
use btc_kalshi::signal::compare::{lead_lag_verdict, CompareTracker, LeadLag};
use btc_kalshi::signal::engine::{is_in_scope, same_direction, SignalEngine as Engine};
use btc_kalshi::signal::report::{
    direction_str, enabled_by, markets_stale, opportunity_record, trading_enabled,
};
use btc_kalshi::signal::run::SignalStage;
use btc_kalshi::types::{BrtiEstimate, Direction, KalshiMarket, TradeOpportunity, TradeSide};

fn num(x: f64) -> Binary64 {
    Binary64::from_bits(x.to_bits())
}

fn back(x: Binary64) -> f64 {
    f64::from_bits(x.to_bits())
}

fn exp(x: Binary64) -> Binary64 {
    num(back(x).exp())
}

fn est(value: f64, ts: u64) -> BrtiEstimate {
    BrtiEstimate {
        value: num(value),
        timestamp: ts,
        exchange_count: 4,
        confidence: num(1.0),
    }
}

fn far_future_ms() -> u64 {
    // Year 2100 in ms — guaranteed to be in the future
    4_102_444_800_000
}

fn make_market(ticker: &str, yes_price: f64, no_price: f64, strike: f64) -> KalshiMarket {
    let now_ms = local_ts_ms();
    KalshiMarket {
        ticker: ticker.to_string(),
        yes_price: num(yes_price),
        no_price: num(no_price),
        strike: num(strike),
        open_time: now_ms.saturating_sub(60_000),
        closes_at: far_future_ms(),
        synthetic: false,
    }
}

struct SignalEngine {
    engine: Engine,
    markets: Vec<KalshiMarket>,
}

impl SignalEngine {
    fn new(markets: Vec<KalshiMarket>) -> Self {
        SignalEngine { engine: Engine::new(), markets }
    }

    fn ingest(&mut self, estimate: BrtiEstimate) -> Vec<TradeOpportunity> {
        self.engine.ingest(estimate, &self.markets, local_ts_ms(), exp)
    }
}

#[test]
fn no_opportunities_when_direction_neutral() {
    let mut engine =
        SignalEngine::new(vec![make_market("KXBTC15M-TEST", 50.0, 50.0, 70_000.0)]);
    // Only one sample — delta detector has no direction yet
    let opps = engine.ingest(est(70_000.0, 1_000_000));
    assert!(opps.is_empty());
}

#[test]
fn requires_two_consecutive_confirms_before_emitting() {
    // Market near 70_000 strike; BRTI climbs from 70_000 → 70_030 (within $30 of strike).
    let mut engine = SignalEngine::new(vec![make_market("KXBTC15M-A", 30.0, 70.0, 70_000.0)]);

    // Prime with first sample (still neutral).
    let first = engine.ingest(est(70_000.0, 0));
    assert!(first.is_empty());

    // First non-neutral tick: confirm count = 1, should still be blocked.
    let second = engine.ingest(est(70_020.0, 1_000));
    assert!(
        second.is_empty(),
        "first non-neutral confirm should be blocked"
    );

    // Second same-direction tick: confirm count = 2, should now emit.
    let third = engine.ingest(est(70_025.0, 2_000));
    assert!(
        !third.is_empty(),
        "expected opportunity after persistence gate"
    );
}

#[test]
fn opportunity_generated_when_edge_cleared() {
    // yes_price=15¢ → implied_prob=0.15; logistic model gives ~0.25 at distance=$10,
    // vel=0 (spike window has no data 50s after the pump) → edge ≈ 0.10 > min_edge=0.05
    let mut engine = SignalEngine::new(vec![make_market("KXBTC15M-A", 15.0, 85.0, 70_000.0)]);

    // Pump 10 estimates near 70_000 strike to establish Up direction.
    // BRTI moves $2/s from 69_990 → 70_008 (all within $30 of strike=70_000).
    for i in 0..10u64 {
        engine.ingest(est(69_990.0 + i as f64 * 2.0, i * 1_000));
    }
    // Final call at 50s (>30s past any cooldown set during pump): BRTI at 70_010.
    let opps = engine.ingest(est(70_010.0, 50_000));
    assert!(!opps.is_empty(), "expected at least one opportunity");
    let opp = &opps[0];
    assert!(
        back(opp.edge) >= 0.05,
        "edge {:.3} should be >= min_edge 0.05",
        back(opp.edge)
    );
    assert!(back(opp.kelly_fraction) >= 0.0);
}

#[test]
fn second_opportunity_for_same_ticker_is_suppressed() {
    let mut engine = SignalEngine::new(vec![make_market("KXBTC15M-A", 15.0, 85.0, 70_000.0)]);

    // Pump establishes direction near strike.
    for i in 0..10u64 {
        engine.ingest(est(69_990.0 + i as f64 * 2.0, i * 1_000));
    }

    // First explicit call at 50s — past the pump cooldown window, should fire.
    let opps1 = engine.ingest(est(70_010.0, 50_000));
    assert!(
        !opps1.is_empty(),
        "first call should produce an opportunity"
    );

    // Second call 1ms later — within the 30s cooldown, should be suppressed.
    let opps2 = engine.ingest(est(70_012.0, 50_001));
    assert!(
        opps2.is_empty(),
        "second call within cooldown window should be suppressed"
    );
}

#[test]
fn market_expiring_within_5_minutes_is_skipped() {
    let now_ms = local_ts_ms();
    let mut engine = SignalEngine::new(vec![KalshiMarket {
        ticker: "EXPIRING".to_string(),
        yes_price: num(10.0),
        no_price: num(90.0),
        strike: num(70_000.0),
        open_time: now_ms.saturating_sub(60_000),
        closes_at: now_ms + 30_000, // closes in 30s — should be skipped
        synthetic: false,
    }]);
    for i in 0..11u64 {
        engine.ingest(est(69_990.0 + i as f64 * 2.0, i * 1_000));
    }
    let opps = engine.ingest(est(70_012.0, 11_000));
    assert!(opps.is_empty(), "expiring market should be skipped");
}

#[test]
fn conflicting_signals_produce_no_opportunity() {
    // spike=Up + delta=Down → Neutral → no trade
    // Use a market near the strike so the distance filter isn't the reason for no trade.
    let mut engine = SignalEngine::new(vec![make_market("KXBTC15M-B", 30.0, 70.0, 70_000.0)]);

    // Pump down hard (-$3/step over 20 steps at 60s intervals) so the 20-sample
    // delta buffer shows a strong downward trend that survives a single Up spike.
    // 70_060 → 70_003 = -$57 total, delta_pct ≈ -0.081% >> threshold.
    for i in 0..20u64 {
        engine.ingest(est(70_060.0 - i as f64 * 3.0, i * 60_000));
    }

    // At base_ts (large gap — all pump samples evicted from 30s spike window).
    // Push one stable sample then a +$20 Up spike in 5s.
    // spike: +$20 > up_threshold=$15 → Up
    // delta buffer: oldest≈70_057 newest≈70_020 → still strongly Down
    // Conflicting → Neutral → no opportunities
    let base_ts = 20 * 60_000;
    engine.ingest(est(70_003.0, base_ts));
    let opps = engine.ingest(est(70_023.0, base_ts + 5_000));
    assert!(
        opps.is_empty(),
        "conflicting spike/delta signals should produce no opportunity"
    );
    assert_eq!(*engine.engine.last_direction(), Direction::Neutral);
}

/// An engine that has confirmed a rise, and an estimate to act on.
fn rising() -> (Engine, BrtiEstimate) {
    let mut engine = Engine::new();
    let none: Vec<KalshiMarket> = vec![];
    engine.ingest(est(70_000.0, 0), &none, 1_000_000, exp);
    engine.ingest(est(70_020.0, 1_000), &none, 1_000_000, exp);
    (engine, est(70_025.0, 2_000))
}

fn market_at(ticker: &str, yes: f64, no: f64, strike: f64, closes_at: u64) -> KalshiMarket {
    KalshiMarket {
        ticker: ticker.to_string(),
        yes_price: num(yes),
        no_price: num(no),
        strike: num(strike),
        open_time: 0,
        closes_at,
        synthetic: false,
    }
}

#[test]
fn opportunity_carries_the_model_numbers() {
    let (mut engine, estimate) = rising();
    let markets = vec![market_at("T", 30.0, 70.0, 70_000.0, 1_600_000)];
    let opps = engine.ingest(estimate, &markets, 1_000_000, exp);
    assert_eq!(opps.len(), 1);
    let z = 1.261386 + 0.082579 * 25.0 + -0.001716 * 600.0 + 0.098562 * 25.0;
    let p = (1.0 / (1.0 + f64::exp(-z)) * (0.7 + 1.0 * 0.3)).clamp(0.05, 0.95);
    assert_eq!(back(opps[0].signal.confidence), p);
    assert_eq!(back(opps[0].edge), p - 30.0 / 100.0);
    let odds = (100.0 - 30.0) / 30.0;
    let kelly = ((p * odds - (1.0 - p)) / odds * 0.25).max(0.0);
    assert_eq!(back(opps[0].kelly_fraction), kelly);
    assert_eq!(opps[0].side, TradeSide::Yes);
    assert_eq!(opps[0].signal.direction, Direction::Up);
    assert_eq!(opps[0].signal.generated_at, 1_000_000);
    assert_eq!(back(engine.last_model_prob()), p);
    assert_eq!(back(engine.last_velocity()), 25.0);
    assert_eq!(back(engine.last_delta_pct()), (70_025.0 - 70_000.0) / 70_000.0 * 100.0);
}

#[test]
fn falling_index_bets_on_no() {
    let mut engine = Engine::new();
    let markets = vec![market_at("T", 90.0, 10.0, 70_000.0, 1_600_000)];
    engine.ingest(est(70_020.0, 0), &markets, 1_000_000, exp);
    engine.ingest(est(70_005.0, 40_000), &markets, 1_000_000, exp);
    let opps = engine.ingest(est(69_990.0, 80_000), &markets, 1_000_000, exp);
    assert_eq!(opps.len(), 1);
    let z = 1.261386 + 0.082579 * -10.0 + -0.001716 * 600.0 + 0.098562 * 0.0;
    let yes = (1.0 / (1.0 + f64::exp(-z)) * (0.7 + 1.0 * 0.3)).clamp(0.05, 0.95);
    assert_eq!(back(opps[0].signal.confidence), 1.0 - yes);
    assert_eq!(opps[0].side, TradeSide::No);
    assert_eq!(opps[0].signal.direction, Direction::Down);
}

#[test]
fn one_opportunity_for_a_ticker_from_one_estimate() {
    let (mut engine, estimate) = rising();
    let markets = vec![
        market_at("T", 30.0, 70.0, 70_000.0, 1_600_000),
        market_at("T", 20.0, 80.0, 70_000.0, 1_600_000),
        market_at("U", 20.0, 80.0, 70_000.0, 1_600_000),
    ];
    let opps = engine.ingest(estimate, &markets, 1_000_000, exp);
    assert_eq!(opps.len(), 2);
    assert_eq!(opps[0].market.ticker, "T");
    assert_eq!(opps[1].market.ticker, "U");
    assert!(engine.ingest(est(70_026.0, 31_999), &markets, 1_000_000, exp).is_empty());
    assert_eq!(engine.ingest(est(70_027.0, 32_000), &markets, 1_000_000, exp).len(), 2);
}

#[test]
fn markets_out_of_scope_are_skipped() {
    let estimate = est(70_000.0, 0);
    let now = 1_000_000;
    assert!(is_in_scope(&market_at("T", 30.0, 70.0, 70_000.0, 1_300_000), &estimate, now));
    assert!(!is_in_scope(&market_at("T", 30.0, 70.0, 70_000.0, 1_299_999), &estimate, now));
    assert!(!is_in_scope(&market_at("T", 30.0, 70.0, 70_000.0, 5), &estimate, now));
    assert!(!is_in_scope(&market_at("T", 0.0, 70.0, 70_000.0, 1_300_000), &estimate, now));
    assert!(!is_in_scope(&market_at("T", 30.0, -0.0, 70_000.0, 1_300_000), &estimate, now));
    assert!(is_in_scope(&market_at("T", 30.0, 70.0, 70_030.0, 1_300_000), &estimate, now));
    assert!(!is_in_scope(&market_at("T", 30.0, 70.0, 69_969.5, 1_300_000), &estimate, now));
}

#[test]
fn a_price_of_a_dollar_takes_the_turn_but_gives_nothing() {
    let (mut engine, estimate) = rising();
    // A negative price leaves a large edge, but nothing can be bought at it.
    let markets = vec![market_at("T", -5.0, 70.0, 70_000.0, 1_600_000)];
    assert!(engine.ingest(estimate, &markets, 1_000_000, exp).is_empty());
    let later = vec![market_at("T", 30.0, 70.0, 70_000.0, 1_600_000)];
    assert!(engine.ingest(est(70_026.0, 3_000), &later, 1_000_000, exp).is_empty());
}

#[test]
fn neutral_estimate_starts_confirmation_over() {
    let (mut engine, estimate) = rising();
    let markets = vec![market_at("T", 30.0, 70.0, 70_000.0, 1_600_000)];
    // Back to the start: neutral.
    assert!(engine.ingest(est(70_000.0, 1_500), &markets, 1_000_000, exp).is_empty());
    assert_eq!(*engine.last_direction(), Direction::Neutral);
    assert!(engine.ingest(estimate, &markets, 1_000_000, exp).is_empty());
    assert_eq!(engine.ingest(est(70_026.0, 3_000), &markets, 1_000_000, exp).len(), 1);
    assert!(same_direction(&Direction::Up, &Direction::Up));
    assert!(!same_direction(&Direction::Up, &Direction::Down));
}

#[test]
fn settings_and_names_of_the_signal_stage() {
    assert!(trading_enabled(None));
    assert!(trading_enabled(Some("no")));
    assert!(!trading_enabled(Some("FALSE")));
    assert!(!trading_enabled(Some("False")));
    assert!(!enabled_by(Some("false")));
    assert!(enabled_by(Some("FALSE")));
    assert!(!markets_stale(0, 100_000));
    assert!(!markets_stale(70_000, 100_000));
    assert!(markets_stale(69_999, 100_000));
    assert!(!markets_stale(200_000, 100_000));
    assert_eq!(direction_str(&Direction::Up), "Up");
    assert_eq!(direction_str(&Direction::Down), "Down");
    assert_eq!(direction_str(&Direction::Neutral), "Neutral");
}

#[test]
fn opportunity_record_carries_its_fields() {
    let (mut engine, estimate) = rising();
    let markets = vec![market_at("T", 30.0, 70.0, 70_000.0, 1_600_000)];
    let opps = engine.ingest(estimate, &markets, 1_000_000, exp);
    let r = opportunity_record(&opps[0], 77);
    assert_eq!(r.timestamp_ms, 77);
    assert_eq!(r.ticker, "T");
    assert_eq!(r.side, "Yes");
    assert_eq!(r.edge, opps[0].edge);
    assert_eq!(r.closes_at, 1_600_000);
    assert_eq!(back(r.market_no_price), 70.0);
    assert_eq!(r.signal_confidence, opps[0].signal.confidence);
}

#[test]
fn repriced_markets_are_put_down_to_who_moved_first() {
    let mut t = CompareTracker::new();
    let m = |yes: f64| vec![market_at("T", yes, 100.0 - yes, 70_000.0, 0)];
    // The first estimate is no move, and the first price no reprice; a comparison is due.
    let (r, due) = t.update(&est(70_000.0, 0), &m(40.0), 10_000);
    assert!(r.is_empty() && due);
    // A cent is not enough, and nothing is due.
    let (r, due) = t.update(&est(70_000.0, 0), &m(41.0), 10_001);
    assert!(r.is_empty() && !due);
    let (r, _) = t.update(&est(70_000.0, 0), &m(43.0), 10_002);
    assert_eq!(r[0].verdict, LeadLag::NoMove);
    assert_eq!(back(r[0].prev_yes), 41.0);
    assert_eq!(back(r[0].new_yes), 43.0);
    // The index rises by more than ten dollars, the market follows.
    let (r, due) = t.update(&est(70_011.0, 0), &m(43.0), 11_000);
    assert!(r.is_empty() && due);
    let (r, _) = t.update(&est(70_011.0, 0), &m(50.0), 13_000);
    assert_eq!(r[0].verdict, LeadLag::IndexLeads { delta: num(11.0), age_ms: 2_000 });
    let (r, _) = t.update(&est(70_011.0, 0), &m(45.0), 14_000);
    assert_eq!(r[0].verdict, LeadLag::MarketLeads { delta: num(11.0), behind_ms: 0 });
    let (r, _) = t.update(&est(70_011.0, 0), &m(50.0), 41_001);
    assert_eq!(r[0].verdict, LeadLag::OldMove);
    // The same prices again reprice nothing.
    assert!(t.update(&est(70_011.0, 0), &m(50.0), 41_002).0.is_empty());
}

#[test]
fn a_move_after_the_reprice_is_behind_it() {
    let v = lead_lag_verdict(Some(5_000), num(12.0), num(40.0), num(45.0), 3_500);
    assert_eq!(v, LeadLag::MarketLeads { delta: num(12.0), behind_ms: 1_500 });
}

#[test]
fn comparison_lines_are_one_for_each_market() {
    let mut t = CompareTracker::new();
    let markets = vec![
        market_at("A", 40.0, 60.0, 70_000.0, 0),
        market_at("B", 40.0, 60.0, 70_001.0, 0),
    ];
    t.update(&est(69_980.0, 0), &markets, 1_000);
    t.update(&est(70_000.0, 0), &markets, 2_000);
    let lines = t.compare_lines(&est(70_000.0, 9), &markets, &Direction::Down, num(-3.0), 32_000);
    assert_eq!(lines.len(), 2);
    assert!(lines[0].above_strike && !lines[1].above_strike);
    assert!(lines[0].recent_move);
    assert_eq!(back(lines[1].record.delta_from_strike), -1.0);
    assert_eq!(lines[0].record.direction, "Down");
    assert_eq!(lines[1].record.ticker, "B");
    assert_eq!(lines[0].record.timestamp_ms, 32_000);
    let later = t.compare_lines(&est(70_000.0, 9), &markets, &Direction::Up, num(0.0), 32_001);
    assert!(!later[0].recent_move);
}

#[test]
fn stage_forwards_or_compares() {
    let markets = vec![market_at("T", 30.0, 70.0, 70_000.0, 1_600_000)];
    let mut live = SignalStage::new(true);
    live.take(est(70_000.0, 0), &markets, 1_000_000, exp);
    live.take(est(70_020.0, 1_000), &markets, 1_000_000, exp);
    let p = live.take(est(70_025.0, 2_000), &markets, 1_000_000, exp);
    assert!(p.forward);
    assert_eq!(p.opportunities.len(), 1);
    assert!(p.comparison.is_none() && p.reprices.is_empty());
    assert_eq!(p.record.direction, "Up");
    assert_eq!(back(p.record.velocity), 25.0);
    let mut watching = SignalStage::new(false);
    let p = watching.take(est(70_000.0, 0), &markets, 1_000_000, exp);
    assert!(!p.forward);
    assert_eq!(p.record.direction, "Neutral");
    assert_eq!(p.comparison.expect("due").len(), 1);
    let p = watching.take(est(70_001.0, 0), &markets, 1_000_001, exp);
    assert!(p.comparison.is_none());
}

#[test]
fn opportunities_on_one_ticker_are_apart_over_a_row_of_estimates() {
    let mut engine = SignalEngine::new(vec![make_market("KXBTC15M-A", 15.0, 85.0, 70_000.0)]);
    let mut times: Vec<u64> = Vec::new();
    for i in 0..120u64 {
        // Three climbs of 20 dollars, two dollars a second, then a rest at the top.
        let step = (i % 40).min(10);
        for opp in engine.ingest(est(69_990.0 + step as f64 * 2.0, i * 1_000)) {
            times.push(opp.signal.brti_est.timestamp);
        }
    }
    assert!(times.len() >= 2);
    for pair in times.windows(2) {
        assert!(pair[0] + 30_000 <= pair[1]);
    }
    // An estimate from before the last of them leads to none.
    assert!(engine.ingest(est(70_020.0, 1_000)).is_empty());
}
