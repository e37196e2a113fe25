//! Momentum detectors and probabilities.

use btc_kalshi::numeric::binary64::Binary64;
use btc_kalshi::signal::delta::BrtiDeltaDetector;
use btc_kalshi::signal::probability;
use btc_kalshi::signal::spike::SpikeDetector as Spikes;
use btc_kalshi::types::{BrtiEstimate, Direction};

fn num(x: f64) -> Binary64 {
    Binary64::from_bits(x.to_bits())
}

fn back(x: Binary64) -> f64 {
    f64::from_bits(x.to_bits())
}

fn exp(x: Binary64) -> Binary64 {
    num(back(x).exp())
}

fn est(value: f64, ts_ms: u64) -> BrtiEstimate {
    BrtiEstimate {
        value: num(value),
        timestamp: ts_ms,
        exchange_count: 2,
        confidence: num(1.0),
    }
}

fn sample(value: f64, ts: u64) -> BrtiEstimate {
    BrtiEstimate {
        value: num(value),
        timestamp: ts,
        exchange_count: 4,
        confidence: num(0.5),
    }
}

fn spike_detector() -> Spikes {
    Spikes::new(30, num(15.0), num(25.0))
}

#[test]
fn direction_up_on_increasing_prices() {
    let mut d = BrtiDeltaDetector::new();
    for i in 0..5u64 {
        d.push(est(60_000.0 + i as f64 * 50.0, 1000 * i));
    }
    assert!(matches!(d.direction(num(0.01)), Direction::Up));
}

#[test]
fn direction_down_on_decreasing_prices() {
    let mut d = BrtiDeltaDetector::new();
    for i in 0..5u64 {
        d.push(est(60_000.0 - i as f64 * 50.0, 1000 * i));
    }
    assert!(matches!(d.direction(num(0.01)), Direction::Down));
}

#[test]
fn direction_neutral_on_flat_prices() {
    let mut d = BrtiDeltaDetector::new();
    for i in 0..5u64 {
        d.push(est(60_000.0, 1000 * i));
    }
    assert!(matches!(d.direction(num(0.01)), Direction::Neutral));
}

#[test]
fn delta_pct_none_with_single_sample() {
    let mut d = BrtiDeltaDetector::new();
    d.push(est(60_000.0, 0));
    assert!(d.delta_pct().is_none());
}

#[test]
fn buffer_capped_at_20() {
    let mut d = BrtiDeltaDetector::new();
    for i in 0..25u64 {
        d.push(est(60_000.0 + i as f64, 1000 * i));
    }
    assert_eq!(d.buffer.len(), 20);
    // The oldest five have gone.
    assert_eq!(back(d.buffer[0].value), 60_005.0);
}

#[test]
fn velocity_in_dollars_per_second() {
    let mut d = BrtiDeltaDetector::new();
    // Price rises $100 over 2 seconds → velocity = 50 $/s
    d.push(est(60_000.0, 0));
    d.push(est(60_100.0, 2_000));
    let v = back(d.velocity().expect("should have velocity"));
    assert!((v - 50.0).abs() < 0.01);
    assert_eq!(v, 50.0);
}

#[test]
fn delta_edge_cases() {
    let mut d = BrtiDeltaDetector::default();
    assert!(d.velocity().is_none());
    d.push(est(0.0, 5));
    d.push(est(10.0, 5));
    assert!(d.delta_pct().is_none(), "no percentage of zero");
    assert!(d.velocity().is_none(), "no time went by");
    assert!(matches!(d.direction(num(0.01)), Direction::Neutral));
    let mut back_in_time = BrtiDeltaDetector::new();
    back_in_time.push(est(1.0, 9));
    back_in_time.push(est(3.0, 4));
    assert!(back_in_time.velocity().is_none());
    assert_eq!(back_in_time.delta_pct().map(back), Some(200.0));
    let mut at_threshold = BrtiDeltaDetector::new();
    at_threshold.push(est(100.0, 0));
    at_threshold.push(est(200.0, 1));
    assert!(matches!(at_threshold.direction(num(100.0)), Direction::Neutral));
}

#[test]
fn detects_upward_spike() {
    // $20 move exceeds up_threshold=15
    let mut d = spike_detector();
    d.push(sample(70_000.0, 0));
    d.push(sample(70_020.0, 5_000));
    assert!(matches!(d.direction(), Direction::Up));
}

#[test]
fn detects_downward_spike() {
    // $30 drop exceeds down_threshold=25
    let mut d = spike_detector();
    d.push(sample(70_000.0, 0));
    d.push(sample(69_970.0, 5_000));
    assert!(matches!(d.direction(), Direction::Down));
}

#[test]
fn downward_spike_below_threshold_is_neutral() {
    // $20 drop does NOT exceed down_threshold=25 — asymmetric filter in action
    let mut d = spike_detector();
    d.push(sample(70_000.0, 0));
    d.push(sample(69_980.0, 5_000));
    assert!(matches!(d.direction(), Direction::Neutral));
}

#[test]
fn neutral_below_threshold() {
    // $10 move does not exceed up_threshold=15
    let mut d = spike_detector();
    d.push(sample(70_000.0, 0));
    d.push(sample(70_010.0, 5_000));
    assert!(matches!(d.direction(), Direction::Neutral));
}

#[test]
fn evicts_old_samples() {
    let mut d = spike_detector();
    d.push(sample(70_000.0, 0));
    d.push(sample(70_020.0, 5_000));
    // Sample 40s later — the first two samples are evicted, delta drops to ~$1
    d.push(sample(70_021.0, 40_000));
    assert!(matches!(d.direction(), Direction::Neutral));
}

#[test]
fn delta_returns_net_move() {
    let mut d = spike_detector();
    d.push(sample(70_000.0, 0));
    d.push(sample(70_030.0, 5_000));
    assert!((back(d.delta()) - 30.0).abs() < f64::EPSILON);
}

#[test]
fn spike_thresholds_are_strict_and_the_newest_stays() {
    let mut d = spike_detector();
    assert_eq!(back(d.delta()), 0.0);
    d.push(sample(70_000.0, 0));
    assert!(matches!(d.direction(), Direction::Neutral));
    d.push(sample(70_015.0, 30_000));
    assert!(matches!(d.direction(), Direction::Neutral));
    assert_eq!(d.samples.len(), 2);
    d.push(sample(70_016.0, 60_001));
    // Only the newest is younger than 30 seconds.
    assert_eq!(d.samples.len(), 1);
    let mut e = spike_detector();
    e.push(sample(70_000.0, 0));
    e.push(sample(69_975.0, 1));
    assert!(matches!(e.direction(), Direction::Neutral));
}

fn implied_probability(cents: f64) -> f64 {
    back(probability::implied_probability(num(cents)))
}

fn model_probability(d: &Direction, brti: f64, strike: f64, secs: f64, vel: f64, conf: f64) -> f64 {
    back(probability::model_probability(
        d,
        num(brti),
        num(strike),
        num(secs),
        num(vel),
        num(conf),
        exp,
    ))
}

fn kelly_fraction(edge: f64, odds: f64, multiplier: f64) -> f64 {
    back(probability::kelly_fraction(num(edge), num(odds), num(multiplier)))
}

#[test]
fn implied_probability_maps_cents_to_fraction() {
    assert!((implied_probability(50.0) - 0.50).abs() < f64::EPSILON);
    assert!((implied_probability(0.0) - 0.0).abs() < f64::EPSILON);
    assert!((implied_probability(100.0) - 1.0).abs() < f64::EPSILON);
}

#[test]
fn model_probability_above_strike_gives_high_yes_prob() {
    // BRTI $5 above strike, 60s remaining → P(YES) > 0.65
    // Model was fitted on ±$5 band only; use near-money inputs for meaningful assertions.
    let p = model_probability(&Direction::Up, 70_005.0, 70_000.0, 60.0, 0.0, 1.0);
    assert!(p > 0.65, "got {p:.3}, expected > 0.65");
}

#[test]
fn model_probability_below_strike_far_gives_low_yes_prob() {
    // BRTI $30 below strike, low velocity → P(YES) is low (distance penalty dominates).
    // A large upward spike would raise it; with velocity=0 it should be well below 50%.
    let p = model_probability(&Direction::Down, 69_970.0, 70_000.0, 600.0, 0.0, 1.0);
    assert!(p < 0.40, "got {p:.3}, expected < 0.40");
}

#[test]
fn model_probability_at_strike_is_near_50() {
    // BRTI exactly at strike, 10 min remaining → P(YES) near 0.50–0.60
    // Intercept + time effect gives ~0.56 at 600s; within a reasonable band.
    let p = model_probability(&Direction::Neutral, 70_000.0, 70_000.0, 600.0, 0.0, 1.0);
    assert!(
        (p - 0.5).abs() < 0.15,
        "got {p:.3}, expected within 0.15 of 0.50"
    );
}

#[test]
fn model_probability_time_compression_above_strike_near_expiry() {
    // BRTI $5 above strike, 60s remaining → shorter time → higher certainty → P(YES) > 0.65
    let p = model_probability(&Direction::Up, 70_005.0, 70_000.0, 60.0, 0.0, 1.0);
    assert!(
        p > 0.65,
        "got {p:.3}, expected > 0.65 near expiry above strike"
    );
}

#[test]
fn model_probability_time_compression_more_time_lowers_prob() {
    // More time remaining → more uncertainty → P(YES) lower (seconds coef is negative).
    let p_short = model_probability(&Direction::Up, 70_005.0, 70_000.0, 60.0, 0.0, 1.0);
    let p_long = model_probability(&Direction::Up, 70_005.0, 70_000.0, 600.0, 0.0, 1.0);
    assert!(
        p_short > p_long,
        "60s ({p_short:.3}) should give higher P(YES) than 600s ({p_long:.3})"
    );
}

#[test]
fn model_probability_confidence_discount_reduces_result() {
    // Low BRTI confidence (fewer exchanges) → lower result than full confidence.
    let full = model_probability(&Direction::Up, 70_005.0, 70_000.0, 60.0, 0.0, 1.0);
    let low = model_probability(&Direction::Up, 70_005.0, 70_000.0, 60.0, 0.0, 0.0);
    assert!(
        low < full,
        "low confidence ({low:.3}) should be < full ({full:.3})"
    );
}

#[test]
fn kelly_fraction_positive_edge() {
    // edge=0.6, odds=2.0 → kelly = (0.6*2.0 - 0.4) / 2.0 = 0.4 → scaled: 0.4*0.25 = 0.1
    let k = kelly_fraction(0.6, 2.0, 0.25);
    assert!((k - 0.1).abs() < 1e-9);
}

#[test]
fn kelly_fraction_floored_at_zero_when_negative() {
    // edge=0.0, odds=1.0 → kelly = -1 → floor: 0.0
    let k = kelly_fraction(0.0, 1.0, 0.25);
    assert!((k - 0.0).abs() < f64::EPSILON);
}

#[test]
fn kelly_fraction_zero_edge_gives_zero() {
    let k = kelly_fraction(0.0, 2.0, 0.25);
    assert_eq!(k, 0.0);
}

#[test]
fn model_probability_is_the_formula_on_machine_numbers() {
    for (brti, strike, secs, vel, conf) in [
        (70_005.0, 70_000.0, 60.0, -3.25, 0.75),
        (69_990.5, 70_000.0, 1_200.0, 12.0, 0.25),
        (70_001.0, 70_000.0, -5.0, 0.0, 1.0),
    ] {
        let secs_f: f64 = secs;
        let vel_f: f64 = vel;
        let z = 1.261386
            + 0.082579 * (brti - strike)
            + -0.001716 * secs_f.clamp(0.0, 900.0)
            + 0.098562 * vel_f.abs();
        let yes = 1.0 / (1.0 + (-z).exp());
        let expected = (yes * (0.7 + conf * 0.3)).clamp(0.05, 0.95);
        assert_eq!(model_probability(&Direction::Up, brti, strike, secs, vel, conf), expected);
    }
}

#[test]
fn model_probability_is_held_between_5_and_95_percent() {
    assert_eq!(model_probability(&Direction::Up, 80_000.0, 70_000.0, 0.0, 0.0, 1.0), 0.95);
    assert_eq!(model_probability(&Direction::Up, 60_000.0, 70_000.0, 0.0, 0.0, 1.0), 0.05);
    assert_eq!(back(probability::discounted_probability(num(1.0), num(1.0))), 0.5);
}

#[test]
fn model_probability_follows_each_argument() {
    let p = |brti: f64, strike: f64, secs: f64, vel: f64, conf: f64| {
        model_probability(&Direction::Up, brti, strike, secs, vel, conf)
    };
    for k in 0..50 {
        let x = f64::from(k);
        assert!(p(70_000.0 + x, 70_010.0, 300.0, 2.0, 0.5) <= p(70_001.0 + x, 70_010.0, 300.0, 2.0, 0.5));
        assert!(p(70_000.0, 69_980.0 + x, 300.0, 2.0, 0.5) >= p(70_000.0, 69_981.0 + x, 300.0, 2.0, 0.5));
        assert!(p(70_000.0, 70_010.0, 20.0 * x, 2.0, 0.5) >= p(70_000.0, 70_010.0, 20.0 * x + 20.0, 2.0, 0.5));
        assert!(p(70_000.0, 70_010.0, 300.0, x, 0.5) <= p(70_000.0, 70_010.0, 300.0, -x - 1.0, 0.5));
        assert!(p(70_000.0, 70_010.0, 300.0, 2.0, x / 50.0) <= p(70_000.0, 70_010.0, 300.0, 2.0, (x + 1.0) / 50.0));
    }
    assert_eq!(p(70_000.0, 70_010.0, 900.0, 2.0, 0.5), p(70_000.0, 70_010.0, 5_000.0, -2.0, 0.5));
    assert_eq!(p(f64::MIN, f64::MAX, 300.0, f64::MAX, 1.0), 0.05);
}
