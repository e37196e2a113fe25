//! Bet sizes.

use btc_kalshi::executor::sizing::{compute_contracts as contracts, kelly_fraction as fraction};
use btc_kalshi::numeric::binary64::Binary64;

fn num(x: f64) -> Binary64 {
    Binary64::from_bits(x.to_bits())
}

fn kelly_fraction(edge: f64, odds: f64, multiplier: f64) -> f64 {
    f64::from_bits(fraction(num(edge), num(odds), num(multiplier)).to_bits())
}

fn compute_contracts(kelly: f64, bankroll: u64, price: f64, position: u64, most: u64) -> u64 {
    contracts(num(kelly), bankroll, num(price), position, most)
}

#[test]
fn kelly_positive_for_cheap_market_with_edge() {
    // edge=0.10 on a 23¢ market: model_prob=0.33, net_odds≈3.35 → Kelly>0 before scaling
    let k = kelly_fraction(0.10, 100.0 / 23.0, 0.25);
    assert!(
        k > 0.0,
        "kelly={k} should be >0 for positive-edge trade on 23¢ market"
    );
}

#[test]
fn kelly_positive_for_even_money_with_edge() {
    // 50¢ market (1:1 net odds), edge=0.05 → model_prob=0.55 → positive Kelly
    let k = kelly_fraction(0.05, 100.0 / 50.0, 0.25);
    assert!(
        k > 0.0,
        "kelly={k} should be >0 for positive-edge trade at even money"
    );
}

#[test]
fn kelly_floors_to_zero_for_negative_edge() {
    // Negative edge → unfavorable trade → Kelly must be 0
    let k = kelly_fraction(-0.05, 100.0 / 50.0, 0.25);
    assert_eq!(k, 0.0, "kelly={k} should be 0 for negative-edge trade");
}

#[test]
fn returns_zero_for_zero_price() {
    assert_eq!(compute_contracts(0.25, 10_000, 0.0, 500, 100), 0);
}

#[test]
fn returns_zero_for_negative_price() {
    assert_eq!(compute_contracts(0.25, 10_000, -1.0, 500, 100), 0);
}

#[test]
fn basic_sizing() {
    // kelly=0.1, bankroll=10_000 → raw=1000 cents
    // price=45 → contracts=floor(1000/45)=22 → min(22, floor(500/45)=11) = 11
    assert_eq!(compute_contracts(0.1, 10_000, 45.0, 500, 100), 11);
}

#[test]
fn returns_zero_when_kelly_is_tiny() {
    // kelly=0.0001, bankroll=100 → raw=0.01 → contracts=0 — no floor, returns 0
    assert_eq!(compute_contracts(0.0001, 100, 50.0, 500, 100), 0);
}

#[test]
fn returns_zero_for_zero_bankroll() {
    // raw=0 → contracts=0 — no floor, returns 0
    assert_eq!(compute_contracts(0.25, 0, 50.0, 500, 100), 0);
}

#[test]
fn capped_by_max_position() {
    // kelly=1.0, bankroll=100_000 → raw=100_000 → contracts=floor(100000/10)=10_000
    // max_from_limit = floor(500/10)=50 → min(10_000, 50) = 50, under max_contracts=100
    assert_eq!(compute_contracts(1.0, 100_000, 10.0, 500, 100), 50);
}

#[test]
fn capped_by_max_contracts() {
    // kelly=1.0, bankroll=100_000, price=10¢, max_pos=5000 → floor(5000/10)=500
    // max_contracts=100 → min(500, 100) = 100
    assert_eq!(compute_contracts(1.0, 100_000, 10.0, 5_000, 100), 100);
}

#[test]
fn returns_zero_when_price_exceeds_max_position() {
    // price=600 > max_position=500 → max_from_limit=floor(500/600)=0 → 0
    assert_eq!(compute_contracts(0.25, 10_000, 600.0, 500, 100), 0);
}

#[test]
fn kelly_exact_value_at_even_money() {
    // model_prob = 0.5 + 0.25 = 0.75, net odds 1 → 0.75 - 0.25 = 0.5, a quarter of it
    assert_eq!(kelly_fraction(0.25, 2.0, 0.25), 0.125);
}

#[test]
fn kelly_is_held_to_the_whole_bankroll() {
    // An edge beyond certainty bets no more than everything.
    assert_eq!(kelly_fraction(5.0, 2.0, 0.25), 0.25);
    assert_eq!(kelly_fraction(0.1, 1.0, 0.25), 0.0);
    assert_eq!(kelly_fraction(0.1, 0.5, 0.25), 0.0);
    assert_eq!(kelly_fraction(f64::NAN, 2.0, 0.25), 0.0);
}

#[test]
fn fractional_price_never_overspends() {
    // 10 contracts at 49.9¢ cost 499¢; at 50.1¢ only 9 fit into 500¢.
    assert_eq!(compute_contracts(1.0, 1_000_000, 49.9, 500, 100), 10);
    assert_eq!(compute_contracts(1.0, 1_000_000, 50.1, 500, 100), 9);
    assert_eq!(compute_contracts(1.0, 1_000_000, 1.5, 10, 100), 6);
}

#[test]
fn unusable_prices_buy_nothing() {
    assert_eq!(compute_contracts(1.0, 1_000, 0.5, 500, 100), 0);
    assert_eq!(compute_contracts(1.0, 1_000, f64::NAN, 500, 100), 0);
    assert_eq!(compute_contracts(1.0, 1_000, f64::INFINITY, 500, 100), 0);
    assert_eq!(compute_contracts(f64::NAN, 1_000, 50.0, 500, 100), 0);
    assert_eq!(compute_contracts(f64::INFINITY, 1_000, 50.0, 500, 3), 3);
}
