//! The list of markets and computed prices.

use btc_kalshi::executor::client::ClientError;
use btc_kalshi::json;
use btc_kalshi::numeric::binary64::Binary64;
use btc_kalshi::signal::kalshi_poller;
use btc_kalshi::signal::kalshi_poller::{market_at, markets_url, read_markets, time_ms};

fn num(x: f64) -> Binary64 {
    Binary64::from_bits(x.to_bits())
}

fn back(x: Binary64) -> f64 {
    f64::from_bits(x.to_bits())
}

fn tanh(x: Binary64) -> Binary64 {
    num(back(x).tanh())
}

fn synthetic_prices(brti: f64, strike: f64, secs: f64) -> (f64, f64) {
    let (yes, no) = kalshi_poller::synthetic_prices(num(brti), num(strike), num(secs), tanh);
    (back(yes), back(no))
}

#[test]
fn synthetic_yes_above_50_when_brti_above_strike() {
    let (yes, no) = synthetic_prices(71_000.0, 70_000.0, 450.0);
    assert!(yes > 50.0, "yes={yes} should be >50 when BRTI above strike");
    assert!((yes + no - 100.0).abs() < 0.01, "yes+no should ≈100");
}

#[test]
fn synthetic_yes_below_50_when_brti_below_strike() {
    let (yes, no) = synthetic_prices(69_000.0, 70_000.0, 450.0);
    assert!(yes < 50.0, "yes={yes} should be <50 when BRTI below strike");
    assert!((yes + no - 100.0).abs() < 0.01, "yes+no should ≈100");
}

#[test]
fn synthetic_prices_clamped_to_valid_range() {
    // Extreme distance should clamp to [1, 99]
    let (yes, no) = synthetic_prices(100_000.0, 70_000.0, 1.0);
    assert!(yes >= 1.0 && yes <= 99.0, "yes={yes} out of [1,99]");
    assert!(no >= 1.0 && no <= 99.0, "no={no} out of [1,99]");
}

#[test]
fn synthetic_yes_50_at_strike_midpoint() {
    // Exactly at strike with plenty of time → should be close to 50
    let (yes, _) = synthetic_prices(70_000.0, 70_000.0, 900.0);
    assert!(
        (yes - 50.0).abs() < 1.0,
        "yes={yes} should be ≈50 at strike"
    );
}

#[test]
fn synthetic_prices_are_the_formula_on_machine_numbers() {
    for (brti, strike, secs) in [
        (70_100.0, 70_000.0, 450.0),
        (69_950.0, 70_000.0, 30.0),
        (69_999.9, 70_000.0, 5_000.0),
        (70_000.0, 70_000.0, 0.0),
    ] {
        let brti_f: f64 = brti;
        let distance = (brti_f - strike) / strike;
        let secs_f: f64 = secs;
        let factor = (secs_f / 900.0).min(1.0);
        let base = 0.5 + (distance * 100.0).tanh() * 0.4;
        let prob = if brti_f > strike {
            base + (1.0 - base) * (1.0 - factor) * 0.5
        } else {
            base * factor
        };
        let yes = (prob * 100.0).clamp(1.0, 99.0);
        let no = (100.0 - yes).clamp(1.0, 99.0);
        assert_eq!(synthetic_prices(brti, strike, secs), (yes, no));
    }
}

#[test]
fn markets_are_read_from_an_answer() {
    let answer = r#"{"markets":[
        {"ticker":"A","yes_bid":45,"no_bid":53.5,"floor_strike":70000.25,
         "open_time":"2026-04-08T02:00:00Z","close_time":"2026-04-08T02:15:00Z"},
        {"yes_bid":45},
        {"ticker":"B","yes_bid_dollars":"0.10","no_bid_dollars":"0.85","close_time":"soon"},
        {"ticker":7}
    ]}"#;
    let found = read_markets(answer, num(0.0), 0, tanh).expect("a document");
    assert_eq!(found.len(), 2);
    assert_eq!(found[0].ticker, "A");
    assert_eq!(back(found[0].yes_price), 45.0);
    assert_eq!(back(found[0].no_price), 53.5);
    assert_eq!(back(found[0].strike), 70_000.25);
    assert_eq!(found[0].open_time, 1_775_613_600_000);
    assert_eq!(found[0].closes_at, 1_775_614_500_000);
    assert!(!found[0].synthetic);
    assert_eq!(found[1].ticker, "B");
    assert_eq!(back(found[1].yes_price), 0.10 * 100.0);
    assert_eq!(back(found[1].no_price), 0.85 * 100.0);
    assert_eq!(back(found[1].strike), 0.0);
    assert_eq!(found[1].closes_at, 0);
}

#[test]
fn prices_are_computed_where_nobody_bids() {
    let answer = r#"{"markets":[{"ticker":"A","yes_bid":0,"no_bid":12,"floor_strike":70000,
        "close_time":"1970-01-01T00:07:30Z"}]}"#;
    let found = read_markets(answer, num(70_100.0), 0, tanh).expect("a document");
    assert!(found[0].synthetic);
    let (yes, no) = synthetic_prices(70_100.0, 70_000.0, 450.0);
    assert_eq!(back(found[0].yes_price), yes);
    assert_eq!(back(found[0].no_price), no);
    // Not without an index, nor once the market has closed.
    let found = read_markets(answer, num(0.0), 0, tanh).expect("a document");
    assert!(!found[0].synthetic);
    assert_eq!(back(found[0].no_price), 12.0);
    let found = read_markets(answer, num(70_100.0), 450_000, tanh).expect("a document");
    assert!(!found[0].synthetic);
}

#[test]
fn an_answer_without_a_list_has_no_markets() {
    assert!(read_markets("{}", num(1.0), 0, tanh).expect("a document").is_empty());
    assert!(read_markets(r#"{"markets":3}"#, num(1.0), 0, tanh).unwrap().is_empty());
    assert_eq!(read_markets("oops", num(1.0), 0, tanh).err(), Some(ClientError::Malformed));
    let m = json::parse(r#"{"ticker":"T"}"#).unwrap();
    assert_eq!(market_at(&m, num(0.0), 0, num(0.0)).unwrap().ticker, "T");
    assert!(market_at(&json::parse("[]").unwrap(), num(0.0), 0, num(0.0)).is_none());
    assert_eq!(
        markets_url("https://x/v2"),
        "https://x/v2/markets?series_ticker=KXBTC15M&status=open"
    );
    assert_eq!(time_ms(None), 0);
    assert_eq!(time_ms(Some(-1)), u64::MAX);
    assert_eq!(time_ms(Some(9)), 9);
}

#[test]
fn computed_prices_follow_the_index_and_the_time() {
    let strike = 70_000.0;
    let mut last = 0.0;
    for k in 0..400 {
        let brti = 69_000.0 + 5.0 * f64::from(k);
        let (yes, no) = synthetic_prices(brti, strike, 300.0);
        assert!((yes + no - 100.0).abs() < 0.01);
        assert!(if brti > strike { yes >= 50.0 } else { yes <= 50.0 });
        assert!(yes >= last);
        last = yes;
        let (earlier, _) = synthetic_prices(brti, strike, 600.0);
        assert!(if brti > strike { earlier <= yes } else { yes <= earlier });
    }
}
