//! The risk limits.

use btc_kalshi::executor::risk::{
    setting, violation_type_str, RiskConfig, RiskGate, RiskViolation, DAY_MS,
};
use btc_kalshi::numeric::binary64::Binary64;
use btc_kalshi::types::{
    BrtiEstimate, Direction, KalshiMarket, Signal, TradeOpportunity, TradeSide,
};

fn num(x: f64) -> Binary64 {
    Binary64::from_bits(x.to_bits())
}

fn make_opp(confidence: f64, edge: f64) -> TradeOpportunity {
    TradeOpportunity {
        market: KalshiMarket {
            ticker: "TEST".to_string(),
            yes_price: num(45.0),
            no_price: num(55.0),
            strike: num(70_000.0),
            open_time: 0,
            closes_at: 9_999_999_999_999,
            synthetic: false,
        },
        signal: Signal {
            direction: Direction::Up,
            confidence: num(confidence),
            brti_est: BrtiEstimate {
                value: num(70_000.0),
                timestamp: 0,
                exchange_count: 4,
                confidence: num(confidence),
            },
            generated_at: 0,
        },
        side: TradeSide::Yes,
        edge: num(edge),
        kelly_fraction: num(0.1),
    }
}

fn default_config() -> RiskConfig {
    RiskConfig {
        max_position_cents: 500,
        max_daily_loss_cents: 5000,
        min_signal_confidence: num(0.45),
        min_edge: num(0.08),
        max_open_positions: 5,
    }
}

#[test]
fn confidence_too_low_trips_gate() {
    let gate = RiskGate::new(default_config());
    let opp = make_opp(0.40, 0.15); // confidence below 0.45
    let err = gate.check(&opp).expect_err("should trip confidence gate");
    assert!(matches!(err, RiskViolation::ConfidenceTooLow { .. }));
    assert_eq!(violation_type_str(&err), "ConfidenceTooLow");
}

#[test]
fn edge_too_small_trips_gate() {
    let gate = RiskGate::new(default_config());
    let opp = make_opp(0.70, 0.03); // edge below 0.08
    let err = gate.check(&opp).expect_err("should trip edge gate");
    assert!(matches!(err, RiskViolation::EdgeTooSmall { .. }));
    assert_eq!(violation_type_str(&err), "EdgeTooSmall");
}

#[test]
fn too_many_positions_trips_gate() {
    let mut gate = RiskGate::new(default_config());
    // Fill 5 positions (the maximum)
    for _ in 0..5 {
        gate.record_fill(100);
    }
    let opp = make_opp(0.70, 0.15);
    let err = gate.check(&opp).expect_err("should trip position count gate");
    assert!(matches!(err, RiskViolation::TooManyOpenPositions { .. }));
    assert_eq!(violation_type_str(&err), "TooManyOpenPositions");
}

#[test]
fn daily_loss_limit_trips_gate() {
    let mut gate = RiskGate::new(default_config());
    // Record a loss equal to the daily limit
    gate.record_pnl(-5000);
    let opp = make_opp(0.70, 0.15);
    let err = gate.check(&opp).expect_err("should trip daily loss gate");
    assert!(matches!(err, RiskViolation::DailyLossLimitHit { .. }));
    assert_eq!(violation_type_str(&err), "DailyLossLimitHit");
}

#[test]
fn all_gates_pass_when_within_limits() {
    let gate = RiskGate::new(default_config());
    let opp = make_opp(0.70, 0.15);
    assert!(gate.check(&opp).is_ok());
}

#[test]
fn daily_reset_clears_loss() {
    let mut gate = RiskGate::new(default_config());
    gate.record_pnl(-5000);

    // Simulate crossing midnight: advance by 24h + 1ms
    let tomorrow = gate.last_reset + 86_400_001;
    gate.maybe_reset_daily(tomorrow);

    let opp = make_opp(0.70, 0.15);
    assert!(gate.check(&opp).is_ok(), "loss should be reset after midnight");
}

#[test]
fn first_failing_gate_is_reported() {
    let mut gate = RiskGate::starting_at(default_config(), 0);
    gate.record_pnl(-5000);
    for _ in 0..5 {
        gate.record_fill(100);
    }
    assert_eq!(
        gate.check(&make_opp(0.40, 0.03)),
        Err(RiskViolation::ConfidenceTooLow { actual: num(0.40), required: num(0.45) })
    );
    assert_eq!(
        gate.check(&make_opp(0.45, 0.03)),
        Err(RiskViolation::EdgeTooSmall { actual: num(0.03), required: num(0.08) })
    );
    assert_eq!(
        gate.check(&make_opp(0.45, 0.08)),
        Err(RiskViolation::TooManyOpenPositions { current: 5, max: 5 })
    );
    gate.record_close();
    assert_eq!(
        gate.check(&make_opp(0.45, 0.08)),
        Err(RiskViolation::DailyLossLimitHit { loss_cents: -5000, limit_cents: 5000 })
    );
    gate.record_pnl(1);
    assert_eq!(gate.check(&make_opp(0.45, 0.08)), Ok(()));
}

#[test]
fn loss_halts_for_the_rest_of_the_day() {
    let start = 3 * DAY_MS + 1;
    let mut gate = RiskGate::starting_at(default_config(), start);
    gate.record_pnl(-6000);
    gate.maybe_reset_daily(4 * DAY_MS - 1);
    assert!(gate.check(&make_opp(0.7, 0.15)).is_err());
    gate.maybe_reset_daily(4 * DAY_MS);
    assert!(gate.check(&make_opp(0.7, 0.15)).is_ok());
    assert_eq!(gate.last_reset, 4 * DAY_MS);
    assert_eq!(gate.daily_loss_cents, 0);
}

#[test]
fn close_undoes_fill_and_counts_hold_at_their_ends() {
    let mut gate = RiskGate::starting_at(default_config(), 0);
    let before = gate;
    gate.record_fill(10);
    assert_eq!(gate.open_positions, 1);
    gate.record_close();
    assert_eq!(gate, before);
    gate.record_close();
    assert_eq!(gate.open_positions, 0);
    for _ in 0..300 {
        gate.record_fill(1);
    }
    assert_eq!(gate.open_positions, 255);
    gate.record_pnl(i64::MAX);
    gate.record_pnl(i64::MAX);
    assert_eq!(gate.daily_loss_cents, i64::MAX);
    gate.record_pnl(i64::MIN);
    gate.record_pnl(i64::MIN);
    assert_eq!(gate.daily_loss_cents, i64::MIN);
}

#[test]
fn limits_come_from_the_environment_or_defaults() {
    let config = RiskConfig::from_env(None, None);
    assert_eq!(config, default_config());
    let config = RiskConfig::from_env(Some("2000"), Some("x"));
    assert_eq!(config.max_position_cents, 2000);
    assert_eq!(config.max_daily_loss_cents, 5000);
    assert_eq!(setting(Some("+7"), 1), 7);
    assert_eq!(setting(Some("-7"), 1), 1);
    assert_eq!(setting(Some(""), 1), 1);
    assert_eq!(setting(Some("18446744073709551616"), 1), 1);
}

#[test]
fn huge_loss_limit_never_halts() {
    let config = RiskConfig { max_daily_loss_cents: u64::MAX, ..default_config() };
    let mut gate = RiskGate::starting_at(config, 0);
    gate.record_pnl(i64::MIN);
    assert!(gate.check(&make_opp(0.7, 0.15)).is_ok());
}
