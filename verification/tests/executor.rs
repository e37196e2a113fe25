//! The executor from opportunity to exit.

use btc_kalshi::executor::client::{ExitResponse, MarketBids, OrderResponse, Position};
use btc_kalshi::executor::engine::{
    has_position, side_str, thesis_key, Admission, Executor, ExecutorConfig, Sizing, ThesisLock,
};
use btc_kalshi::executor::position_tracker::{ExitReason, OpenPosition};
use btc_kalshi::executor::risk::{RiskConfig, RiskGate, RiskViolation};
use btc_kalshi::executor::run::{refusal_record, Event, Outcome, RoundEvent, RoundStep, Stage, Step};
use btc_kalshi::numeric::binary64::Binary64;
use btc_kalshi::types::{
    BrtiEstimate, Direction, KalshiMarket, Signal, TradeOpportunity, TradeSide,
};

const NOW: u64 = 1_000_000;

fn num(x: f64) -> Binary64 {
    Binary64::from_bits(x.to_bits())
}

fn back(x: Binary64) -> f64 {
    f64::from_bits(x.to_bits())
}

fn opp(ticker: &str, side: TradeSide, yes: f64, no: f64, edge: f64, brti: f64) -> TradeOpportunity {
    TradeOpportunity {
        market: KalshiMarket {
            ticker: ticker.to_string(),
            yes_price: num(yes),
            no_price: num(no),
            strike: num(70_000.0),
            open_time: 0,
            closes_at: 9_000_000,
            synthetic: false,
        },
        signal: Signal {
            direction: Direction::Up,
            confidence: num(0.7),
            brti_est: BrtiEstimate {
                value: num(brti),
                timestamp: 0,
                exchange_count: 4,
                confidence: num(1.0),
            },
            generated_at: 0,
        },
        side,
        edge: num(edge),
        kelly_fraction: num(0.1),
    }
}

fn executor() -> Executor {
    let risk = RiskConfig::from_env(None, None);
    let config = ExecutorConfig::from_env(&risk, None, None, None);
    Executor::new(config, RiskGate::starting_at(risk, NOW))
}

fn order(filled: u64) -> OrderResponse {
    OrderResponse {
        order_id: "o-1".to_string(),
        status: "filled".to_string(),
        filled_count: filled,
        remaining_count: 0,
    }
}

/// An executor that holds ten contracts for yes on T, bought at 46 cents at index 70000.
fn holding() -> (Executor, OpenPosition) {
    let mut e = executor();
    let o = opp("T", TradeSide::Yes, 45.0, 55.0, 0.2, 70_000.0);
    assert_eq!(e.consider(&o, NOW), Admission::Admitted);
    let fill = e.apply_order(&o, &order(10), 46, NOW, NOW + 5);
    assert_eq!(fill.contracts, 10);
    let pos = e.open_positions().remove(0);
    (e, pos)
}

#[test]
fn settings_of_the_executor() {
    let risk = RiskConfig::from_env(Some("700"), None);
    let config = ExecutorConfig::from_env(&risk, Some("0.5"), Some("9"), Some("-3"));
    assert_eq!(config.max_position_cents, 700);
    assert_eq!(back(config.kelly_multiplier), 0.5);
    assert_eq!(config.max_contracts, 9);
    assert_eq!(config.reentry_loss_threshold_cents, -3);
    let config = ExecutorConfig::from_env(&risk, Some("half"), Some("many"), Some("1.5"));
    assert_eq!(back(config.kelly_multiplier), 0.25);
    assert_eq!(config.max_contracts, 100);
    assert_eq!(config.reentry_loss_threshold_cents, 10);
}

#[test]
fn names_of_sides() {
    assert_eq!(side_str(&TradeSide::Yes), "Yes");
    assert_eq!(side_str(&TradeSide::No), "No");
    assert_eq!(thesis_key("T", &TradeSide::No), "T:No");
}

#[test]
fn an_opportunity_becomes_an_order() {
    let mut e = executor();
    let o = opp("T", TradeSide::Yes, 45.0, 55.0, 0.2, 70_000.0);
    let (mut h, step) = e.begin(o, NOW);
    assert!(matches!(step, Step::AskBalance));
    assert_eq!(h.stage, Stage::Funding);
    let p = e.advance(&mut h, Event::Balance { cents: 100_000 });
    // A twentieth and more of the bankroll, cut to 500 cents: 11 contracts at 45 cents.
    match p.step {
        Step::Order { ticker, side, contracts, limit_price_cents } => {
            assert_eq!(ticker, "T");
            assert_eq!(side, TradeSide::Yes);
            assert_eq!(contracts, 11);
            assert_eq!(limit_price_cents, 46);
        }
        _ => panic!("no order"),
    }
    let p = e.advance(&mut h, Event::Ordered { order: order(7), recorded_ms: NOW + 9 });
    assert!(matches!(p.step, Step::Finished { outcome: Outcome::Answered }));
    let fill = p.fill.expect("a fill");
    assert_eq!(fill.timestamp_ms, NOW + 9);
    assert_eq!(fill.order_id, "o-1");
    assert_eq!(fill.side, "Yes");
    assert_eq!(fill.contracts, 7);
    assert_eq!(fill.price_cents, 46);
    assert_eq!(fill.status, "filled");
    assert!(p.pnl.is_none());
    let held = e.open_positions();
    assert_eq!(held.len(), 1);
    assert_eq!(held[0].contracts, 7);
    assert_eq!(back(held[0].entry_price_cents), 46.0);
    assert_eq!(back(held[0].peak_price_cents), 46.0);
    assert_eq!(back(held[0].entry_brti), 70_000.0);
    assert_eq!(held[0].opened_at_ms, NOW);
    assert_eq!(held[0].closes_at_ms, 9_000_000);
    assert_eq!(e.gate.open_positions, 1);
    assert_eq!(
        e.locks.get("T"),
        Some(&ThesisLock { side: TradeSide::Yes, cooldown_until_ms: u64::MAX })
    );
}

#[test]
fn an_order_without_fills_opens_nothing() {
    let mut e = executor();
    let o = opp("T", TradeSide::No, 55.0, 45.0, 0.2, 70_000.0);
    let fill = e.apply_order(&o, &order(0), 46, NOW, NOW);
    assert_eq!(fill.contracts, 0);
    assert_eq!(fill.side, "No");
    assert!(e.open_positions().is_empty());
    assert_eq!(e.gate.open_positions, 0);
    assert!(e.locks.get("T").is_none());
}

#[test]
fn a_ticker_with_a_position_is_not_entered() {
    let (mut e, _) = holding();
    let o = opp("T", TradeSide::Yes, 45.0, 55.0, 0.2, 70_000.0);
    assert_eq!(e.consider(&o, NOW + 60_000), Admission::PositionOpen);
    assert_eq!(e.traded.get("T"), Some(&NOW));
    assert!(e.traded.get("U").is_none());
}

#[test]
fn one_turn_for_a_ticker_in_thirty_seconds() {
    let mut e = executor();
    let o = opp("T", TradeSide::Yes, 45.0, 55.0, 0.2, 70_000.0);
    assert_eq!(e.consider(&o, NOW), Admission::Admitted);
    assert_eq!(e.consider(&o, NOW + 29_999), Admission::CoolingDown);
    assert_eq!(e.traded.get("T"), Some(&NOW));
    // A refusal takes the turn too.
    let weak = opp("T", TradeSide::Yes, 45.0, 55.0, 0.01, 70_000.0);
    assert_eq!(
        e.consider(&weak, NOW + 30_000),
        Admission::Refused {
            violation: RiskViolation::EdgeTooSmall { actual: num(0.01), required: num(0.08) },
        }
    );
    assert_eq!(e.consider(&o, NOW + 59_999), Admission::CoolingDown);
    assert_eq!(e.consider(&o, NOW + 60_000), Admission::Admitted);
}

#[test]
fn sizing_refuses_what_should_not_be_bought() {
    let e = executor();
    let size = |yes: f64, edge: f64, balance: u64| {
        e.size(&opp("T", TradeSide::Yes, yes, 50.0, edge, 70_000.0), NOW, balance)
    };
    assert_eq!(size(4.9, 0.2, 1_000), Sizing::PriceOutOfBand { price_cents: num(4.9) });
    assert_eq!(size(95.1, 0.2, 1_000), Sizing::PriceOutOfBand { price_cents: num(95.1) });
    assert!(matches!(size(f64::NAN, 0.2, 1_000), Sizing::PriceOutOfBand { .. }));
    assert_eq!(size(50.0, -0.2, 1_000), Sizing::ZeroKelly);
    assert_eq!(size(50.0, 0.2, 0), Sizing::ZeroContracts);
    assert_eq!(
        size(5.0, 0.2, 1_000_000),
        Sizing::Order { contracts: 100, limit_price_cents: 6 }
    );
    assert!(matches!(size(95.0, 0.04, 1_000_000), Sizing::Order { limit_price_cents: 96, .. }));
}

#[test]
fn other_side_is_blocked_while_open_and_after() {
    let (mut e, pos) = holding();
    let other = opp("T", TradeSide::No, 55.0, 45.0, 0.2, 70_000.0);
    assert_eq!(e.size(&other, u64::MAX - 1, 100_000), Sizing::ThesisLocked);
    let exit = ExitResponse { filled_count: 10, fill_price_cents: 60 };
    let record = e.conclude_exit(&pos, &exit, "r".to_string(), 2_000_000).expect("a record");
    assert_eq!(record.pnl_cents, 140);
    assert_eq!(record.entry_price_cents, 46);
    assert_eq!(record.exit_price_cents, 60);
    assert_eq!(record.side, "Yes");
    assert_eq!(record.reason, "r");
    assert_eq!(e.gate.daily_loss_cents, 140);
    assert_eq!(e.gate.open_positions, 0);
    assert!(e.open_positions().is_empty());
    assert_eq!(e.size(&other, 2_119_999, 100_000), Sizing::ThesisLocked);
    assert!(matches!(e.size(&other, 2_120_000, 100_000), Sizing::Order { .. }));
    // The same side is free at once after a profit.
    let same = opp("T", TradeSide::Yes, 45.0, 55.0, 0.2, 70_000.0);
    assert!(matches!(e.size(&same, 2_000_000, 100_000), Sizing::Order { .. }));
}

#[test]
fn a_loss_blocks_the_same_side_too() {
    let (mut e, pos) = holding();
    let exit = ExitResponse { filled_count: 10, fill_price_cents: 45 };
    let record = e.conclude_exit(&pos, &exit, "r".to_string(), 2_000_000).expect("a record");
    assert_eq!(record.pnl_cents, -10);
    let same = opp("T", TradeSide::Yes, 45.0, 55.0, 0.2, 70_000.0);
    assert_eq!(e.size(&same, 2_119_999, 100_000), Sizing::LossSuppressed);
    assert!(matches!(e.size(&same, 2_120_000, 100_000), Sizing::Order { .. }));
    // Another ticker is not concerned.
    let elsewhere = opp("U", TradeSide::Yes, 45.0, 55.0, 0.2, 70_000.0);
    assert!(matches!(e.size(&elsewhere, 2_000_000, 100_000), Sizing::Order { .. }));
}

#[test]
fn a_loss_below_the_threshold_does_not() {
    let (mut e, pos) = holding();
    let exit = ExitResponse { filled_count: 9, fill_price_cents: 45 };
    assert_eq!(e.conclude_exit(&pos, &exit, "r".to_string(), 2_000_000).unwrap().pnl_cents, -9);
    let same = opp("T", TradeSide::Yes, 45.0, 55.0, 0.2, 70_000.0);
    assert!(matches!(e.size(&same, 2_000_000, 100_000), Sizing::Order { .. }));
}

#[test]
fn a_sale_without_fills_keeps_the_position() {
    let (mut e, pos) = holding();
    let exit = ExitResponse { filled_count: 0, fill_price_cents: 45 };
    assert!(e.conclude_exit(&pos, &exit, "r".to_string(), 2_000_000).is_none());
    assert_eq!(e.open_positions().len(), 1);
    assert_eq!(e.gate.open_positions, 1);
}

#[test]
fn reversed_positions_are_sold_first() {
    let (mut e, _) = holding();
    let o = opp("U", TradeSide::Yes, 45.0, 55.0, 0.2, 69_969.0);
    let (mut h, step) = e.begin(o, NOW + 1);
    match step {
        Step::Sell { pos, reason } => {
            assert_eq!(pos.ticker, "T");
            assert_eq!(
                reason,
                ExitReason::BrtiReversal {
                    entry_brti: num(70_000.0),
                    current_brti: num(69_969.0),
                    delta: num(-31.0),
                }
            );
        }
        _ => panic!("no sale"),
    }
    assert_eq!(h.stage, Stage::Selling);
    let exit = ExitResponse { filled_count: 10, fill_price_cents: 40 };
    let p = e.advance(&mut h, Event::Sold { exit, reason: "r".to_string(), now: NOW + 2 });
    assert_eq!(p.pnl.expect("a record").pnl_cents, -60);
    assert!(matches!(p.step, Step::AskBalance));
    assert!(e.open_positions().is_empty());
    let p = e.advance(&mut h, Event::NoBalance);
    assert!(matches!(p.step, Step::Finished { outcome: Outcome::NoBalance }));
    assert_eq!(h.stage, Stage::Finished);
}

#[test]
fn a_failed_sale_goes_on_with_the_opportunity() {
    let (mut e, _) = holding();
    let o = opp("T", TradeSide::Yes, 45.0, 55.0, 0.2, 69_969.0);
    let (mut h, _) = e.begin(o, NOW + 1);
    let p = e.advance(&mut h, Event::SaleFailed);
    assert!(matches!(p.step, Step::Finished { outcome: Outcome::PositionOpen }));
    assert_eq!(e.open_positions().len(), 1);
}

#[test]
fn every_way_to_end_an_opportunity() {
    let mut e = executor();
    let good = || opp("T", TradeSide::Yes, 45.0, 55.0, 0.2, 70_000.0);
    let (mut h, _) = e.begin(good(), NOW);
    let p = e.advance(&mut h, Event::Balance { cents: 0 });
    assert!(matches!(
        p.step,
        Step::Finished { outcome: Outcome::Unsized { sizing: Sizing::ZeroContracts } }
    ));
    let (h, step) = e.begin(good(), NOW + 1);
    assert!(matches!(step, Step::Finished { outcome: Outcome::CoolingDown }));
    assert_eq!(h.stage, Stage::Finished);
    let (mut h, _) = e.begin(good(), NOW + 40_000);
    e.advance(&mut h, Event::Balance { cents: 100_000 });
    let p = e.advance(&mut h, Event::OrderFailed);
    assert!(matches!(p.step, Step::Finished { outcome: Outcome::OrderFailed }));
    assert!(p.fill.is_none());
    let weak = opp("V", TradeSide::Yes, 45.0, 55.0, 0.0, 70_000.0);
    let (_, step) = e.begin(weak, NOW);
    assert!(matches!(
        step,
        Step::Finished {
            outcome: Outcome::Refused { violation: RiskViolation::EdgeTooSmall { .. } }
        }
    ));
}

fn reported(ticker: &str) -> Position {
    Position {
        ticker: ticker.to_string(),
        side: TradeSide::Yes,
        contracts: 10,
        entry_price_cents: 46,
    }
}

#[test]
fn settled_positions_are_dropped() {
    let (mut e, _) = holding();
    let u = opp("U", TradeSide::No, 55.0, 45.0, 0.2, 70_000.0);
    e.apply_order(&u, &order(2), 46, NOW, NOW);
    let open = vec![reported("U")];
    assert!(has_position(&open, "U"));
    assert!(!has_position(&open, "T"));
    let gone = e.settle(&open, 3_000_000);
    assert_eq!(gone, vec!["T".to_string()]);
    assert_eq!(e.open_positions().len(), 1);
    assert_eq!(e.open_positions()[0].ticker, "U");
    assert_eq!(e.gate.open_positions, 1);
    assert_eq!(
        e.locks.get("T"),
        Some(&ThesisLock { side: TradeSide::Yes, cooldown_until_ms: 3_120_000 })
    );
    assert!(e.settle(&open, 3_000_001).is_empty());
}

#[test]
fn a_round_looks_at_each_position() {
    let (mut e, _) = holding();
    let u = opp("U", TradeSide::No, 55.0, 45.0, 0.2, 70_000.0);
    e.apply_order(&u, &order(2), 46, NOW, NOW);
    let open = vec![reported("T"), reported("U")];
    let (mut round, step, gone) = e.begin_round(&open, num(70_000.0), NOW + 60_000);
    assert!(gone.is_empty());
    assert!(matches!(step, RoundStep::AskBids { ref ticker } if ticker == "T"));
    // The bid for yes counts for T, and is a profit.
    let bids = MarketBids { yes_bid_cents: num(70.0), no_bid_cents: num(1.0) };
    let (step, _) = e.advance_round(&mut round, RoundEvent::Bids { bids });
    match step {
        RoundStep::Sell { pos, reason } => {
            assert_eq!(pos.ticker, "T");
            assert_eq!(back(pos.peak_price_cents), 70.0);
            assert!(matches!(reason, ExitReason::ProfitTarget { .. }));
        }
        _ => panic!("no sale"),
    }
    let exit = ExitResponse { filled_count: 10, fill_price_cents: 70 };
    let sold = RoundEvent::Sold { exit, reason: "r".to_string(), now: NOW + 60_001 };
    let (step, pnl) = e.advance_round(&mut round, sold);
    assert_eq!(pnl.expect("a record").pnl_cents, 240);
    assert!(matches!(step, RoundStep::AskBids { ref ticker } if ticker == "U"));
    // The bid for no counts for U, and is nothing special.
    let bids = MarketBids { yes_bid_cents: num(1.0), no_bid_cents: num(50.0) };
    let (step, pnl) = e.advance_round(&mut round, RoundEvent::Bids { bids });
    assert!(pnl.is_none());
    assert!(matches!(step, RoundStep::Finished));
    assert_eq!(back(e.open_positions()[0].peak_price_cents), 50.0);
}

#[test]
fn a_round_goes_on_after_failures() {
    let (mut e, _) = holding();
    let open = vec![reported("T")];
    let (mut round, _, _) = e.begin_round(&open, num(70_000.0), NOW + 60_000);
    let (step, _) = e.advance_round(&mut round, RoundEvent::NoBids);
    assert!(matches!(step, RoundStep::Finished));
    let (mut round, _, _) = e.begin_round(&open, num(70_000.0), NOW + 120_000);
    let bids = MarketBids { yes_bid_cents: num(10.0), no_bid_cents: num(1.0) };
    let (step, _) = e.advance_round(&mut round, RoundEvent::Bids { bids });
    assert!(matches!(step, RoundStep::Sell { reason: ExitReason::StopLoss { .. }, .. }));
    let (step, _) = e.advance_round(&mut round, RoundEvent::SaleFailed);
    assert!(matches!(step, RoundStep::Finished));
    assert_eq!(e.open_positions().len(), 1);
    let (_, step, gone) = e.begin_round(&vec![], num(70_000.0), NOW + 180_000);
    assert_eq!(gone, vec!["T".to_string()]);
    assert!(matches!(step, RoundStep::Finished));
}

#[test]
fn refusals_are_recorded_by_name() {
    let low = Outcome::Refused {
        violation: RiskViolation::ConfidenceTooLow { actual: num(0.1), required: num(0.45) },
    };
    let r = refusal_record(&low, 5, "d".to_string()).expect("a record");
    assert_eq!(r.timestamp_ms, 5);
    assert_eq!(r.violation_type, "ConfidenceTooLow");
    assert_eq!(r.detail, "d");
    let band = Outcome::Unsized { sizing: Sizing::PriceOutOfBand { price_cents: num(3.0) } };
    let r = refusal_record(&band, 5, "d".to_string()).expect("a record");
    assert_eq!(r.violation_type, "PriceBandOutOfRange");
    for outcome in [
        Outcome::PositionOpen,
        Outcome::NoBalance,
        Outcome::Unsized { sizing: Sizing::ZeroKelly },
        Outcome::Answered,
    ] {
        assert!(refusal_record(&outcome, 5, "d".to_string()).is_none());
    }
}

#[test]
fn a_clock_that_goes_back_shows_no_time() {
    let mut e = executor();
    let o = opp("T", TradeSide::Yes, 45.0, 55.0, 0.2, 70_000.0);
    assert_eq!(e.consider(&o, NOW), Admission::Admitted);
    assert_eq!(e.consider(&o, NOW - 1), Admission::CoolingDown);
    assert_eq!(e.traded.get("T"), Some(&NOW));
    assert_eq!(e.consider(&o, NOW + 30_000), Admission::Admitted);
    // With a position the time does not matter.
    let (mut held, _) = holding();
    assert_eq!(held.consider(&o, 0), Admission::PositionOpen);
}
