//! Open positions and exits.

use btc_kalshi::executor::position_tracker::{
    check_exit as exit, ExitReason, OpenPosition, PositionTracker,
};
use btc_kalshi::numeric::binary64::Binary64;
use btc_kalshi::types::TradeSide;

fn num(x: f64) -> Binary64 {
    Binary64::from_bits(x.to_bits())
}

fn check_exit(pos: &OpenPosition, price: f64, brti: f64, now_ms: u64) -> Option<ExitReason> {
    exit(pos, num(price), num(brti), now_ms)
}

fn make_pos_with_peak(
    side: TradeSide,
    entry_price: f64,
    peak_price: f64,
    entry_brti: f64,
    closes_at_ms: u64,
) -> OpenPosition {
    OpenPosition {
        order_id: "ord-1".to_string(),
        ticker: "KXBTC15M-TEST".to_string(),
        side,
        contracts: 5,
        entry_price_cents: num(entry_price),
        peak_price_cents: num(peak_price),
        entry_brti: num(entry_brti),
        opened_at_ms: 0,
        closes_at_ms,
    }
}

fn make_pos(side: TradeSide, entry_price: f64, entry_brti: f64, closes_at_ms: u64) -> OpenPosition {
    make_pos_with_peak(side, entry_price, entry_price, entry_brti, closes_at_ms)
}

// --- stop-loss ---

#[test]
fn stop_loss_fires_at_60_pct_loss() {
    let pos = make_pos(TradeSide::Yes, 50.0, 70_000.0, u64::MAX);
    // 50 * 0.4 = 20 → current < 20 triggers stop-loss
    let result = check_exit(&pos, 19.0, 70_000.0, 0);
    assert!(matches!(result, Some(ExitReason::StopLoss { .. })));
}

#[test]
fn stop_loss_does_not_fire_above_threshold() {
    let pos = make_pos(TradeSide::Yes, 50.0, 70_000.0, u64::MAX);
    // 20 = exactly 60% loss — not below threshold
    let result = check_exit(&pos, 20.0, 70_000.0, 0);
    assert!(result.is_none());
}

// --- profit target ---

#[test]
fn profit_target_fires_at_45_pct_gain() {
    // entry 45¢ → target = 45 * 1.45 = 65.25¢
    let pos = make_pos(TradeSide::Yes, 45.0, 70_000.0, u64::MAX);
    let result = check_exit(&pos, 66.0, 70_000.0, 0);
    assert!(matches!(result, Some(ExitReason::ProfitTarget { .. })));
}

#[test]
fn profit_target_does_not_fire_below_threshold() {
    let pos = make_pos(TradeSide::Yes, 45.0, 70_000.0, u64::MAX);
    let result = check_exit(&pos, 64.0, 70_000.0, 0);
    assert!(result.is_none());
}

#[test]
fn profit_target_enforces_minimum_10_cent_profit() {
    // entry 15¢ → 1.45× = 21.75¢, but floor is entry + 10 = 25¢
    let pos = make_pos(TradeSide::Yes, 15.0, 70_000.0, u64::MAX);
    let result = check_exit(&pos, 24.0, 70_000.0, 0);
    assert!(
        result.is_none(),
        "should not fire below 10¢ minimum profit floor"
    );
    let result = check_exit(&pos, 25.0, 70_000.0, 0);
    assert!(matches!(result, Some(ExitReason::ProfitTarget { .. })));
}

#[test]
fn profit_target_capped_at_95_cents() {
    // entry 75¢ → 1.45× = 108.75¢, capped to 95¢
    let pos = make_pos(TradeSide::Yes, 75.0, 70_000.0, u64::MAX);
    let result = check_exit(&pos, 94.0, 70_000.0, 0);
    assert!(result.is_none(), "should not fire below 95¢ ceiling");
    let result = check_exit(&pos, 95.0, 70_000.0, 0);
    assert!(matches!(result, Some(ExitReason::ProfitTarget { .. })));
}

// --- trailing stop ---

#[test]
fn trailing_stop_fires_when_peak_gives_back_8_cents() {
    // Peak 68¢ (23¢ above entry 45¢ → arm threshold of 55¢ cleared).
    // Current 59¢ = gave back 9¢ from peak → fire.
    let pos = make_pos_with_peak(TradeSide::Yes, 45.0, 68.0, 70_000.0, u64::MAX);
    let result = check_exit(&pos, 59.0, 70_000.0, 0);
    assert!(matches!(result, Some(ExitReason::TrailingStop { .. })));
}

#[test]
fn trailing_stop_does_not_fire_without_10_cent_peak_gain() {
    // Peak 52¢ — only 7¢ above entry 45¢, arm threshold (55¢) not cleared.
    // Current 43¢ would normally trigger trail math, but stop is not armed.
    let pos = make_pos_with_peak(TradeSide::Yes, 45.0, 52.0, 70_000.0, u64::MAX);
    let result = check_exit(&pos, 43.0, 70_000.0, 0);
    assert!(result.is_none());
}

#[test]
fn trailing_stop_does_not_fire_within_trail() {
    // Peak 68¢, current 61¢ → gave back 7¢, under the 8¢ trail → hold.
    let pos = make_pos_with_peak(TradeSide::Yes, 45.0, 68.0, 70_000.0, u64::MAX);
    let result = check_exit(&pos, 61.0, 70_000.0, 0);
    assert!(result.is_none());
}

#[test]
fn trailing_stop_fires_at_exactly_8_cents() {
    let pos = make_pos_with_peak(TradeSide::Yes, 45.0, 68.0, 70_000.0, u64::MAX);
    assert_eq!(
        check_exit(&pos, 60.0, 70_000.0, 0),
        Some(ExitReason::TrailingStop { peak_cents: num(68.0), current_cents: num(60.0) })
    );
}

// --- BRTI reversal ---

#[test]
fn brti_reversal_fires_for_yes_position_on_drop() {
    let pos = make_pos(TradeSide::Yes, 50.0, 70_000.0, u64::MAX);
    // BRTI dropped $31 from entry → should exit YES
    let result = check_exit(&pos, 45.0, 69_969.0, 0);
    assert!(matches!(result, Some(ExitReason::BrtiReversal { .. })));
}

#[test]
fn brti_reversal_fires_for_no_position_on_rise() {
    let pos = make_pos(TradeSide::No, 50.0, 70_000.0, u64::MAX);
    // BRTI rose $31 from entry → should exit NO
    let result = check_exit(&pos, 45.0, 70_031.0, 0);
    assert!(matches!(result, Some(ExitReason::BrtiReversal { .. })));
}

#[test]
fn brti_reversal_does_not_fire_within_threshold() {
    let pos = make_pos(TradeSide::Yes, 50.0, 70_000.0, u64::MAX);
    // Only $29 drop — below $30 threshold
    let result = check_exit(&pos, 45.0, 69_971.0, 0);
    assert!(result.is_none());
}

#[test]
fn brti_reversal_takes_more_than_30_dollars() {
    let yes = make_pos(TradeSide::Yes, 50.0, 70_000.0, u64::MAX);
    assert!(check_exit(&yes, 45.0, 69_970.0, 0).is_none());
    let no = make_pos(TradeSide::No, 50.0, 70_000.0, u64::MAX);
    assert!(check_exit(&no, 45.0, 70_030.0, 0).is_none());
    assert_eq!(
        check_exit(&no, 45.0, 70_030.5, 0),
        Some(ExitReason::BrtiReversal {
            entry_brti: num(70_000.0),
            current_brti: num(70_030.5),
            delta: num(30.5),
        })
    );
}

// --- near expiry ---

#[test]
fn near_expiry_fires_when_underwater() {
    let now_ms = 1_000_000_u64;
    let pos = make_pos(TradeSide::Yes, 50.0, 70_000.0, now_ms + 60_000);
    let result = check_exit(&pos, 40.0, 70_000.0, now_ms);
    assert!(matches!(
        result,
        Some(ExitReason::NearExpiry {
            seconds_remaining: 60
        })
    ));
}

#[test]
fn near_expiry_does_not_fire_when_profitable() {
    let now_ms = 1_000_000_u64;
    let pos = make_pos(TradeSide::Yes, 50.0, 70_000.0, now_ms + 60_000);
    // Current price above entry — hold to settlement
    let result = check_exit(&pos, 70.0, 70_000.0, now_ms);
    assert!(result.is_none());
}

#[test]
fn near_expiry_needs_time_left_and_less_than_90_seconds() {
    let pos = make_pos(TradeSide::Yes, 50.0, 70_000.0, 100_000);
    assert!(check_exit(&pos, 40.0, 70_000.0, 10_000).is_none());
    assert_eq!(
        check_exit(&pos, 40.0, 70_000.0, 10_001),
        Some(ExitReason::NearExpiry { seconds_remaining: 89 })
    );
    assert!(check_exit(&pos, 40.0, 70_000.0, 100_000).is_none());
    assert!(check_exit(&pos, 40.0, 70_000.0, 100_001).is_none());
}

#[test]
fn stop_loss_comes_before_everything_else() {
    let pos = make_pos_with_peak(TradeSide::Yes, 50.0, 90.0, 70_000.0, 60_000);
    assert_eq!(
        check_exit(&pos, 10.0, 60_000.0, 0),
        Some(ExitReason::StopLoss { entry_cents: num(50.0), current_cents: num(10.0) })
    );
}

// --- tracker ---

#[test]
fn tracker_add_remove_count() {
    let mut tracker = PositionTracker::new();
    assert_eq!(tracker.count(), 0);
    tracker.add(make_pos(TradeSide::Yes, 50.0, 70_000.0, u64::MAX));
    assert_eq!(tracker.count(), 1);
    let removed = tracker.remove("KXBTC15M-TEST");
    assert!(removed.is_some());
    assert_eq!(tracker.count(), 0);
}

#[test]
fn update_peak_raises_and_returns_position() {
    let mut tracker = PositionTracker::new();
    tracker.add(make_pos(TradeSide::Yes, 45.0, 70_000.0, u64::MAX));

    // Higher price updates peak
    let updated = tracker.update_peak("KXBTC15M-TEST", num(60.0)).unwrap();
    assert_eq!(updated.peak_price_cents, num(60.0));

    // Lower price does not lower peak
    let updated2 = tracker.update_peak("KXBTC15M-TEST", num(55.0)).unwrap();
    assert_eq!(updated2.peak_price_cents, num(60.0));
}

#[test]
fn update_peak_returns_none_for_unknown_ticker() {
    let mut tracker = PositionTracker::new();
    assert!(tracker.update_peak("NONEXISTENT", num(50.0)).is_none());
}

#[test]
fn a_second_position_replaces_the_first() {
    let mut tracker = PositionTracker::default();
    tracker.add(make_pos(TradeSide::Yes, 50.0, 70_000.0, u64::MAX));
    tracker.add(make_pos(TradeSide::No, 40.0, 70_000.0, u64::MAX));
    assert_eq!(tracker.count(), 1);
    let held = tracker.get_all().get("KXBTC15M-TEST").unwrap();
    assert_eq!(held.side, TradeSide::No);
    assert!(tracker.remove("OTHER").is_none());
    assert_eq!(tracker.remove("KXBTC15M-TEST").unwrap().entry_price_cents, num(40.0));
}
