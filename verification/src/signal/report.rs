//! What is recorded of each estimate and opportunity, and the settings of the signal stage.

use crate::clock;
use crate::historian::schema::{OpportunityRecord, SignalRecord};
use crate::executor::engine;
use crate::signal::engine::SignalEngine;
use crate::text;
use crate::types::{BrtiEstimate, Direction, TradeOpportunity};
use vstd::prelude::*;

verus! {

/// Markets that were fetched longer ago than this are out of date.
pub const MARKET_STALE_MS: u64 = 30_000;

/// The name of a direction.
pub open spec fn direction_name(direction: Direction) -> Seq<char> {
    match direction {
        Direction::Up => "Up"@,
        Direction::Down => "Down"@,
        Direction::Neutral => "Neutral"@,
    }
}

/// The name of a direction.
pub fn direction_str(direction: &Direction) -> (r: &'static str)
    ensures
        r@ == direction_name(*direction),
{
    match direction {
        Direction::Up => "Up",
        Direction::Down => "Down",
        Direction::Neutral => "Neutral",
    }
}

/// Whether markets were fetched before, but too long ago.
pub fn markets_stale(last_fetch_ms: u64, now_ms: u64) -> (r: bool)
    ensures
        r == (last_fetch_ms > 0 && clock::monus(now_ms as int, last_fetch_ms as int)
            > MARKET_STALE_MS),
{
    last_fetch_ms > 0 && clock::elapsed_ms(now_ms, last_fetch_ms) > MARKET_STALE_MS
}

/// What is recorded of an estimate that the engine has just taken in.
pub fn signal_record(engine: &SignalEngine, estimate: &BrtiEstimate) -> (r: SignalRecord)
    ensures
        r.timestamp_ms == estimate.timestamp,
        r.direction@ == direction_name(engine@.last_direction),
        r.confidence == estimate.confidence,
        r.brti_est == estimate.value,
        r.delta_pct == engine@.last_delta_pct,
        r.velocity == engine@.last_velocity,
{
    SignalRecord {
        timestamp_ms: estimate.timestamp,
        direction: direction_str(engine.last_direction()).to_owned(),
        confidence: estimate.confidence,
        brti_est: estimate.value,
        delta_pct: engine.last_delta_pct(),
        velocity: engine.last_velocity(),
    }
}

/// What is recorded of an opportunity.
pub fn opportunity_record(opp: &TradeOpportunity, now_ms: u64) -> (r: OpportunityRecord)
    ensures
        r.timestamp_ms == now_ms,
        r.ticker == opp.market.ticker,
        r.side@ == engine::side_name(opp.side),
        r.edge == opp.edge,
        r.kelly_fraction == opp.kelly_fraction,
        r.market_yes_price == opp.market.yes_price,
        r.market_no_price == opp.market.no_price,
        r.strike == opp.market.strike,
        r.closes_at == opp.market.closes_at,
        r.brti_est == opp.signal.brti_est.value,
        r.signal_confidence == opp.signal.confidence,
        r.synthetic == opp.market.synthetic,
{
    OpportunityRecord {
        timestamp_ms: now_ms,
        ticker: opp.market.ticker.clone(),
        side: engine::side_str(&opp.side).to_owned(),
        edge: opp.edge,
        kelly_fraction: opp.kelly_fraction,
        market_yes_price: opp.market.yes_price,
        market_no_price: opp.market.no_price,
        strike: opp.market.strike,
        closes_at: opp.market.closes_at,
        brti_est: opp.signal.brti_est.value,
        signal_confidence: opp.signal.confidence,
        synthetic: opp.market.synthetic,
    }
}

/// Whether orders are placed, from the lower-case text of the environment's `TRADING_ENABLED`:
/// unless it says `false`.
pub fn enabled_by(lower_case: Option<&str>) -> (r: bool)
    ensures
        r == (match lower_case {
            Some(s) => s@ != "false"@,
            None => true,
        }),
{
    match lower_case {
        Some(s) => !text::same_text(s, "false"),
        None => true,
    }
}

/// Whether orders are placed, from the text of the environment's `TRADING_ENABLED`.
pub fn trading_enabled(value: Option<&str>) -> (r: bool)
    ensures
        r == (match value {
            Some(s) => text::lower_case(s@) != "false"@,
            None => true,
        }),
{
    match value {
        Some(s) => {
            let lowered: String = text::to_lower_case(s);
            enabled_by(Some(lowered.as_str()))
        },
        None => enabled_by(None),
    }
}

} // verus!
