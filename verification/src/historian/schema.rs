//! The records of the audit trail. Each type has a file of its own for each day.

use crate::numeric::binary64::Binary64;
use vstd::prelude::*;

verus! {

/// One estimate of the index.
#[derive(Debug)]
pub struct BrtiRecord {
    pub timestamp_ms: u64,
    pub value: Binary64,
    pub confidence: Binary64,
    pub exchange_count: u8,
}

/// One trade of an exchange.
#[derive(Debug)]
pub struct TradeRecord {
    /// Unix milliseconds at receipt.
    pub timestamp_ms: u64,
    pub exchange: String,
    pub price: Binary64,
    pub size: Binary64,
    pub exchange_ts: u64,
    pub local_ts: u64,
    /// Receipt less the time that the exchange reports; negative where the clocks differ.
    pub latency_ms: i64,
}

/// What one estimate says of the momentum.
#[derive(Debug)]
pub struct SignalRecord {
    pub timestamp_ms: u64,
    pub direction: String,
    pub confidence: Binary64,
    pub brti_est: Binary64,
    pub delta_pct: Binary64,
    pub velocity: Binary64,
}

/// One opportunity.
#[derive(Debug)]
pub struct OpportunityRecord {
    pub timestamp_ms: u64,
    pub ticker: String,
    pub side: String,
    pub edge: Binary64,
    pub kelly_fraction: Binary64,
    pub market_yes_price: Binary64,
    pub market_no_price: Binary64,
    pub strike: Binary64,
    pub closes_at: u64,
    pub brti_est: Binary64,
    pub signal_confidence: Binary64,
    /// Whether the market prices were computed, there being no bid in the orderbook.
    pub synthetic: bool,
}

/// One market beside the index, written where no orders are placed.
#[derive(Debug)]
pub struct CompareRecord {
    pub timestamp_ms: u64,
    pub brti_est: Binary64,
    pub confidence: Binary64,
    pub ticker: String,
    pub strike: Binary64,
    pub yes_price: Binary64,
    pub no_price: Binary64,
    pub synthetic: bool,
    /// The index less the strike.
    pub delta_from_strike: Binary64,
    pub direction: String,
    pub velocity: Binary64,
}

/// The answer to one order.
#[derive(Debug)]
pub struct FillRecord {
    pub timestamp_ms: u64,
    pub order_id: String,
    pub ticker: String,
    pub side: String,
    pub contracts: u64,
    pub price_cents: u64,
    pub status: String,
}

/// One sale, with its profit or loss.
#[derive(Debug)]
pub struct RealizedPnlRecord {
    pub timestamp_ms: u64,
    pub ticker: String,
    pub side: String,
    pub contracts: u64,
    pub entry_price_cents: u64,
    pub exit_price_cents: u64,
    pub pnl_cents: i64,
    pub reason: String,
}

/// One opportunity that was refused.
#[derive(Debug)]
pub struct RiskViolationRecord {
    pub timestamp_ms: u64,
    pub violation_type: String,
    pub detail: String,
}

} // verus!
