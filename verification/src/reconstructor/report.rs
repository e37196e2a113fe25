//! What is said and recorded of each estimate.

use crate::historian::schema::BrtiRecord;
use crate::numeric::binary64::Binary64;
use crate::types::{BrtiEstimate, ReconstructorConfig};
use vstd::prelude::*;

verus! {

/// An estimate is logged at least this many milliseconds after the last.
pub const LOG_INTERVAL_MS: u64 = 100;

/// The settings that the estimates are made with.
pub fn standard_config() -> (r: ReconstructorConfig)
    ensures
        r == (ReconstructorConfig {
            window_secs: 60,
            min_exchanges: 2,
            staleness_threshold_ms: 5000,
        }),
{
    ReconstructorConfig { window_secs: 60, min_exchanges: 2, staleness_threshold_ms: 5000 }
}

/// Whether an estimate is logged, and whether with a warning that few exchanges are live.
#[derive(Clone, Copy, Debug, PartialEq, Eq, Structural)]
pub struct LogDecision {
    pub log: bool,
    pub low_confidence: bool,
}

/// The exchange count that was last logged.
#[derive(Clone, Copy, Debug, PartialEq, Eq, Structural)]
pub struct Reporter {
    pub last_exchange_count: u8,
}

impl Reporter {
    /// Whether an estimate is logged: its count differs from the last one's, or enough time has
    /// gone by.
    pub open spec fn decision(self, estimate: BrtiEstimate, since_last_ms: u64) -> LogDecision {
        let log = estimate.exchange_count != self.last_exchange_count || since_last_ms
            >= LOG_INTERVAL_MS;
        LogDecision {
            log,
            low_confidence: log && estimate.confidence.less(Binary64::ratio(6, 10)),
        }
    }

    /// Nothing logged yet.
    pub fn new() -> (r: Self)
        ensures
            r.last_exchange_count == 0,
    {
        Reporter { last_exchange_count: 0 }
    }

    /// Decides on an estimate, that many milliseconds after the last that was logged.
    pub fn observe(&mut self, estimate: &BrtiEstimate, since_last_ms: u64) -> (r: LogDecision)
        ensures
            r == old(self).decision(*estimate, since_last_ms),
            final(self).last_exchange_count == (if r.log {
                estimate.exchange_count
            } else {
                old(self).last_exchange_count
            }),
    {
        let log = estimate.exchange_count != self.last_exchange_count || since_last_ms
            >= LOG_INTERVAL_MS;
        let low_confidence = log && estimate.confidence.lt(Binary64::from_ratio(6, 10));
        if log {
            self.last_exchange_count = estimate.exchange_count;
        }
        LogDecision { log, low_confidence }
    }
}

/// What is recorded of an estimate.
pub fn record(estimate: &BrtiEstimate) -> (r: BrtiRecord)
    ensures
        r == (BrtiRecord {
            timestamp_ms: estimate.timestamp,
            value: estimate.value,
            confidence: estimate.confidence,
            exchange_count: estimate.exchange_count,
        }),
{
    BrtiRecord {
        timestamp_ms: estimate.timestamp,
        value: estimate.value,
        confidence: estimate.confidence,
        exchange_count: estimate.exchange_count,
    }
}

} // verus!
