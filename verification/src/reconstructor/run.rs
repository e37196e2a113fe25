//! What one trade leads to: an estimate, its record and its log entry.

use crate::historian::schema::BrtiRecord;
use crate::reconstructor::engine;
use crate::reconstructor::engine::ReconstructorEngine;
use crate::reconstructor::report;
use crate::reconstructor::report::{LogDecision, Reporter};
use crate::reconstructor::window;
use crate::types::{BrtiEstimate, Trade};
use vstd::prelude::*;

verus! {

/// An estimate to pass on, what to record of it, and whether to log it.
#[derive(Debug)]
pub struct Published {
    pub estimate: BrtiEstimate,
    pub record: BrtiRecord,
    pub decision: LogDecision,
}

/// The estimating stage.
pub struct Reconstructor {
    pub engine: ReconstructorEngine,
    pub reporter: Reporter,
}

impl Reconstructor {
    /// The windows are in order.
    pub open spec fn wf(self) -> bool {
        self.engine.wf()
    }

    /// The stage with its standard settings, before any trade.
    pub fn new() -> (r: Self)
        ensures
            r.wf(),
            r.engine.config().window_secs == 60,
            r.engine.config().min_exchanges == 2,
            r.engine.config().staleness_threshold_ms == 5000,
            r.engine@ == Seq::new(engine::EXCHANGES as nat, |i: int| Seq::<Trade>::empty()),
            r.reporter.last_exchange_count == 0,
    {
        Reconstructor {
            engine: ReconstructorEngine::new(report::standard_config()),
            reporter: Reporter::new(),
        }
    }

    /// Takes a trade in, so many milliseconds after the last log entry.
    pub fn take(&mut self, trade: Trade, since_last_ms: u64) -> (r: Option<Published>)
        requires
            old(self).wf(),
        ensures
            final(self).wf(),
            final(self).engine.config() == old(self).engine.config(),
            final(self).engine@ == old(self).engine@.update(
                engine::place(trade.exchange),
                window::pushed(
                    old(self).engine@[engine::place(trade.exchange)],
                    trade,
                    old(self).engine.config().window_secs as int,
                ),
            ),
            match engine::estimate(
                final(self).engine@,
                old(self).engine.config(),
                trade.local_ts,
            ) {
                Some(estimate) => {
                    &&& r is Some
                    &&& r->0.estimate == estimate
                    &&& r->0.decision == old(self).reporter.decision(estimate, since_last_ms)
                    &&& r->0.record.timestamp_ms == estimate.timestamp
                    &&& r->0.record.value == estimate.value
                    &&& r->0.record.confidence == estimate.confidence
                    &&& r->0.record.exchange_count == estimate.exchange_count
                    &&& final(self).reporter.last_exchange_count == (if r->0.decision.log {
                        estimate.exchange_count
                    } else {
                        old(self).reporter.last_exchange_count
                    })
                },
                None => r is None && final(self).reporter == old(self).reporter,
            },
    {
        match self.engine.ingest(trade) {
            Some(estimate) => {
                let decision: LogDecision = self.reporter.observe(&estimate, since_last_ms);
                let record: BrtiRecord = report::record(&estimate);
                Some(Published { estimate, record, decision })
            },
            None => None,
        }
    }
}

} // verus!
