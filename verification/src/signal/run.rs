//! What one estimate leads to: opportunities and their records, or a comparison where no orders are
//! placed.

use crate::historian::schema::SignalRecord;
use crate::numeric::binary64::Binary64;
use crate::signal::compare;
use crate::signal::compare::{CompareLine, CompareTracker, Comparison, Reprice};
use crate::signal::engine;
use crate::signal::engine::{Memory, SignalEngine};
use crate::signal::report;
use crate::types::{BrtiEstimate, KalshiMarket, TradeOpportunity};
use vstd::prelude::*;

verus! {

/// What one estimate led to.
pub struct Processed {
    pub record: SignalRecord,
    /// The opportunities, each to be recorded.
    pub opportunities: Vec<TradeOpportunity>,
    /// Whether the opportunities are passed on to be traded.
    pub forward: bool,
    /// The markets that were repriced, where no orders are placed.
    pub reprices: Vec<Reprice>,
    /// The comparison, where no orders are placed and one is due.
    pub comparison: Option<Vec<CompareLine>>,
}

/// The signal stage. It compares where no orders are placed.
pub struct SignalStage {
    pub engine: SignalEngine,
    pub tracker: Option<CompareTracker>,
}

impl SignalStage {
    /// The engine and the tracker are in order.
    pub open spec fn wf(self) -> bool {
        &&& self.engine.wf()
        &&& self.tracker is Some ==> self.tracker->0.wf()
    }

    /// The stage before any estimate.
    pub fn new(trading_enabled: bool) -> (r: Self)
        ensures
            r.wf(),
            r.tracker is Some == !trading_enabled,
            r.tracker is Some ==> r.tracker->0@ == Comparison::fresh(),
            r.engine@ == Memory::fresh(),
    {
        SignalStage {
            engine: SignalEngine::new(),
            tracker: if trading_enabled {
                None
            } else {
                Some(CompareTracker::new())
            },
        }
    }

    /// Takes an estimate in, with the markets as of now. `exp` is the exponential function.
    pub fn take<F: Fn(Binary64) -> Binary64>(
        &mut self,
        estimate: BrtiEstimate,
        markets: &Vec<KalshiMarket>,
        now_ms: u64,
        exp: F,
    ) -> (r: Processed)
        requires
            old(self).wf(),
            forall|x: Binary64| call_requires(exp, (x,)),
        ensures
            final(self).wf(),
            exists|exps: Seq<Binary64>| #[trigger]
                engine::ingested(
                    old(self).engine@,
                    estimate,
                    markets@,
                    now_ms,
                    exp,
                    exps,
                    final(self).engine@,
                    r.opportunities@,
                ),
            r.forward == (old(self).tracker is None),
            r.record.timestamp_ms == estimate.timestamp,
            r.record.direction@ == report::direction_name(final(self).engine@.last_direction),
            r.record.confidence == estimate.confidence,
            r.record.brti_est == estimate.value,
            r.record.delta_pct == final(self).engine@.last_delta_pct,
            r.record.velocity == final(self).engine@.last_velocity,
            final(self).tracker is Some == old(self).tracker is Some,
            match old(self).tracker {
                None => r.reprices@.len() == 0 && r.comparison is None,
                Some(before) => {
                    let after = final(self).tracker->0;
                    &&& after@ == before@.updated(estimate.value, markets@, now_ms)
                    &&& r.reprices@ == compare::reprices(
                        before@.prices,
                        markets@,
                        after@.move_ms,
                        after@.move_delta,
                        now_ms,
                    )
                    &&& r.comparison is Some == before@.due(estimate.value, now_ms)
                    &&& r.comparison is Some ==> compare::are_lines(
                        r.comparison->0@,
                        after@,
                        estimate,
                        markets@,
                        final(self).engine@.last_direction,
                        final(self).engine@.last_velocity,
                        now_ms,
                    )
                },
            },
    {
        let opportunities: Vec<TradeOpportunity> = self.engine.ingest(
            estimate,
            markets,
            now_ms,
            exp,
        );
        let ghost after = self.engine@;
        let ghost found = opportunities@;
        let ghost exps = choose|exps: Seq<Binary64>| #[trigger]
            engine::ingested(
                old(self).engine@,
                estimate,
                markets@,
                now_ms,
                exp,
                exps,
                after,
                found,
            );
        let record: SignalRecord = report::signal_record(&self.engine, &estimate);
        let mut reprices: Vec<Reprice> = Vec::new();
        let mut comparison: Option<Vec<CompareLine>> = None;
        let forward = self.tracker.is_none();
        match self.tracker.take() {
            Some(tracker) => {
                let mut tracker: CompareTracker = tracker;
                let (found, due) = tracker.update(&estimate, markets, now_ms);
                reprices = found;
                if due {
                    comparison = Some(
                        tracker.compare_lines(
                            &estimate,
                            markets,
                            self.engine.last_direction(),
                            self.engine.last_velocity(),
                            now_ms,
                        ),
                    );
                }
                self.tracker = Some(tracker);
            },
            None => {},
        }
        let r: Processed = Processed { record, opportunities, forward, reprices, comparison };
        proof {
            assert(self.engine@ == after);
            assert(r.opportunities@ == found);
            assert(engine::ingested(
                old(self).engine@,
                estimate,
                markets@,
                now_ms,
                exp,
                exps,
                self.engine@,
                r.opportunities@,
            ));
        }
        r
    }
}

} // verus!
