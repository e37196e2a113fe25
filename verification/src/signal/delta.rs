//! Momentum over the latest estimates.

use crate::numeric::binary64::Binary64;
use crate::types::{BrtiEstimate, Direction};
use std::collections::VecDeque;
use vstd::prelude::*;

verus! {

/// How many estimates are kept.
pub const SAMPLES: usize = 20;

/// The latest estimates, oldest first.
pub struct BrtiDeltaDetector {
    pub buffer: VecDeque<BrtiEstimate>,
}

/// A row with one more estimate, without its oldest where it would be too long.
pub open spec fn sampled(s: Seq<BrtiEstimate>, estimate: BrtiEstimate) -> Seq<BrtiEstimate> {
    let all = s.push(estimate);
    if all.len() > SAMPLES {
        all.skip(1)
    } else {
        all
    }
}

/// The change from the oldest to the newest estimate, in percent of the oldest.
pub open spec fn percent_change(s: Seq<BrtiEstimate>) -> Option<Binary64> {
    if s.len() < 2 || s[0].value.same(Binary64::whole(0)) {
        None
    } else {
        Some(
            s.last().value.difference(s[0].value).quotient(s[0].value).product(
                Binary64::whole(100),
            ),
        )
    }
}

/// The change from the oldest to the newest estimate, in dollars for each second.
pub open spec fn change_rate(s: Seq<BrtiEstimate>) -> Option<Binary64> {
    if s.len() < 2 || s.last().timestamp <= s[0].timestamp {
        None
    } else {
        Some(
            s.last().value.difference(s[0].value).quotient(
                Binary64::whole(s.last().timestamp - s[0].timestamp).quotient(
                    Binary64::whole(1000),
                ),
            ),
        )
    }
}

/// Where the estimates are heading, given a threshold in percent.
pub open spec fn trend(s: Seq<BrtiEstimate>, threshold_pct: Binary64) -> Direction {
    match percent_change(s) {
        Some(d) => if threshold_pct.less(d) {
            Direction::Up
        } else if d.less(threshold_pct.negated()) {
            Direction::Down
        } else {
            Direction::Neutral
        },
        None => Direction::Neutral,
    }
}

impl View for BrtiDeltaDetector {
    type V = Seq<BrtiEstimate>;

    open spec fn view(&self) -> Seq<BrtiEstimate> {
        self.buffer@
    }
}

impl BrtiDeltaDetector {
    /// At most twenty estimates are kept.
    pub open spec fn wf(self) -> bool {
        self@.len() <= SAMPLES
    }

    /// No estimates yet.
    pub fn new() -> (r: Self)
        ensures
            r.wf(),
            r@ == Seq::<BrtiEstimate>::empty(),
    {
        BrtiDeltaDetector { buffer: VecDeque::new() }
    }

    /// Takes an estimate in, and lets the oldest go where there are too many.
    pub fn push(&mut self, estimate: BrtiEstimate)
        requires
            old(self).wf(),
        ensures
            final(self).wf(),
            final(self)@ == sampled(old(self)@, estimate),
    {
        self.buffer.push_back(estimate);
        if self.buffer.len() > SAMPLES {
            self.buffer.pop_front();
            proof {
                assert(self@ =~= sampled(old(self)@, estimate));
            }
        }
    }

    /// The change from the oldest to the newest estimate, in percent of the oldest.
    pub fn delta_pct(&self) -> (r: Option<Binary64>)
        ensures
            r == percent_change(self@),
    {
        let n: usize = self.buffer.len();
        if n < 2 {
            return None;
        }
        let oldest: BrtiEstimate = self.buffer[0];
        let newest: BrtiEstimate = self.buffer[n - 1];
        if oldest.value.equals(Binary64::from_u64(0)) {
            return None;
        }
        Some(newest.value.sub(oldest.value).div(oldest.value).mul(Binary64::from_u64(100)))
    }

    /// The change from the oldest to the newest estimate, in dollars for each second.
    pub fn velocity(&self) -> (r: Option<Binary64>)
        ensures
            r == change_rate(self@),
    {
        let n: usize = self.buffer.len();
        if n < 2 {
            return None;
        }
        let oldest: BrtiEstimate = self.buffer[0];
        let newest: BrtiEstimate = self.buffer[n - 1];
        if newest.timestamp <= oldest.timestamp {
            return None;
        }
        let elapsed_ms: u64 = newest.timestamp - oldest.timestamp;
        let time_secs: Binary64 = Binary64::from_u64(elapsed_ms).div(Binary64::from_u64(1000));
        Some(newest.value.sub(oldest.value).div(time_secs))
    }

    /// Where the estimates are heading.
    pub fn direction(&self, threshold_pct: Binary64) -> (r: Direction)
        ensures
            r == trend(self@, threshold_pct),
    {
        match self.delta_pct() {
            Some(d) => if threshold_pct.lt(d) {
                Direction::Up
            } else if d.lt(threshold_pct.neg()) {
                Direction::Down
            } else {
                Direction::Neutral
            },
            None => Direction::Neutral,
        }
    }
}

impl Default for BrtiDeltaDetector {
    fn default() -> (r: Self)
        ensures
            r.wf(),
            r@ == Seq::<BrtiEstimate>::empty(),
    {
        BrtiDeltaDetector::new()
    }
}

} // verus!
