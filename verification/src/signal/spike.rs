//! Sudden moves within a short window.

use crate::clock;
use crate::numeric::binary64::Binary64;
use crate::types::{BrtiEstimate, Direction};
use std::collections::VecDeque;
use vstd::prelude::*;

verus! {

/// The estimates of a short window, oldest first, and the moves that count as spikes.
pub struct SpikeDetector {
    pub window_secs: u64,
    /// A rise of more dollars than this is a spike.
    pub up_threshold_dollars: Binary64,
    /// A fall of more dollars than this is a spike.
    pub down_threshold_dollars: Binary64,
    pub samples: VecDeque<BrtiEstimate>,
}

/// What is left when the estimates at the front that are older than a cutoff have gone.
pub open spec fn since(s: Seq<BrtiEstimate>, cutoff: int) -> Seq<BrtiEstimate>
    decreases s.len(),
{
    if s.len() > 0 && s[0].timestamp < cutoff {
        since(s.skip(1), cutoff)
    } else {
        s
    }
}

/// The window after an estimate has come in.
pub open spec fn spike_window(
    s: Seq<BrtiEstimate>,
    estimate: BrtiEstimate,
    window_secs: int,
) -> Seq<BrtiEstimate> {
    since(
        s.push(estimate),
        clock::monus(estimate.timestamp as int, window_secs * 1000),
    )
}

/// The move from the oldest to the newest estimate, in dollars.
pub open spec fn net_move(s: Seq<BrtiEstimate>) -> Binary64 {
    if s.len() == 0 {
        Binary64::whole(0).difference(Binary64::whole(0))
    } else {
        s.last().value.difference(s[0].value)
    }
}

/// Which way a window has spiked.
pub open spec fn spike(s: Seq<BrtiEstimate>, up: Binary64, down: Binary64) -> Direction {
    if s.len() < 2 {
        Direction::Neutral
    } else if up.less(net_move(s)) {
        Direction::Up
    } else if net_move(s).less(down.negated()) {
        Direction::Down
    } else {
        Direction::Neutral
    }
}

impl View for SpikeDetector {
    type V = Seq<BrtiEstimate>;

    open spec fn view(&self) -> Seq<BrtiEstimate> {
        self.samples@
    }
}

impl SpikeDetector {
    /// A detector without estimates.
    pub fn new(
        window_secs: u64,
        up_threshold_dollars: Binary64,
        down_threshold_dollars: Binary64,
    ) -> (r: Self)
        ensures
            r.window_secs == window_secs,
            r.up_threshold_dollars == up_threshold_dollars,
            r.down_threshold_dollars == down_threshold_dollars,
            r@ == Seq::<BrtiEstimate>::empty(),
    {
        SpikeDetector {
            window_secs,
            up_threshold_dollars,
            down_threshold_dollars,
            samples: VecDeque::new(),
        }
    }

    /// Takes an estimate in, and lets those go that have left the window.
    pub fn push(&mut self, estimate: BrtiEstimate)
        requires
            old(self).window_secs * 1000 <= u64::MAX,
        ensures
            final(self).window_secs == old(self).window_secs,
            final(self).up_threshold_dollars == old(self).up_threshold_dollars,
            final(self).down_threshold_dollars == old(self).down_threshold_dollars,
            final(self)@ == spike_window(old(self)@, estimate, old(self).window_secs as int),
    {
        let window_ms: u64 = self.window_secs * 1000;
        let cutoff: u64 = if estimate.timestamp >= window_ms {
            estimate.timestamp - window_ms
        } else {
            0
        };
        self.samples.push_back(estimate);
        while self.samples.len() > 0 && self.samples[0].timestamp < cutoff
            invariant
                self.window_secs == old(self).window_secs,
                self.up_threshold_dollars == old(self).up_threshold_dollars,
                self.down_threshold_dollars == old(self).down_threshold_dollars,
                since(self.samples@, cutoff as int) == since(
                    old(self).samples@.push(estimate),
                    cutoff as int,
                ),
            decreases self.samples@.len(),
        {
            proof {
                assert(self.samples@.skip(1) == self.samples@.subrange(
                    1,
                    self.samples@.len() as int,
                ));
            }
            self.samples.pop_front();
        }
    }

    /// Which way the window has spiked.
    pub fn direction(&self) -> (r: Direction)
        ensures
            r == spike(self@, self.up_threshold_dollars, self.down_threshold_dollars),
    {
        let n: usize = self.samples.len();
        if n < 2 {
            return Direction::Neutral;
        }
        let delta: Binary64 = self.samples[n - 1].value.sub(self.samples[0].value);
        if self.up_threshold_dollars.lt(delta) {
            Direction::Up
        } else if delta.lt(self.down_threshold_dollars.neg()) {
            Direction::Down
        } else {
            Direction::Neutral
        }
    }

    /// The move from the oldest to the newest estimate, in dollars.
    pub fn delta(&self) -> (r: Binary64)
        ensures
            r == net_move(self@),
    {
        let n: usize = self.samples.len();
        if n == 0 {
            return Binary64::from_u64(0).sub(Binary64::from_u64(0));
        }
        self.samples[n - 1].value.sub(self.samples[0].value)
    }
}

/// The newest estimate always stays, and no estimate at the front is older than the window.
pub proof fn lemma_window_holds_the_newest(
    s: Seq<BrtiEstimate>,
    estimate: BrtiEstimate,
    window_secs: int,
)
    requires
        0 <= window_secs,
    ensures
        ({
            let kept = spike_window(s, estimate, window_secs);
            &&& kept.len() > 0
            &&& kept.last() == estimate
            &&& kept[0].timestamp >= clock::monus(
                estimate.timestamp as int,
                window_secs * 1000,
            )
        }),
{
    lemma_since(s, estimate, clock::monus(estimate.timestamp as int, window_secs * 1000));
}

proof fn lemma_since(s: Seq<BrtiEstimate>, estimate: BrtiEstimate, cutoff: int)
    requires
        estimate.timestamp >= cutoff,
    ensures
        since(s.push(estimate), cutoff).len() > 0,
        since(s.push(estimate), cutoff).last() == estimate,
        since(s.push(estimate), cutoff)[0].timestamp >= cutoff,
    decreases s.len(),
{
    let all = s.push(estimate);
    if all[0].timestamp < cutoff {
        assert(all.skip(1) == s.skip(1).push(estimate));
        lemma_since(s.skip(1), estimate, cutoff);
    }
}

} // verus!
