//! The open positions, and when to leave one.

use crate::numeric::binary64::Binary64;
use crate::ticker_map::TickerMap;
use crate::types::TradeSide;
use vstd::prelude::*;

verus! {

/// Contracts that were bought and not yet sold or settled.
#[derive(Debug)]
pub struct OpenPosition {
    pub order_id: String,
    pub ticker: String,
    pub side: TradeSide,
    pub contracts: u64,
    pub entry_price_cents: Binary64,
    /// The index at entry.
    pub entry_brti: Binary64,
    pub opened_at_ms: u64,
    /// When the market closes.
    pub closes_at_ms: u64,
    /// The highest bid since entry.
    pub peak_price_cents: Binary64,
}

impl Clone for OpenPosition {
    fn clone(&self) -> (r: Self)
        ensures
            r == *self,
    {
        OpenPosition {
            order_id: self.order_id.clone(),
            ticker: self.ticker.clone(),
            side: self.side,
            contracts: self.contracts,
            entry_price_cents: self.entry_price_cents,
            entry_brti: self.entry_brti,
            opened_at_ms: self.opened_at_ms,
            closes_at_ms: self.closes_at_ms,
            peak_price_cents: self.peak_price_cents,
        }
    }
}

/// Why a position is left.
#[derive(Clone, Copy, Debug, PartialEq, Eq, Structural)]
pub enum ExitReason {
    StopLoss { entry_cents: Binary64, current_cents: Binary64 },
    ProfitTarget { entry_cents: Binary64, current_cents: Binary64 },
    TrailingStop { peak_cents: Binary64, current_cents: Binary64 },
    BrtiReversal { entry_brti: Binary64, current_brti: Binary64, delta: Binary64 },
    NearExpiry { seconds_remaining: u64 },
}

impl OpenPosition {
    /// The position after a bid: its peak is the bid where that is higher.
    pub open spec fn raised(self, current_price_cents: Binary64) -> OpenPosition {
        if self.peak_price_cents.less(current_price_cents) {
            OpenPosition { peak_price_cents: current_price_cents, ..self }
        } else {
            self
        }
    }
}

/// The open positions, one for each ticker.
pub struct PositionTracker {
    pub positions: TickerMap<OpenPosition>,
}

impl View for PositionTracker {
    type V = Map<Seq<char>, OpenPosition>;

    open spec fn view(&self) -> Map<Seq<char>, OpenPosition> {
        self.positions@
    }
}

impl PositionTracker {
    /// Each position stands under its own ticker.
    pub open spec fn wf(self) -> bool {
        &&& self.positions.wf()
        &&& forall|k: Seq<char>| #[trigger] self@.contains_key(k) ==> self@[k].ticker@ == k
    }

    /// No open positions.
    pub fn new() -> (r: Self)
        ensures
            r.wf(),
            r@ == Map::<Seq<char>, OpenPosition>::empty(),
    {
        PositionTracker { positions: TickerMap::new() }
    }

    /// Adds a position, in place of one with the same ticker.
    pub fn add(&mut self, pos: OpenPosition)
        requires
            old(self).wf(),
        ensures
            final(self).wf(),
            final(self)@ == old(self)@.insert(pos.ticker@, pos),
    {
        self.positions.insert(pos.ticker.clone(), pos);
    }

    /// Removes and returns the position of a ticker.
    pub fn remove(&mut self, ticker: &str) -> (r: Option<OpenPosition>)
        requires
            old(self).wf(),
        ensures
            final(self).wf(),
            final(self)@ == old(self)@.remove(ticker@),
            match r {
                Some(pos) => old(self)@.contains_key(ticker@) && pos == old(self)@[ticker@],
                None => !old(self)@.contains_key(ticker@),
            },
    {
        self.positions.remove(ticker)
    }

    /// The open positions.
    pub fn get_all(&self) -> (r: &TickerMap<OpenPosition>)
        requires
            self.wf(),
        ensures
            r.wf(),
            r@ == self@,
    {
        &self.positions
    }

    /// How many positions are open, in the low eight bits.
    pub fn count(&self) -> (n: u8)
        requires
            self.wf(),
        ensures
            n == self@.len() % 256,
    {
        (self.positions.len() % 256) as u8
    }

    /// Takes a bid into a position's peak, and returns the position with it.
    pub fn update_peak(&mut self, ticker: &str, current_price_cents: Binary64) -> (r: Option<
        OpenPosition,
    >)
        requires
            old(self).wf(),
        ensures
            final(self).wf(),
            match r {
                Some(pos) => {
                    &&& old(self)@.contains_key(ticker@)
                    &&& pos == old(self)@[ticker@].raised(current_price_cents)
                    &&& final(self)@ == old(self)@.insert(ticker@, pos)
                },
                None => !old(self)@.contains_key(ticker@) && final(self)@ == old(self)@,
            },
    {
        let mut pos: OpenPosition = match self.positions.get(ticker) {
            Some(pos) => pos.clone(),
            None => {
                return None;
            },
        };
        if pos.peak_price_cents.lt(current_price_cents) {
            pos.peak_price_cents = current_price_cents;
        }
        self.positions.insert(pos.ticker.clone(), pos.clone());
        Some(pos)
    }
}

impl Default for PositionTracker {
    fn default() -> (r: Self)
        ensures
            r.wf(),
            r@ == Map::<Seq<char>, OpenPosition>::empty(),
    {
        PositionTracker::new()
    }
}

/// Whether the index has moved against a position by more than 30 dollars.
pub open spec fn reversed(side: TradeSide, delta: Binary64) -> bool {
    match side {
        TradeSide::Yes => delta.less(Binary64::whole(30).negated()),
        TradeSide::No => Binary64::whole(30).less(delta),
    }
}

/// The bid from which on a position is sold at a profit: 45 percent over the entry but at most 95
/// cents, and at least 10 cents over the entry.
pub open spec fn profit_target(entry: Binary64) -> Binary64 {
    entry.product(Binary64::ratio(145, 100)).lesser_of(Binary64::whole(95)).greater_of(
        entry.sum(Binary64::whole(10)),
    )
}

/// The first reason to leave a position, if any: the stop-loss at 40 percent of the entry, the
/// profit target, the trailing stop, a reversal of the index, and less than 90 seconds to go at a
/// loss.
pub open spec fn exit_reason(
    pos: OpenPosition,
    current_price_cents: Binary64,
    current_brti: Binary64,
    now_ms: u64,
) -> Option<ExitReason> {
    let entry = pos.entry_price_cents;
    let peak = pos.peak_price_cents;
    let delta = current_brti.difference(pos.entry_brti);
    if current_price_cents.less(entry.product(Binary64::ratio(4, 10))) {
        Some(ExitReason::StopLoss { entry_cents: entry, current_cents: current_price_cents })
    } else if profit_target(entry).at_most(current_price_cents) {
        Some(ExitReason::ProfitTarget { entry_cents: entry, current_cents: current_price_cents })
    } else if entry.sum(Binary64::whole(10)).at_most(peak) && current_price_cents.at_most(
        peak.difference(Binary64::whole(8)),
    ) {
        Some(ExitReason::TrailingStop { peak_cents: peak, current_cents: current_price_cents })
    } else if reversed(pos.side, delta) {
        Some(ExitReason::BrtiReversal { entry_brti: pos.entry_brti, current_brti, delta })
    } else if now_ms < pos.closes_at_ms && pos.closes_at_ms - now_ms < 90_000
        && current_price_cents.less(entry) {
        Some(
            ExitReason::NearExpiry {
                seconds_remaining: ((pos.closes_at_ms - now_ms) / 1000) as u64,
            },
        )
    } else {
        None
    }
}

/// Whether the index has moved against a position by more than 30 dollars.
pub fn is_reversed(side: TradeSide, delta: Binary64) -> (r: bool)
    ensures
        r == reversed(side, delta),
{
    match side {
        TradeSide::Yes => delta.lt(Binary64::from_u64(30).neg()),
        TradeSide::No => Binary64::from_u64(30).lt(delta),
    }
}

/// The first reason to leave a position, if any.
pub fn check_exit(
    pos: &OpenPosition,
    current_price_cents: Binary64,
    current_brti: Binary64,
    now_ms: u64,
) -> (r: Option<ExitReason>)
    ensures
        r == exit_reason(*pos, current_price_cents, current_brti, now_ms),
{
    let entry: Binary64 = pos.entry_price_cents;
    if current_price_cents.lt(entry.mul(Binary64::from_ratio(4, 10))) {
        return Some(
            ExitReason::StopLoss { entry_cents: entry, current_cents: current_price_cents },
        );
    }
    let target: Binary64 = entry.mul(Binary64::from_ratio(145, 100)).min(
        Binary64::from_u64(95),
    ).max(entry.add(Binary64::from_u64(10)));
    if target.le(current_price_cents) {
        return Some(
            ExitReason::ProfitTarget { entry_cents: entry, current_cents: current_price_cents },
        );
    }
    let peak: Binary64 = pos.peak_price_cents;
    if entry.add(Binary64::from_u64(10)).le(peak) && current_price_cents.le(
        peak.sub(Binary64::from_u64(8)),
    ) {
        return Some(
            ExitReason::TrailingStop { peak_cents: peak, current_cents: current_price_cents },
        );
    }
    let delta: Binary64 = current_brti.sub(pos.entry_brti);
    if is_reversed(pos.side, delta) {
        return Some(
            ExitReason::BrtiReversal { entry_brti: pos.entry_brti, current_brti, delta },
        );
    }
    if pos.closes_at_ms > now_ms {
        let remaining_ms: u64 = pos.closes_at_ms - now_ms;
        if remaining_ms < 90_000 && current_price_cents.lt(entry) {
            return Some(ExitReason::NearExpiry { seconds_remaining: remaining_ms / 1000 });
        }
    }
    None
}

/// A bid never lowers a peak, and once it is taken in no bid stands above the peak.
pub proof fn lemma_peak_never_falls(pos: OpenPosition, bid: Binary64)
    ensures
        !pos.raised(bid).peak_price_cents.less(pos.peak_price_cents),
        !pos.raised(bid).peak_price_cents.less(bid),
        pos.raised(bid).ticker == pos.ticker,
        pos.raised(bid).entry_price_cents == pos.entry_price_cents,
{
}

/// Removing a position that was added gives the positions from before.
pub proof fn lemma_remove_undoes_add(before: Map<Seq<char>, OpenPosition>, pos: OpenPosition)
    requires
        !before.contains_key(pos.ticker@),
    ensures
        before.insert(pos.ticker@, pos).contains_key(pos.ticker@),
        before.insert(pos.ticker@, pos)[pos.ticker@] == pos,
        before.insert(pos.ticker@, pos).remove(pos.ticker@) == before,
{
    assert(before.insert(pos.ticker@, pos).remove(pos.ticker@) =~= before);
}

} // verus!
