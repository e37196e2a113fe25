//! The index beside the markets: who moved first.

use crate::clock;
use crate::historian::schema::CompareRecord;
use crate::numeric::binary64::Binary64;
use crate::numeric::laws;
use crate::signal::report;
use crate::ticker_map::TickerMap;
use crate::types::{BrtiEstimate, Direction, KalshiMarket};
use vstd::prelude::*;

verus! {

/// A move of the index counts as the cause of a reprice for this long.
pub const LEAD_WINDOW_MS: u64 = 30_000;

/// A comparison is made at least this often.
pub const COMPARE_INTERVAL_MS: u64 = 5_000;

/// Who moved first where a market was repriced.
#[derive(Clone, Copy, Debug, PartialEq, Eq, Structural)]
pub enum LeadLag {
    /// The index has not moved yet.
    NoMove,
    /// The index moved too long ago.
    OldMove,
    /// The index moved first, by as many milliseconds.
    IndexLeads { delta: Binary64, age_ms: u64 },
    /// The market moved first, by as many milliseconds.
    MarketLeads { delta: Binary64, behind_ms: u64 },
}

/// A market whose price changed by more than a cent.
#[derive(Debug)]
pub struct Reprice {
    pub ticker: String,
    pub prev_yes: Binary64,
    pub new_yes: Binary64,
    pub verdict: LeadLag,
}

/// One line of a comparison.
#[derive(Debug)]
pub struct CompareLine {
    pub record: CompareRecord,
    /// Whether the index is at the strike or above.
    pub above_strike: bool,
    /// Whether the index made a large move a short time ago.
    pub recent_move: bool,
}

/// Who moved first, given the last large move of the index.
pub open spec fn lead_lag(
    move_ms: Option<u64>,
    move_delta: Binary64,
    prev_yes: Binary64,
    new_yes: Binary64,
    now_ms: u64,
) -> LeadLag {
    match move_ms {
        None => LeadLag::NoMove,
        Some(ms) => {
            let age = clock::monus(now_ms as int, ms as int);
            let same_way = prev_yes.less(new_yes) == Binary64::whole(0).less(move_delta);
            if age > LEAD_WINDOW_MS {
                LeadLag::OldMove
            } else if same_way && ms <= now_ms {
                LeadLag::IndexLeads { delta: move_delta, age_ms: age as u64 }
            } else {
                LeadLag::MarketLeads {
                    delta: move_delta,
                    behind_ms: clock::monus(ms as int, now_ms as int) as u64,
                }
            }
        },
    }
}

/// The price of a market the last time it was seen.
pub open spec fn previous_price(prices: Map<Seq<char>, Binary64>, market: KalshiMarket) -> Binary64 {
    if prices.contains_key(market.ticker@) {
        prices[market.ticker@]
    } else {
        market.yes_price
    }
}

/// The prices after a row of markets has been seen.
pub open spec fn prices_after(
    prices: Map<Seq<char>, Binary64>,
    markets: Seq<KalshiMarket>,
) -> Map<Seq<char>, Binary64>
    decreases markets.len(),
{
    if markets.len() == 0 {
        prices
    } else {
        prices_after(prices, markets.drop_last()).insert(
            markets.last().ticker@,
            markets.last().yes_price,
        )
    }
}

/// The markets of a row whose price changed by more than a cent.
pub open spec fn reprices(
    prices: Map<Seq<char>, Binary64>,
    markets: Seq<KalshiMarket>,
    move_ms: Option<u64>,
    move_delta: Binary64,
    now_ms: u64,
) -> Seq<Reprice>
    decreases markets.len(),
{
    if markets.len() == 0 {
        Seq::empty()
    } else {
        let rest = markets.drop_last();
        let found = reprices(prices, rest, move_ms, move_delta, now_ms);
        let market = markets.last();
        let prev_yes = previous_price(prices_after(prices, rest), market);
        if Binary64::whole(1).less(market.yes_price.difference(prev_yes).absolute()) {
            found.push(
                Reprice {
                    ticker: market.ticker,
                    prev_yes,
                    new_yes: market.yes_price,
                    verdict: lead_lag(move_ms, move_delta, prev_yes, market.yes_price, now_ms),
                },
            )
        } else {
            found
        }
    }
}

/// What the comparison remembers, as values.
#[verifier::ext_equal]
pub struct Comparison {
    pub last_printed_brti: Binary64,
    pub last_print_ms: u64,
    /// The price of each market when it was last seen.
    pub prices: Map<Seq<char>, Binary64>,
    /// When the index last made a large move.
    pub move_ms: Option<u64>,
    pub move_delta: Binary64,
    pub prev_brti: Binary64,
}

impl Comparison {
    /// The memory before any estimate.
    pub open spec fn fresh() -> Comparison {
        Comparison {
            last_printed_brti: Binary64::whole(0),
            last_print_ms: 0,
            prices: Map::empty(),
            move_ms: None,
            move_delta: Binary64::whole(0),
            prev_brti: Binary64::whole(0),
        }
    }

    /// Whether an estimate is a large move from the one before.
    pub open spec fn moves(self, value: Binary64) -> bool {
        !self.prev_brti.same(Binary64::whole(0)) && Binary64::whole(10).less(
            value.difference(self.prev_brti).absolute(),
        )
    }

    /// Whether a comparison is due.
    pub open spec fn due(self, value: Binary64, now_ms: u64) -> bool {
        Binary64::whole(5).less(value.difference(self.last_printed_brti).absolute())
            || clock::monus(now_ms as int, self.last_print_ms as int) >= COMPARE_INTERVAL_MS
    }

    /// What is remembered after an estimate and a row of markets.
    pub open spec fn updated(
        self,
        value: Binary64,
        markets: Seq<KalshiMarket>,
        now_ms: u64,
    ) -> Comparison {
        Comparison {
            last_printed_brti: if self.due(value, now_ms) {
                value
            } else {
                self.last_printed_brti
            },
            last_print_ms: if self.due(value, now_ms) {
                now_ms
            } else {
                self.last_print_ms
            },
            prices: prices_after(self.prices, markets),
            move_ms: if self.moves(value) {
                Some(now_ms)
            } else {
                self.move_ms
            },
            move_delta: if self.moves(value) {
                value.difference(self.prev_brti)
            } else {
                self.move_delta
            },
            prev_brti: value,
        }
    }

    /// Whether the index made a large move a short time ago.
    pub open spec fn recent_move(self, now_ms: u64) -> bool {
        match self.move_ms {
            Some(ms) => clock::monus(now_ms as int, ms as int) <= LEAD_WINDOW_MS,
            None => false,
        }
    }
}

/// Whether a line compares an estimate with a market.
pub open spec fn is_line(
    line: CompareLine,
    memory: Comparison,
    estimate: BrtiEstimate,
    market: KalshiMarket,
    dir: Direction,
    vel: Binary64,
    now_ms: u64,
) -> bool {
    let delta = estimate.value.difference(market.strike);
    &&& line.above_strike == Binary64::whole(0).at_most(delta)
    &&& line.recent_move == memory.recent_move(now_ms)
    &&& line.record.timestamp_ms == now_ms
    &&& line.record.brti_est == estimate.value
    &&& line.record.confidence == estimate.confidence
    &&& line.record.ticker == market.ticker
    &&& line.record.strike == market.strike
    &&& line.record.yes_price == market.yes_price
    &&& line.record.no_price == market.no_price
    &&& line.record.synthetic == market.synthetic
    &&& line.record.delta_from_strike == delta
    &&& line.record.direction@ == report::direction_name(dir)
    &&& line.record.velocity == vel
}

/// Whether a row of lines compares an estimate with a row of markets, one line for each.
pub open spec fn are_lines(
    lines: Seq<CompareLine>,
    memory: Comparison,
    estimate: BrtiEstimate,
    markets: Seq<KalshiMarket>,
    dir: Direction,
    vel: Binary64,
    now_ms: u64,
) -> bool {
    &&& lines.len() == markets.len()
    &&& forall|i: int|
        0 <= i < lines.len() ==> is_line(
            #[trigger] lines[i],
            memory,
            estimate,
            markets[i],
            dir,
            vel,
            now_ms,
        )
}

/// The last moves of the index and the last prices of the markets.
pub struct CompareTracker {
    pub last_printed_brti: Binary64,
    pub last_print_ms: u64,
    pub last_kalshi_yes: TickerMap<Binary64>,
    pub last_brti_move_ms: Option<u64>,
    pub last_brti_move_delta: Binary64,
    pub prev_brti: Binary64,
}

impl View for CompareTracker {
    type V = Comparison;

    open spec fn view(&self) -> Comparison {
        Comparison {
            last_printed_brti: self.last_printed_brti,
            last_print_ms: self.last_print_ms,
            prices: self.last_kalshi_yes@,
            move_ms: self.last_brti_move_ms,
            move_delta: self.last_brti_move_delta,
            prev_brti: self.prev_brti,
        }
    }
}

/// Who moved first, given the last large move of the index.
pub fn lead_lag_verdict(
    move_ms: Option<u64>,
    move_delta: Binary64,
    prev_yes: Binary64,
    new_yes: Binary64,
    now_ms: u64,
) -> (r: LeadLag)
    ensures
        r == lead_lag(move_ms, move_delta, prev_yes, new_yes, now_ms),
{
    let same_way = prev_yes.lt(new_yes) == Binary64::from_u64(0).lt(move_delta);
    match move_ms {
        None => LeadLag::NoMove,
        Some(ms) => {
            let age_ms: u64 = clock::elapsed_ms(now_ms, ms);
            if age_ms > LEAD_WINDOW_MS {
                LeadLag::OldMove
            } else if same_way && ms <= now_ms {
                LeadLag::IndexLeads { delta: move_delta, age_ms }
            } else {
                LeadLag::MarketLeads {
                    delta: move_delta,
                    behind_ms: clock::elapsed_ms(ms, now_ms),
                }
            }
        },
    }
}

impl CompareTracker {
    /// The table of prices is in order.
    pub open spec fn wf(self) -> bool {
        self.last_kalshi_yes.wf()
    }

    /// Nothing seen yet.
    pub fn new() -> (r: Self)
        ensures
            r.wf(),
            r@ == Comparison::fresh(),
    {
        CompareTracker {
            last_printed_brti: Binary64::from_u64(0),
            last_print_ms: 0,
            last_kalshi_yes: TickerMap::new(),
            last_brti_move_ms: None,
            last_brti_move_delta: Binary64::from_u64(0),
            prev_brti: Binary64::from_u64(0),
        }
    }

    /// Takes in an estimate and the markets: the markets that were repriced, and whether a
    /// comparison is due.
    pub fn update(
        &mut self,
        estimate: &BrtiEstimate,
        markets: &Vec<KalshiMarket>,
        now_ms: u64,
    ) -> (r: (Vec<Reprice>, bool))
        requires
            old(self).wf(),
        ensures
            final(self).wf(),
            final(self)@ == old(self)@.updated(estimate.value, markets@, now_ms),
            r.0@ == reprices(
                old(self)@.prices,
                markets@,
                final(self)@.move_ms,
                final(self)@.move_delta,
                now_ms,
            ),
            r.1 == old(self)@.due(estimate.value, now_ms),
    {
        let ghost before = self@;
        let tick_delta: Binary64 = estimate.value.sub(self.prev_brti);
        if !self.prev_brti.equals(Binary64::from_u64(0)) && Binary64::from_u64(10).lt(
            tick_delta.abs(),
        ) {
            self.last_brti_move_ms = Some(now_ms);
            self.last_brti_move_delta = tick_delta;
        }
        self.prev_brti = estimate.value;
        let ghost middle = self@;
        let mut found: Vec<Reprice> = Vec::new();
        let mut i: usize = 0;
        proof {
            assert(markets@.take(0) == Seq::<KalshiMarket>::empty());
        }
        while i < markets.len()
            invariant
                i <= markets@.len(),
                self.wf(),
                self@ == (Comparison {
                    prices: prices_after(before.prices, markets@.take(i as int)),
                    ..middle
                }),
                found@ == reprices(
                    before.prices,
                    markets@.take(i as int),
                    middle.move_ms,
                    middle.move_delta,
                    now_ms,
                ),
            decreases markets.len() - i,
        {
            let market: &KalshiMarket = &markets[i];
            proof {
                assert(markets@.take(i + 1).drop_last() == markets@.take(i as int));
                assert(markets@.take(i + 1).last() == *market);
            }
            let prev_yes: Binary64 = match self.last_kalshi_yes.get(market.ticker.as_str()) {
                Some(price) => *price,
                None => market.yes_price,
            };
            if Binary64::from_u64(1).lt(market.yes_price.sub(prev_yes).abs()) {
                let verdict: LeadLag = lead_lag_verdict(
                    self.last_brti_move_ms,
                    self.last_brti_move_delta,
                    prev_yes,
                    market.yes_price,
                    now_ms,
                );
                found.push(
                    Reprice {
                        ticker: market.ticker.clone(),
                        prev_yes,
                        new_yes: market.yes_price,
                        verdict,
                    },
                );
            }
            self.last_kalshi_yes.insert(market.ticker.clone(), market.yes_price);
            i = i + 1;
        }
        proof {
            assert(markets@.take(i as int) == markets@);
        }
        let price_moved = Binary64::from_u64(5).lt(
            estimate.value.sub(self.last_printed_brti).abs(),
        );
        let time_elapsed = clock::elapsed_ms(now_ms, self.last_print_ms) >= COMPARE_INTERVAL_MS;
        let due = price_moved || time_elapsed;
        if due {
            self.last_printed_brti = estimate.value;
            self.last_print_ms = now_ms;
        }
        proof {
            assert(self@ =~= before.updated(estimate.value, markets@, now_ms));
        }
        (found, due)
    }

    /// The lines of a comparison, one for each market.
    pub fn compare_lines(
        &self,
        estimate: &BrtiEstimate,
        markets: &Vec<KalshiMarket>,
        dir: &Direction,
        vel: Binary64,
        now_ms: u64,
    ) -> (r: Vec<CompareLine>)
        ensures
            are_lines(r@, self@, *estimate, markets@, *dir, vel, now_ms),
    {
        let recent_move = match self.last_brti_move_ms {
            Some(ms) => clock::elapsed_ms(now_ms, ms) <= LEAD_WINDOW_MS,
            None => false,
        };
        let mut r: Vec<CompareLine> = Vec::new();
        let mut i: usize = 0;
        while i < markets.len()
            invariant
                i <= markets@.len(),
                r@.len() == i,
                recent_move == self@.recent_move(now_ms),
                forall|j: int|
                    0 <= j < r@.len() ==> is_line(
                        #[trigger] r@[j],
                        self@,
                        *estimate,
                        markets@[j],
                        *dir,
                        vel,
                        now_ms,
                    ),
            decreases markets.len() - i,
        {
            let market: &KalshiMarket = &markets[i];
            let delta: Binary64 = estimate.value.sub(market.strike);
            r.push(
                CompareLine {
                    record: CompareRecord {
                        timestamp_ms: now_ms,
                        brti_est: estimate.value,
                        confidence: estimate.confidence,
                        ticker: market.ticker.clone(),
                        strike: market.strike,
                        yes_price: market.yes_price,
                        no_price: market.no_price,
                        synthetic: market.synthetic,
                        delta_from_strike: delta,
                        direction: report::direction_str(dir).to_owned(),
                        velocity: vel,
                    },
                    above_strike: Binary64::from_u64(0).le(delta),
                    recent_move,
                },
            );
            i = i + 1;
        }
        r
    }
}

/// After an update every market of the row stands at the price that it was last given, so that the
/// same row again reprices nothing, where no ticker stands in it twice and no price is infinite or
/// a NaN.
pub proof fn lemma_same_prices_reprice_nothing(
    prices: Map<Seq<char>, Binary64>,
    markets: Seq<KalshiMarket>,
    move_ms: Option<u64>,
    move_delta: Binary64,
    now_ms: u64,
)
    requires
        forall|i: int|
            0 <= i < markets.len() ==> prices.contains_key((#[trigger] markets[i]).ticker@)
                && prices[markets[i].ticker@] == markets[i].yes_price
                && markets[i].yes_price.finite(),
        forall|i: int, j: int|
            0 <= i < j < markets.len() ==> (#[trigger] markets[i]).ticker@ != (
            #[trigger] markets[j]).ticker@,
    ensures
        reprices(prices, markets, move_ms, move_delta, now_ms) == Seq::<Reprice>::empty(),
        prices_after(prices, markets) == prices,
    decreases markets.len(),
{
    if markets.len() > 0 {
        let rest = markets.drop_last();
        let market = markets.last();
        assert(markets[markets.len() - 1] == market);
        assert forall|i: int| 0 <= i < rest.len() implies prices.contains_key(
            (#[trigger] rest[i]).ticker@,
        ) && prices[rest[i].ticker@] == rest[i].yes_price && rest[i].yes_price.finite() by {
            assert(rest[i] == markets[i]);
        }
        assert forall|i: int, j: int| 0 <= i < j < rest.len() implies (
        #[trigger] rest[i]).ticker@ != (#[trigger] rest[j]).ticker@ by {
            assert(rest[i] == markets[i] && rest[j] == markets[j]);
        }
        lemma_same_prices_reprice_nothing(prices, rest, move_ms, move_delta, now_ms);
        let p = market.yes_price;
        laws::lemma_whole_exact(1);
        assert(p.difference(p).magnitude() == 0);
        assert(prices_after(prices, markets) =~= prices);
    }
}

} // verus!
