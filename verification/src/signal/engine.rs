//! Which markets are worth a bet on an estimate.

use crate::clock;
use crate::numeric::binary64::Binary64;
use crate::signal::delta;
use crate::signal::delta::BrtiDeltaDetector;
use crate::signal::probability;
use crate::signal::spike;
use crate::signal::spike::SpikeDetector;
use crate::ticker_map::TickerMap;
use crate::types::{
    BrtiEstimate,
    Direction,
    KalshiMarket,
    Signal,
    TradeOpportunity,
    TradeSide,
};
use vstd::prelude::*;

verus! {

/// How often in a row a direction has to show before it is acted on.
pub const DIRECTION_CONFIRMS: u8 = 2;

/// A market that closes sooner than this is left alone.
pub const MIN_TO_CLOSE_MS: u64 = 300_000;

/// A ticker with an opportunity gets no other for this long.
pub const TICKER_COOLDOWN_MS: u64 = 30_000;

/// How long the window of the spike detector is.
pub const SPIKE_WINDOW_SECS: u64 = 30;

/// What the engine remembers, as values.
#[verifier::ext_equal]
pub struct Memory {
    pub samples: Seq<BrtiEstimate>,
    pub spike_samples: Seq<BrtiEstimate>,
    /// When each ticker last had an opportunity.
    pub last_opportunity: Map<Seq<char>, u64>,
    pub last_delta_pct: Binary64,
    pub last_velocity: Binary64,
    pub last_model_prob: Binary64,
    pub last_direction: Direction,
    /// The direction that is being confirmed.
    pub confirming: Option<Direction>,
    pub confirm_count: u8,
}

/// The direction that two detectors agree on: a neutral one has no say, and a conflict is neutral.
pub open spec fn agreed(a: Direction, b: Direction) -> Direction {
    if a == b || b == Direction::Neutral {
        a
    } else if a == Direction::Neutral {
        b
    } else {
        Direction::Neutral
    }
}

impl Memory {
    /// The memory before any estimate.
    pub open spec fn fresh() -> Memory {
        Memory {
            samples: Seq::empty(),
            spike_samples: Seq::empty(),
            last_opportunity: Map::empty(),
            last_delta_pct: Binary64::whole(0),
            last_velocity: Binary64::whole(0),
            last_model_prob: Binary64::whole(0),
            last_direction: Direction::Neutral,
            confirming: None,
            confirm_count: 0,
        }
    }

    /// Where the momentum points after an estimate has been taken in.
    pub open spec fn direction_after(self, estimate: BrtiEstimate) -> Direction {
        agreed(
            spike::spike(
                spike::spike_window(self.spike_samples, estimate, SPIKE_WINDOW_SECS as int),
                Binary64::whole(15),
                Binary64::whole(25),
            ),
            delta::trend(delta::sampled(self.samples, estimate), Binary64::ratio(1, 100)),
        )
    }

    /// How often in a row a direction has shown, with this time.
    pub open spec fn confirms(self, direction: Direction) -> u8 {
        if direction == Direction::Neutral {
            0
        } else if self.confirming == Some(direction) {
            if self.confirm_count < u8::MAX {
                (self.confirm_count + 1) as u8
            } else {
                u8::MAX
            }
        } else {
            1
        }
    }

    /// The memory after an estimate has been taken in, before any market is looked at.
    pub open spec fn observed(self, estimate: BrtiEstimate) -> Memory {
        let samples = delta::sampled(self.samples, estimate);
        let spike_samples = spike::spike_window(
            self.spike_samples,
            estimate,
            SPIKE_WINDOW_SECS as int,
        );
        let direction = self.direction_after(estimate);
        Memory {
            samples,
            spike_samples,
            last_opportunity: self.last_opportunity,
            last_delta_pct: match delta::percent_change(samples) {
                Some(d) => d,
                None => Binary64::whole(0),
            },
            last_velocity: spike::net_move(spike_samples),
            last_model_prob: Binary64::whole(0),
            last_direction: direction,
            confirming: if direction == Direction::Neutral {
                None
            } else {
                Some(direction)
            },
            confirm_count: self.confirms(direction),
        }
    }

    /// Whether the momentum has been confirmed often enough to act on it.
    pub open spec fn acts(self) -> bool {
        self.last_direction != Direction::Neutral && self.confirm_count >= DIRECTION_CONFIRMS
    }
}

/// Whether a market is looked at: it has time to go, prices, and a strike within 30 dollars of the
/// estimate.
pub open spec fn in_scope(market: KalshiMarket, estimate: BrtiEstimate, now_ms: u64) -> bool {
    &&& clock::monus(market.closes_at as int, now_ms as int) >= MIN_TO_CLOSE_MS
    &&& !market.yes_price.same(Binary64::whole(0))
    &&& !market.no_price.same(Binary64::whole(0))
    &&& !Binary64::whole(30).less(estimate.value.difference(market.strike).absolute())
}

/// The logit of the model for a market.
pub open spec fn market_logit(
    market: KalshiMarket,
    estimate: BrtiEstimate,
    velocity: Binary64,
    now_ms: u64,
) -> Binary64 {
    probability::logit(
        estimate.value,
        market.strike,
        Binary64::whole(clock::monus(market.closes_at as int, now_ms as int)).quotient(
            Binary64::whole(1000),
        ),
        velocity,
    )
}

/// The side of a bet in a direction.
pub open spec fn bet_side(direction: Direction) -> TradeSide {
    match direction {
        Direction::Up => TradeSide::Yes,
        _ => TradeSide::No,
    }
}

/// The price of the side that is bet on.
pub open spec fn bet_price(market: KalshiMarket, direction: Direction) -> Binary64 {
    match bet_side(direction) {
        TradeSide::Yes => market.yes_price,
        TradeSide::No => market.no_price,
    }
}

/// The probability that a bet in a direction wins, given the exponential of minus the logit.
pub open spec fn win_probability(
    direction: Direction,
    estimate: BrtiEstimate,
    exp_minus_logit: Binary64,
) -> Binary64 {
    let yes = probability::discounted(exp_minus_logit, estimate.confidence);
    match bet_side(direction) {
        TradeSide::Yes => yes,
        TradeSide::No => Binary64::whole(1).difference(yes),
    }
}

/// The edge of a bet over the market.
pub open spec fn bet_edge(
    market: KalshiMarket,
    direction: Direction,
    estimate: BrtiEstimate,
    exp_minus_logit: Binary64,
) -> Binary64 {
    win_probability(direction, estimate, exp_minus_logit).difference(
        probability::implied(bet_price(market, direction)),
    )
}

/// The opportunity of a bet.
pub open spec fn opportunity(
    market: KalshiMarket,
    direction: Direction,
    estimate: BrtiEstimate,
    now_ms: u64,
    exp_minus_logit: Binary64,
) -> TradeOpportunity {
    let price = bet_price(market, direction);
    let model_prob = win_probability(direction, estimate, exp_minus_logit);
    TradeOpportunity {
        market,
        signal: Signal {
            direction,
            confidence: model_prob,
            brti_est: estimate,
            generated_at: now_ms,
        },
        side: bet_side(direction),
        edge: bet_edge(market, direction, estimate, exp_minus_logit),
        kelly_fraction: probability::kelly(
            model_prob,
            Binary64::whole(100).difference(price).quotient(price),
            Binary64::ratio(25, 100),
        ),
    }
}

impl Memory {
    /// Whether a ticker had an opportunity too short a time ago.
    pub open spec fn cooling(self, ticker: Seq<char>, timestamp: u64) -> bool {
        self.last_opportunity.contains_key(ticker) && clock::monus(
            timestamp as int,
            self.last_opportunity[ticker] as int,
        ) < TICKER_COOLDOWN_MS
    }

    /// Whether the bet on a market takes its ticker's turn.
    pub open spec fn takes_turn(
        self,
        market: KalshiMarket,
        estimate: BrtiEstimate,
        exp_minus_logit: Binary64,
    ) -> bool {
        &&& !bet_edge(market, self.last_direction, estimate, exp_minus_logit).less(
            Binary64::ratio(5, 100),
        )
        &&& !self.cooling(market.ticker@, estimate.timestamp)
    }

    /// The memory after a market in scope has been looked at.
    pub open spec fn weighed(
        self,
        market: KalshiMarket,
        estimate: BrtiEstimate,
        exp_minus_logit: Binary64,
    ) -> Memory {
        Memory {
            last_model_prob: win_probability(self.last_direction, estimate, exp_minus_logit),
            last_opportunity: if self.takes_turn(market, estimate, exp_minus_logit) {
                self.last_opportunity.insert(market.ticker@, estimate.timestamp)
            } else {
                self.last_opportunity
            },
            ..self
        }
    }

    /// The opportunity on a market in scope, if there is one.
    pub open spec fn offer(
        self,
        market: KalshiMarket,
        estimate: BrtiEstimate,
        now_ms: u64,
        exp_minus_logit: Binary64,
    ) -> Option<TradeOpportunity> {
        let price = bet_price(market, self.last_direction);
        if self.takes_turn(market, estimate, exp_minus_logit) && !price.at_most(Binary64::whole(0))
            && !Binary64::whole(100).at_most(price) {
            Some(opportunity(market, self.last_direction, estimate, now_ms, exp_minus_logit))
        } else {
            None
        }
    }

    /// The memory after a row of markets has been looked at, and the opportunities on them, given
    /// the exponentials of minus their logits.
    pub open spec fn scanned(
        self,
        markets: Seq<KalshiMarket>,
        exps: Seq<Binary64>,
        estimate: BrtiEstimate,
        now_ms: u64,
    ) -> (Memory, Seq<TradeOpportunity>)
        decreases markets.len(),
    {
        if markets.len() == 0 {
            (self, Seq::empty())
        } else {
            let (memory, found) = self.scanned(markets.drop_last(), exps, estimate, now_ms);
            let market = markets.last();
            let e = exps[markets.len() - 1];
            if in_scope(market, estimate, now_ms) {
                (
                    memory.weighed(market, estimate, e),
                    match memory.offer(market, estimate, now_ms, e) {
                        Some(opp) => found.push(opp),
                        None => found,
                    },
                )
            } else {
                (memory, found)
            }
        }
    }
}

/// Whether a memory and a row of opportunities are what an estimate leads to, given an exponential for
/// each market; those of the markets in scope are the function's own.
pub open spec fn ingested<F: Fn(Binary64) -> Binary64>(
    before: Memory,
    estimate: BrtiEstimate,
    markets: Seq<KalshiMarket>,
    now_ms: u64,
    exp: F,
    exps: Seq<Binary64>,
    after: Memory,
    found: Seq<TradeOpportunity>,
) -> bool {
    let seen = before.observed(estimate);
    if seen.acts() {
        &&& exps.len() == markets.len()
        &&& forall|i: int|
            0 <= i < markets.len() && in_scope(#[trigger] markets[i], estimate, now_ms)
                ==> call_ensures(
                exp,
                (market_logit(markets[i], estimate, seen.last_velocity, now_ms).negated(),),
                exps[i],
            )
        &&& (after, found) == seen.scanned(markets, exps, estimate, now_ms)
    } else {
        after == seen && found.len() == 0
    }
}

/// The momentum detectors and what they have led to.
pub struct SignalEngine {
    delta: BrtiDeltaDetector,
    spike: SpikeDetector,
    ticker_last_opp_ms: TickerMap<u64>,
    last_delta_pct: Binary64,
    last_velocity: Binary64,
    last_model_prob: Binary64,
    last_direction: Direction,
    last_non_neutral_direction: Option<Direction>,
    direction_confirm_count: u8,
}

impl View for SignalEngine {
    type V = Memory;

    closed spec fn view(&self) -> Memory {
        Memory {
            samples: self.delta@,
            spike_samples: self.spike@,
            last_opportunity: self.ticker_last_opp_ms@,
            last_delta_pct: self.last_delta_pct,
            last_velocity: self.last_velocity,
            last_model_prob: self.last_model_prob,
            last_direction: self.last_direction,
            confirming: self.last_non_neutral_direction,
            confirm_count: self.direction_confirm_count,
        }
    }
}

/// Whether two directions are the same.
pub fn same_direction(a: &Direction, b: &Direction) -> (r: bool)
    ensures
        r == (a == b),
{
    *a == *b
}

impl SignalEngine {
    /// The tables are in order, and the detectors are set as the engine sets them.
    pub closed spec fn wf(self) -> bool {
        &&& self.delta.wf()
        &&& self.ticker_last_opp_ms.wf()
        &&& self.spike.window_secs == SPIKE_WINDOW_SECS
        &&& self.spike.up_threshold_dollars == Binary64::whole(15)
        &&& self.spike.down_threshold_dollars == Binary64::whole(25)
    }

    /// An engine that has seen nothing.
    pub fn new() -> (r: Self)
        ensures
            r.wf(),
            r@ == Memory::fresh(),
    {
        SignalEngine {
            delta: BrtiDeltaDetector::new(),
            spike: SpikeDetector::new(
                SPIKE_WINDOW_SECS,
                Binary64::from_u64(15),
                Binary64::from_u64(25),
            ),
            ticker_last_opp_ms: TickerMap::new(),
            last_delta_pct: Binary64::from_u64(0),
            last_velocity: Binary64::from_u64(0),
            last_model_prob: Binary64::from_u64(0),
            last_direction: Direction::Neutral,
            last_non_neutral_direction: None,
            direction_confirm_count: 0,
        }
    }

    /// The change over the latest estimates in percent, as of the last estimate.
    pub fn last_delta_pct(&self) -> (r: Binary64)
        ensures
            r == self@.last_delta_pct,
    {
        self.last_delta_pct
    }

    /// The move within the spike window in dollars, as of the last estimate.
    pub fn last_velocity(&self) -> (r: Binary64)
        ensures
            r == self@.last_velocity,
    {
        self.last_velocity
    }

    /// The probability that the last bet wins, as the model sees it; zero where no market was in
    /// scope.
    pub fn last_model_prob(&self) -> (r: Binary64)
        ensures
            r == self@.last_model_prob,
    {
        self.last_model_prob
    }

    /// Where the momentum points, as of the last estimate.
    pub fn last_direction(&self) -> (r: &Direction)
        ensures
            *r == self@.last_direction,
    {
        &self.last_direction
    }

    /// Takes an estimate into the detectors, and says whether the momentum is acted on.
    pub fn observe(&mut self, estimate: &BrtiEstimate) -> (r: bool)
        requires
            old(self).wf(),
        ensures
            final(self).wf(),
            final(self)@ == old(self)@.observed(*estimate),
            r == final(self)@.acts(),
    {
        let ghost before = self@;
        self.delta.push(*estimate);
        self.spike.push(*estimate);
        let delta_direction: Direction = self.delta.direction(Binary64::from_ratio(1, 100));
        let spike_direction: Direction = self.spike.direction();
        let direction: Direction = match (spike_direction, delta_direction) {
            (Direction::Up, Direction::Up) => Direction::Up,
            (Direction::Up, Direction::Neutral) => Direction::Up,
            (Direction::Neutral, Direction::Up) => Direction::Up,
            (Direction::Down, Direction::Down) => Direction::Down,
            (Direction::Down, Direction::Neutral) => Direction::Down,
            (Direction::Neutral, Direction::Down) => Direction::Down,
            _ => Direction::Neutral,
        };
        self.last_delta_pct = match self.delta.delta_pct() {
            Some(d) => d,
            None => Binary64::from_u64(0),
        };
        self.last_velocity = self.spike.delta();
        self.last_model_prob = Binary64::from_u64(0);
        self.last_direction = direction;
        if same_direction(&direction, &Direction::Neutral) {
            self.last_non_neutral_direction = None;
            self.direction_confirm_count = 0;
            proof {
                assert(self@ =~= before.observed(*estimate));
            }
            return false;
        }
        let confirmed = match self.last_non_neutral_direction {
            Some(prev) => same_direction(&prev, &direction),
            None => false,
        };
        if confirmed {
            self.direction_confirm_count = self.direction_confirm_count.saturating_add(1);
        } else {
            self.last_non_neutral_direction = Some(direction);
            self.direction_confirm_count = 1;
        }
        proof {
            assert(self@ =~= before.observed(*estimate));
        }
        self.direction_confirm_count >= DIRECTION_CONFIRMS
    }

    /// Looks at a market in scope, given the exponential of minus its logit.
    pub fn weigh(
        &mut self,
        market: &KalshiMarket,
        estimate: &BrtiEstimate,
        now_ms: u64,
        exp_minus_logit: Binary64,
    ) -> (r: Option<TradeOpportunity>)
        requires
            old(self).wf(),
            old(self)@.last_direction != Direction::Neutral,
        ensures
            final(self).wf(),
            final(self)@ == old(self)@.weighed(*market, *estimate, exp_minus_logit),
            r == old(self)@.offer(*market, *estimate, now_ms, exp_minus_logit),
    {
        let ghost before = self@;
        let direction: Direction = self.last_direction;
        let yes_prob: Binary64 = probability::discounted_probability(
            exp_minus_logit,
            estimate.confidence,
        );
        let (side, price_cents, model_prob): (TradeSide, Binary64, Binary64) = match direction {
            Direction::Up => (TradeSide::Yes, market.yes_price, yes_prob),
            _ => (TradeSide::No, market.no_price, Binary64::from_u64(1).sub(yes_prob)),
        };
        self.last_model_prob = model_prob;
        let edge: Binary64 = model_prob.sub(probability::implied_probability(price_cents));
        if edge.lt(Binary64::from_ratio(5, 100)) {
            proof {
                assert(self@ =~= before.weighed(*market, *estimate, exp_minus_logit));
            }
            return None;
        }
        match self.ticker_last_opp_ms.get(market.ticker.as_str()) {
            Some(last_ms) => {
                if clock::elapsed_ms(estimate.timestamp, *last_ms) < TICKER_COOLDOWN_MS {
                    proof {
                        assert(self@ =~= before.weighed(*market, *estimate, exp_minus_logit));
                    }
                    return None;
                }
            },
            None => {},
        }
        self.ticker_last_opp_ms.insert(market.ticker.clone(), estimate.timestamp);
        proof {
            assert(self@ =~= before.weighed(*market, *estimate, exp_minus_logit));
        }
        if price_cents.le(Binary64::from_u64(0)) || Binary64::from_u64(100).le(price_cents) {
            return None;
        }
        let odds: Binary64 = Binary64::from_u64(100).sub(price_cents).div(price_cents);
        let kelly: Binary64 = probability::kelly_fraction(
            model_prob,
            odds,
            Binary64::from_ratio(25, 100),
        );
        Some(
            TradeOpportunity {
                market: market.clone(),
                signal: Signal {
                    direction,
                    confidence: model_prob,
                    brti_est: *estimate,
                    generated_at: now_ms,
                },
                side,
                edge,
                kelly_fraction: kelly,
            },
        )
    }

    /// Takes an estimate in and looks at the markets: the opportunities whose edge clears the
    /// minimum. `exp` is the exponential function.
    pub fn ingest<F: Fn(Binary64) -> Binary64>(
        &mut self,
        estimate: BrtiEstimate,
        markets: &Vec<KalshiMarket>,
        now_ms: u64,
        exp: F,
    ) -> (r: Vec<TradeOpportunity>)
        requires
            old(self).wf(),
            forall|x: Binary64| call_requires(exp, (x,)),
        ensures
            final(self).wf(),
            exists|exps: Seq<Binary64>| #[trigger]
                ingested(
                    old(self)@,
                    estimate,
                    markets@,
                    now_ms,
                    exp,
                    exps,
                    final(self)@,
                    r@,
                ),
    {
        let mut opportunities: Vec<TradeOpportunity> = Vec::new();
        let acts = self.observe(&estimate);
        let ghost seen = self@;
        let ghost mut exps: Seq<Binary64> = Seq::empty();
        if !acts {
            proof {
                assert(ingested(
                    old(self)@,
                    estimate,
                    markets@,
                    now_ms,
                    exp,
                    exps,
                    self@,
                    opportunities@,
                ));
            }
            return opportunities;
        }
        let mut i: usize = 0;
        proof {
            assert(markets@.take(0) == Seq::<KalshiMarket>::empty());
        }
        while i < markets.len()
            invariant
                i <= markets@.len(),
                self.wf(),
                forall|x: Binary64| call_requires(exp, (x,)),
                seen.last_direction != Direction::Neutral,
                self@.last_direction == seen.last_direction,
                self@.last_velocity == seen.last_velocity,
                exps.len() == i,
                forall|j: int|
                    0 <= j < i && in_scope(#[trigger] markets@[j], estimate, now_ms)
                        ==> call_ensures(
                        exp,
                        (market_logit(
                            markets@[j],
                            estimate,
                            seen.last_velocity,
                            now_ms,
                        ).negated(),),
                        exps[j],
                    ),
                (self@, opportunities@) == seen.scanned(
                    markets@.take(i as int),
                    exps,
                    estimate,
                    now_ms,
                ),
            decreases markets.len() - i,
        {
            let market: &KalshiMarket = &markets[i];
            let ghost so_far = markets@.take(i as int);
            let ghost before = exps;
            proof {
                assert(markets@.take(i + 1).drop_last() == so_far);
                assert(markets@.take(i + 1).last() == *market);
            }
            if is_in_scope(market, &estimate, now_ms) {
                let seconds_to_close: Binary64 = Binary64::from_u64(
                    clock::elapsed_ms(market.closes_at, now_ms),
                ).div(Binary64::from_u64(1000));
                let z: Binary64 = probability::model_logit(
                    estimate.value,
                    market.strike,
                    seconds_to_close,
                    self.last_velocity,
                );
                let e: Binary64 = exp(z.neg());
                proof {
                    exps = exps.push(e);
                    lemma_scanned_prefix(seen, so_far, before, exps, estimate, now_ms);
                }
                match self.weigh(market, &estimate, now_ms, e) {
                    Some(opp) => {
                        opportunities.push(opp);
                    },
                    None => {},
                }
            } else {
                proof {
                    exps = exps.push(Binary64::whole(0));
                    lemma_scanned_prefix(seen, so_far, before, exps, estimate, now_ms);
                }
            }
            i = i + 1;
        }
        proof {
            assert(markets@.take(i as int) == markets@);
            assert(ingested(
                old(self)@,
                estimate,
                markets@,
                now_ms,
                exp,
                exps,
                self@,
                opportunities@,
            ));
        }
        opportunities
    }
}

/// Whether a market is looked at.
pub fn is_in_scope(market: &KalshiMarket, estimate: &BrtiEstimate, now_ms: u64) -> (r: bool)
    ensures
        r == in_scope(*market, *estimate, now_ms),
{
    if clock::elapsed_ms(market.closes_at, now_ms) < MIN_TO_CLOSE_MS {
        return false;
    }
    let zero: Binary64 = Binary64::from_u64(0);
    if market.yes_price.equals(zero) || market.no_price.equals(zero) {
        return false;
    }
    let distance: Binary64 = estimate.value.sub(market.strike).abs();
    !Binary64::from_u64(30).lt(distance)
}

/// What is found on a row of markets depends on no exponentials but theirs.
proof fn lemma_scanned_prefix(
    memory: Memory,
    markets: Seq<KalshiMarket>,
    exps: Seq<Binary64>,
    more: Seq<Binary64>,
    estimate: BrtiEstimate,
    now_ms: u64,
)
    requires
        exps.len() >= markets.len(),
        more.len() >= markets.len(),
        forall|i: int| 0 <= i < markets.len() ==> #[trigger] exps[i] == more[i],
    ensures
        memory.scanned(markets, exps, estimate, now_ms) == memory.scanned(
            markets,
            more,
            estimate,
            now_ms,
        ),
    decreases markets.len(),
{
    if markets.len() > 0 {
        lemma_scanned_prefix(memory, markets.drop_last(), exps, more, estimate, now_ms);
        assert(exps[markets.len() - 1] == more[markets.len() - 1]);
    }
}

} // verus!
