//! What holds of the signal engine across estimates and markets.

use crate::numeric::binary64::Binary64;
use crate::signal::engine;
use crate::signal::engine::{Memory, MIN_TO_CLOSE_MS, TICKER_COOLDOWN_MS};
use crate::types::{BrtiEstimate, Direction, KalshiMarket, TradeOpportunity};
use vstd::prelude::*;

verus! {

/// Detectors that point in opposite directions lead to no bet, and start the confirmation over.
pub proof fn lemma_conflict_is_neutral(memory: Memory, estimate: BrtiEstimate)
    ensures
        engine::agreed(Direction::Up, Direction::Down) == Direction::Neutral,
        engine::agreed(Direction::Down, Direction::Up) == Direction::Neutral,
        memory.direction_after(estimate) == Direction::Neutral ==> {
            &&& !memory.observed(estimate).acts()
            &&& memory.observed(estimate).confirm_count == 0
            &&& memory.observed(estimate).confirming is None
        },
{
}

/// A direction is acted on only where the estimate before pointed the same way: the first estimate
/// in a direction never leads to a bet.
pub proof fn lemma_direction_persists(memory: Memory, first: BrtiEstimate, second: BrtiEstimate)
    ensures
        memory.observed(first).observed(second).acts() ==> {
            &&& memory.observed(first).last_direction == memory.observed(first).observed(
                second,
            ).last_direction
            &&& memory.observed(first).last_direction != Direction::Neutral
        },
        memory.confirming is None ==> !memory.observed(first).acts(),
{
}

/// Whether an opportunity is a sound one on a row of markets: on one of them that is in scope, at
/// a price between 0 and 100 cents, with an edge of at least 5 percent, in the direction of the
/// momentum.
pub open spec fn sound(
    opp: TradeOpportunity,
    markets: Seq<KalshiMarket>,
    direction: Direction,
    estimate: BrtiEstimate,
    now_ms: u64,
) -> bool {
    let price = engine::bet_price(opp.market, direction);
    &&& markets.contains(opp.market)
    &&& engine::in_scope(opp.market, estimate, now_ms)
    &&& opp.side == engine::bet_side(direction)
    &&& !opp.edge.less(Binary64::ratio(5, 100))
    &&& !price.at_most(Binary64::whole(0))
    &&& !Binary64::whole(100).at_most(price)
    &&& opp.signal.direction == direction
    &&& opp.signal.brti_est == estimate
    &&& opp.signal.generated_at == now_ms
}

/// Each opportunity is sound, no ticker has two from one estimate, none has one while it cools
/// down, and each that has one cools down from the estimate's time on.
pub proof fn lemma_opportunities(
    memory: Memory,
    markets: Seq<KalshiMarket>,
    exps: Seq<Binary64>,
    estimate: BrtiEstimate,
    now_ms: u64,
)
    ensures
        ({
            let (after, found) = memory.scanned(markets, exps, estimate, now_ms);
            &&& after.last_direction == memory.last_direction
            &&& forall|i: int|
                0 <= i < found.len() ==> sound(
                    #[trigger] found[i],
                    markets,
                    memory.last_direction,
                    estimate,
                    now_ms,
                )
            &&& forall|i: int|
                0 <= i < found.len() ==> {
                    let ticker = (#[trigger] found[i]).market.ticker@;
                    &&& !memory.cooling(ticker, estimate.timestamp)
                    &&& after.last_opportunity.contains_key(ticker)
                    &&& after.last_opportunity[ticker] == estimate.timestamp
                }
            &&& forall|i: int, j: int|
                0 <= i < j < found.len() ==> (#[trigger] found[i]).market.ticker@ != (
                #[trigger] found[j]).market.ticker@
            &&& forall|ticker: Seq<char>| #[trigger]
                memory.cooling(ticker, estimate.timestamp) ==> after.cooling(
                    ticker,
                    estimate.timestamp,
                ) && after.last_opportunity[ticker] == memory.last_opportunity[ticker]
        }),
    decreases markets.len(),
{
    if markets.len() > 0 {
        let rest = markets.drop_last();
        lemma_opportunities(memory, rest, exps, estimate, now_ms);
        let (middle, before) = memory.scanned(rest, exps, estimate, now_ms);
        let (after, found) = memory.scanned(markets, exps, estimate, now_ms);
        let market = markets.last();
        let n = before.len() as int;
        assert forall|i: int| 0 <= i < n implies sound(
            #[trigger] found[i],
            markets,
            memory.last_direction,
            estimate,
            now_ms,
        ) by {
            assert(found[i] == before[i]);
            assert(rest.contains(before[i].market));
            let j = choose|j: int| 0 <= j < rest.len() && rest[j] == before[i].market;
            assert(markets[j] == before[i].market);
        }
        assert forall|i: int| 0 <= i < n implies ({
            let ticker = (#[trigger] found[i]).market.ticker@;
            &&& !memory.cooling(ticker, estimate.timestamp)
            &&& after.last_opportunity.contains_key(ticker)
            &&& after.last_opportunity[ticker] == estimate.timestamp
        }) by {
            assert(found[i] == before[i]);
        }
        if found.len() > n {
            assert(markets[markets.len() - 1] == market);
            assert(found[n].market == market);
            assert(!middle.cooling(market.ticker@, estimate.timestamp));
            assert(!memory.cooling(market.ticker@, estimate.timestamp));
            assert forall|i: int| 0 <= i < n implies (
            #[trigger] found[i]).market.ticker@ != market.ticker@ by {
                assert(found[i] == before[i]);
            }
        }
        assert forall|i: int, j: int| 0 <= i < j < found.len() implies (
        #[trigger] found[i]).market.ticker@ != (#[trigger] found[j]).market.ticker@ by {
            assert(found[i] == before[i]);
            if j < n {
                assert(found[j] == before[j]);
            }
        }
    }
}

/// One estimate that the engine takes in, with the markets as of then, and the exponentials of minus
/// their logits.
pub struct Call {
    pub estimate: BrtiEstimate,
    pub markets: Seq<KalshiMarket>,
    pub now_ms: u64,
    pub exps: Seq<Binary64>,
}

/// What a call leaves in memory, and what it finds.
pub open spec fn called(memory: Memory, call: Call) -> (Memory, Seq<TradeOpportunity>) {
    let seen = memory.observed(call.estimate);
    if seen.acts() {
        seen.scanned(call.markets, call.exps, call.estimate, call.now_ms)
    } else {
        (seen, Seq::empty())
    }
}

/// What an estimate leads to is what a call with its exponentials leaves and finds.
pub proof fn lemma_ingested_is_called<F: Fn(Binary64) -> Binary64>(
    before: Memory,
    estimate: BrtiEstimate,
    markets: Seq<KalshiMarket>,
    now_ms: u64,
    exp: F,
    exps: Seq<Binary64>,
    after: Memory,
    found: Seq<TradeOpportunity>,
)
    requires
        engine::ingested(before, estimate, markets, now_ms, exp, exps, after, found),
    ensures
        (after, found) == called(before, Call { estimate, markets, now_ms, exps }),
{
    assert(!before.observed(estimate).acts() ==> found =~= Seq::empty());
}

/// What a row of calls leaves in memory, and all that they find, in order.
pub open spec fn all_called(memory: Memory, calls: Seq<Call>) -> (Memory, Seq<TradeOpportunity>)
    decreases calls.len(),
{
    if calls.len() == 0 {
        (memory, Seq::empty())
    } else {
        let (before, found) = all_called(memory, calls.drop_last());
        let (after, more) = called(before, calls.last());
        (after, found + more)
    }
}

/// Over any row of estimates, two opportunities on one ticker are at least 30 seconds apart by the
/// times of their estimates. Estimates may come in any order of time: one that is earlier than the
/// last opportunity leads to none.
pub proof fn lemma_opportunities_are_apart(memory: Memory, calls: Seq<Call>)
    ensures
        ({
            let found = all_called(memory, calls).1;
            forall|i: int, j: int|
                0 <= i < j < found.len() && (#[trigger] found[i]).market.ticker@ == (
                #[trigger] found[j]).market.ticker@ ==> found[i].signal.brti_est.timestamp
                    + TICKER_COOLDOWN_MS <= found[j].signal.brti_est.timestamp
        }),
{
    lemma_calls_remember(memory, calls);
}

/// The opportunities so far are apart, and the memory is of none earlier than the last.
spec fn remembered(memory: Memory, found: Seq<TradeOpportunity>) -> bool {
    &&& forall|i: int|
        0 <= i < found.len() ==> memory.last_opportunity.contains_key(
            (#[trigger] found[i]).market.ticker@,
        ) && found[i].signal.brti_est.timestamp
            <= memory.last_opportunity[found[i].market.ticker@]
    &&& forall|i: int, j: int|
        0 <= i < j < found.len() && (#[trigger] found[i]).market.ticker@ == (
        #[trigger] found[j]).market.ticker@ ==> found[i].signal.brti_est.timestamp
            + TICKER_COOLDOWN_MS <= found[j].signal.brti_est.timestamp
}

proof fn lemma_calls_remember(memory: Memory, calls: Seq<Call>)
    ensures
        remembered(all_called(memory, calls).0, all_called(memory, calls).1),
    decreases calls.len(),
{
    if calls.len() > 0 {
        lemma_calls_remember(memory, calls.drop_last());
        let (before, found) = all_called(memory, calls.drop_last());
        let call = calls.last();
        let seen = before.observed(call.estimate);
        let (after, more) = called(before, call);
        let all = found + more;
        let n = found.len() as int;
        if seen.acts() {
            lemma_opportunities(seen, call.markets, call.exps, call.estimate, call.now_ms);
            lemma_turns_move_on(seen, call.markets, call.exps, call.estimate, call.now_ms);
        }
        assert forall|i: int| 0 <= i < all.len() implies after.last_opportunity.contains_key(
            (#[trigger] all[i]).market.ticker@,
        ) && all[i].signal.brti_est.timestamp
            <= after.last_opportunity[all[i].market.ticker@] by {
            if i < n {
                assert(all[i] == found[i]);
                assert(seen.last_opportunity.contains_key(found[i].market.ticker@));
            } else {
                assert(all[i] == more[i - n]);
                assert(sound(
                    more[i - n],
                    call.markets,
                    seen.last_direction,
                    call.estimate,
                    call.now_ms,
                ));
            }
        }
        assert forall|i: int, j: int|
            0 <= i < j < all.len() && (#[trigger] all[i]).market.ticker@ == (
            #[trigger] all[j]).market.ticker@ implies all[i].signal.brti_est.timestamp
            + TICKER_COOLDOWN_MS <= all[j].signal.brti_est.timestamp by {
            if j < n {
                assert(all[i] == found[i] && all[j] == found[j]);
            } else if i < n {
                assert(all[i] == found[i] && all[j] == more[j - n]);
                assert(sound(
                    more[j - n],
                    call.markets,
                    seen.last_direction,
                    call.estimate,
                    call.now_ms,
                ));
                assert(!seen.cooling(more[j - n].market.ticker@, call.estimate.timestamp));
            } else {
                assert(all[i] == more[i - n] && all[j] == more[j - n]);
            }
        }
    }
}

/// A ticker's last turn never moves back.
proof fn lemma_turns_move_on(
    memory: Memory,
    markets: Seq<KalshiMarket>,
    exps: Seq<Binary64>,
    estimate: BrtiEstimate,
    now_ms: u64,
)
    ensures
        ({
            let after = memory.scanned(markets, exps, estimate, now_ms).0;
            forall|k: Seq<char>| #[trigger]
                memory.last_opportunity.contains_key(k) ==> after.last_opportunity.contains_key(k)
                    && memory.last_opportunity[k] <= after.last_opportunity[k]
        }),
    decreases markets.len(),
{
    if markets.len() > 0 {
        lemma_turns_move_on(memory, markets.drop_last(), exps, estimate, now_ms);
    }
}

/// A market that closes within five minutes has no opportunity, nor has one whose strike is more
/// than 30 dollars away.
pub proof fn lemma_closing_market_is_skipped(
    market: KalshiMarket,
    estimate: BrtiEstimate,
    now_ms: u64,
)
    requires
        market.closes_at < now_ms + MIN_TO_CLOSE_MS || Binary64::whole(30).less(
            estimate.value.difference(market.strike).absolute(),
        ),
    ensures
        !engine::in_scope(market, estimate, now_ms),
{
}

} // verus!
