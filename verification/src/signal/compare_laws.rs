//! The index beside the markets, in dollars, cents and milliseconds.

use crate::numeric::accuracy;
use crate::numeric::binary64;
use crate::numeric::binary64::Binary64;
use crate::numeric::laws;
use crate::numeric::order;
use crate::signal::bet_laws::places;
use crate::signal::compare;
use crate::signal::compare::{CompareLine, Comparison, LeadLag};
use crate::signal::report;
use crate::types::{BrtiEstimate, Direction, KalshiMarket};
use vstd::arithmetic::power2::*;
use vstd::prelude::*;

verus! {

/// Who moved first. Without a move of the index nobody did; after more than 30 seconds the move is an
/// old one. Before that the index leads, by the age of its move, where it did not move later and both
/// went the same way; else the market leads, by the time to a later move.
pub proof fn lemma_who_moved_first(
    move_ms: Option<u64>,
    move_delta: Binary64,
    prev_yes: Binary64,
    new_yes: Binary64,
    now_ms: u64,
)
    requires
        move_delta.finite(),
        prev_yes.finite(),
        new_yes.finite(),
    ensures
        ({
            let verdict = compare::lead_lag(move_ms, move_delta, prev_yes, new_yes, now_ms);
            let market_rose = prev_yes.units() < new_yes.units();
            let index_rose = move_delta.units() > 0;
            match move_ms {
                None => verdict == LeadLag::NoMove,
                Some(ms) => {
                    &&& verdict == LeadLag::OldMove <==> now_ms > ms + 30_000
                    &&& ms <= now_ms <= ms + 30_000 && market_rose == index_rose ==> verdict
                        == LeadLag::IndexLeads { delta: move_delta, age_ms: (now_ms - ms) as u64 }
                    &&& ms <= now_ms <= ms + 30_000 && market_rose != index_rose ==> verdict
                        == LeadLag::MarketLeads { delta: move_delta, behind_ms: 0 }
                    &&& now_ms < ms ==> verdict == LeadLag::MarketLeads {
                        delta: move_delta,
                        behind_ms: (ms - now_ms) as u64,
                    }
                },
            }
        }),
{
    order::lemma_zero(move_delta);
    binary64::lemma_order(Binary64::whole(0), move_delta);
    binary64::lemma_order(prev_yes, new_yes);
}

/// Whether two numbers are further apart than a whole number up to 30: only where they are, and
/// wherever they are by two to the power of minus 48 more.
proof fn lemma_apart(x: Binary64, y: Binary64, w: int)
    requires
        x.finite(),
        y.finite(),
        0 < w <= 30,
    ensures
        ({
            let d = x.units() - y.units();
            let limit = w * binary64::one();
            let apart = Binary64::whole(w).less(x.difference(y).absolute());
            &&& limit + pow2(1026) < d || d < -limit - pow2(1026) ==> apart
            &&& apart ==> limit < d || d < -limit
        }),
{
    let high = Binary64::whole(w);
    let z = x.difference(y);
    accuracy::lemma_moved(x, y, w);
    lemma_pow2_pos(1074);
    laws::lemma_whole_exact(w);
    order::lemma_own_key(high);
    order::lemma_negated(high);
    assert(0 < w * binary64::one()) by (nonlinear_arith)
        requires
            0 < w,
            0 < binary64::one(),
    ;
    assert(high.less(z.absolute()) <==> high.less(z) || z.less(high.negated()));
}

/// The index moves where it is more than 10 dollars from its last value, and there was one; a
/// comparison is due where it is more than 5 dollars from the last printed value, or 5 seconds have
/// passed.
pub proof fn lemma_moves_in_dollars(memory: Comparison, value: Binary64, now_ms: u64)
    requires
        value.finite(),
        memory.prev_brti.finite(),
        memory.last_printed_brti.finite(),
    ensures
        ({
            let o = binary64::one();
            let moved = value.units() - memory.prev_brti.units();
            let since = value.units() - memory.last_printed_brti.units();
            &&& memory.moves(value) ==> memory.prev_brti.units() != 0 && (moved > 10 * o || moved
                < -(10 * o))
            &&& memory.prev_brti.units() != 0 && (moved > 10 * o + pow2(1026) || moved < -(10 * o)
                - pow2(1026)) ==> memory.moves(value)
            &&& memory.due(value, now_ms) ==> since > 5 * o || since < -(5 * o) || now_ms
                >= memory.last_print_ms + 5_000
            &&& since > 5 * o + pow2(1026) || since < -(5 * o) - pow2(1026) || now_ms
                >= memory.last_print_ms + 5_000 ==> memory.due(value, now_ms)
        }),
{
    lemma_apart(value, memory.prev_brti, 10);
    lemma_apart(value, memory.last_printed_brti, 5);
    order::lemma_zero(value);
    binary64::lemma_order(memory.prev_brti, Binary64::whole(0));
}

/// An estimate is what the next one is measured from; a move is remembered with its time and its
/// distance, and nothing else changes what is remembered of the last one.
pub proof fn lemma_moves_are_remembered(
    memory: Comparison,
    value: Binary64,
    markets: Seq<KalshiMarket>,
    now_ms: u64,
)
    ensures
        ({
            let after = memory.updated(value, markets, now_ms);
            &&& after.prev_brti == value
            &&& memory.moves(value) ==> after.move_ms == Some(now_ms) && after.move_delta
                == value.difference(memory.prev_brti)
            &&& !memory.moves(value) ==> after.move_ms == memory.move_ms && after.move_delta
                == memory.move_delta
            &&& memory.due(value, now_ms) ==> after.last_printed_brti == value
                && after.last_print_ms == now_ms
            &&& !memory.due(value, now_ms) ==> after.last_printed_brti == memory.last_printed_brti
                && after.last_print_ms == memory.last_print_ms
        }),
{
}

/// Right after a comparison none is due for the same value within 5 seconds.
pub proof fn lemma_comparisons_are_apart(
    memory: Comparison,
    value: Binary64,
    markets: Seq<KalshiMarket>,
    now_ms: u64,
    later_ms: u64,
)
    requires
        value.finite(),
        memory.due(value, now_ms),
        later_ms < now_ms + 5_000,
    ensures
        !memory.updated(value, markets, now_ms).due(value, later_ms),
        !memory.updated(value, markets, now_ms).moves(value),
{
    lemma_pow2_pos(1074);
    lemma_apart(value, value, 5);
    lemma_apart(value, value, 10);
}

/// A move counts as a recent one for 30 seconds.
pub proof fn lemma_recent_move(memory: Comparison, now_ms: u64)
    ensures
        memory.recent_move(now_ms) <==> memory.move_ms is Some && now_ms <= memory.move_ms->0
            + 30_000,
{
}

/// Whether the markets of a row have different tickers.
pub open spec fn distinct(markets: Seq<KalshiMarket>) -> bool {
    forall|i: int, j: int|
        0 <= i < j < markets.len() ==> (#[trigger] markets[i]).ticker@ != (
        #[trigger] markets[j]).ticker@
}

/// Whether no market of a row has a ticker.
pub open spec fn unlisted(markets: Seq<KalshiMarket>, ticker: Seq<char>) -> bool {
    forall|i: int| 0 <= i < markets.len() ==> (#[trigger] markets[i]).ticker@ != ticker
}

/// A ticker that no market of a row has keeps its price.
proof fn lemma_price_is_kept(
    prices: Map<Seq<char>, Binary64>,
    markets: Seq<KalshiMarket>,
    ticker: Seq<char>,
)
    requires
        unlisted(markets, ticker),
    ensures
        compare::prices_after(prices, markets).contains_key(ticker) == prices.contains_key(ticker),
        prices.contains_key(ticker) ==> compare::prices_after(prices, markets)[ticker]
            == prices[ticker],
    decreases markets.len(),
{
    if markets.len() > 0 {
        let rest = markets.drop_last();
        assert forall|i: int| 0 <= i < rest.len() implies (#[trigger] rest[i]).ticker@
            != ticker by {
            assert(rest[i] == markets[i]);
        }
        lemma_price_is_kept(prices, rest, ticker);
        assert(markets[markets.len() - 1].ticker@ != ticker);
    }
}

/// After a row of markets each has its price, and every other ticker keeps the one it had.
pub proof fn lemma_prices_are_remembered(
    prices: Map<Seq<char>, Binary64>,
    markets: Seq<KalshiMarket>,
)
    requires
        distinct(markets),
    ensures
        ({
            let after = compare::prices_after(prices, markets);
            &&& forall|i: int|
                0 <= i < markets.len() ==> after.contains_key((#[trigger] markets[i]).ticker@)
                    && after[markets[i].ticker@] == markets[i].yes_price
            &&& forall|ticker: Seq<char>| #[trigger]
                unlisted(markets, ticker) ==> after.contains_key(ticker) == prices.contains_key(
                    ticker,
                ) && (prices.contains_key(ticker) ==> after[ticker] == prices[ticker])
        }),
    decreases markets.len(),
{
    let after = compare::prices_after(prices, markets);
    if markets.len() > 0 {
        let rest = markets.drop_last();
        let last = markets.len() - 1;
        assert forall|i: int, j: int| 0 <= i < j < rest.len() implies (
        #[trigger] rest[i]).ticker@ != (#[trigger] rest[j]).ticker@ by {
            assert(rest[i] == markets[i] && rest[j] == markets[j]);
        }
        lemma_prices_are_remembered(prices, rest);
        assert forall|i: int| 0 <= i < markets.len() implies after.contains_key(
            (#[trigger] markets[i]).ticker@,
        ) && after[markets[i].ticker@] == markets[i].yes_price by {
            if i < last {
                assert(rest[i] == markets[i]);
                assert(markets[i].ticker@ != markets[last].ticker@);
            }
        }
    }
    assert forall|ticker: Seq<char>| #[trigger] unlisted(markets, ticker) implies after.contains_key(
        ticker,
    ) == prices.contains_key(ticker) && (prices.contains_key(ticker) ==> after[ticker]
        == prices[ticker]) by {
        lemma_price_is_kept(prices, markets, ticker);
    }
}

/// The last price of a market's ticker; the market's own where there is none.
pub open spec fn last_price(prices: Map<Seq<char>, Binary64>, market: KalshiMarket) -> Binary64 {
    match prices.get(market.ticker@) {
        Some(price) => price,
        None => market.yes_price,
    }
}

/// Whether the market at a place is more than a cent from its last price.
pub open spec fn turning(
    prices: Map<Seq<char>, Binary64>,
    markets: Seq<KalshiMarket>,
) -> spec_fn(int) -> bool {
    |i: int|
        Binary64::whole(1).less(
            markets[i].yes_price.difference(last_price(prices, markets[i])).absolute(),
        )
}

/// Over a row of markets with different tickers the new prices are those of the markets that are more
/// than a cent from their last price, each and in their order, with both prices.
pub proof fn lemma_every_reprice_is_found(
    prices: Map<Seq<char>, Binary64>,
    markets: Seq<KalshiMarket>,
    move_ms: Option<u64>,
    move_delta: Binary64,
    now_ms: u64,
)
    requires
        distinct(markets),
    ensures
        ({
            let found = compare::reprices(prices, markets, move_ms, move_delta, now_ms);
            let at = places(markets.len()).filter(turning(prices, markets));
            &&& found.len() == at.len()
            &&& forall|k: int|
                #![trigger found[k]]
                #![trigger at[k]]
                0 <= k < found.len() ==> {
                    &&& 0 <= at[k] && at[k] < markets.len()
                    &&& found[k].ticker == markets[at[k]].ticker
                    &&& found[k].prev_yes == last_price(prices, markets[at[k]])
                    &&& found[k].new_yes == markets[at[k]].yes_price
                    &&& found[k].verdict == compare::lead_lag(
                        move_ms,
                        move_delta,
                        found[k].prev_yes,
                        found[k].new_yes,
                        now_ms,
                    )
                }
        }),
{
    lemma_reprices(prices, markets, move_ms, move_delta, now_ms, markets.len());
    assert(markets.take(markets.len() as int) == markets);
}

proof fn lemma_reprices(
    prices: Map<Seq<char>, Binary64>,
    markets: Seq<KalshiMarket>,
    move_ms: Option<u64>,
    move_delta: Binary64,
    now_ms: u64,
    n: nat,
)
    requires
        distinct(markets),
        n <= markets.len(),
    ensures
        ({
            let found = compare::reprices(
                prices,
                markets.take(n as int),
                move_ms,
                move_delta,
                now_ms,
            );
            let at = places(n).filter(turning(prices, markets));
            &&& found.len() == at.len()
            &&& forall|k: int|
                #![trigger found[k]]
                #![trigger at[k]]
                0 <= k < found.len() ==> {
                    &&& 0 <= at[k] && at[k] < n
                    &&& found[k].ticker == markets[at[k]].ticker
                    &&& found[k].prev_yes == last_price(prices, markets[at[k]])
                    &&& found[k].new_yes == markets[at[k]].yes_price
                    &&& found[k].verdict == compare::lead_lag(
                        move_ms,
                        move_delta,
                        found[k].prev_yes,
                        found[k].new_yes,
                        now_ms,
                    )
                }
        }),
    decreases n,
{
    reveal(Seq::filter);
    if n > 0 {
        let m = (n - 1) as nat;
        let row = markets.take(n as int);
        let rest = markets.take(m as int);
        let market = markets[m as int];
        let turns = turning(prices, markets);
        lemma_reprices(prices, markets, move_ms, move_delta, now_ms, m);
        assert(row.drop_last() =~= rest);
        assert(row.last() == market);
        assert(places(n).drop_last() =~= places(m));
        assert(places(n).last() == m as int);
        assert forall|i: int| 0 <= i < rest.len() implies (#[trigger] rest[i]).ticker@
            != market.ticker@ by {
            assert(rest[i] == markets[i]);
        }
        lemma_price_is_kept(prices, rest, market.ticker@);
        let prev = compare::previous_price(compare::prices_after(prices, rest), market);
        assert(prev == last_price(prices, market));
        let before = compare::reprices(prices, rest, move_ms, move_delta, now_ms);
        let found = compare::reprices(prices, row, move_ms, move_delta, now_ms);
        let at_before = places(m).filter(turns);
        let at = places(n).filter(turns);
        assert(at == (if turns(m as int) {
            at_before.push(m as int)
        } else {
            at_before
        }));
        assert forall|k: int|
            #![trigger found[k]]
            #![trigger at[k]]
            0 <= k < found.len() implies {
            &&& 0 <= at[k] && at[k] < n
            &&& found[k].ticker == markets[at[k]].ticker
            &&& found[k].prev_yes == last_price(prices, markets[at[k]])
            &&& found[k].new_yes == markets[at[k]].yes_price
            &&& found[k].verdict == compare::lead_lag(
                move_ms,
                move_delta,
                found[k].prev_yes,
                found[k].new_yes,
                now_ms,
            )
        } by {
            if k < before.len() {
                assert(found[k] == before[k]);
                assert(at[k] == at_before[k]);
            } else {
                assert(k == before.len());
                assert(at[k] == m as int);
            }
        }
    }
}

/// A market turns where it is more than a cent from its last price.
pub proof fn lemma_turns_by_a_cent(
    prices: Map<Seq<char>, Binary64>,
    markets: Seq<KalshiMarket>,
    i: int,
)
    requires
        markets[i].yes_price.finite(),
        last_price(prices, markets[i]).finite(),
    ensures
        ({
            let o = binary64::one();
            let moved = markets[i].yes_price.units() - last_price(prices, markets[i]).units();
            &&& turning(prices, markets)(i) ==> moved > o || moved < -o
            &&& moved > o + pow2(1026) || moved < -o - pow2(1026) ==> turning(prices, markets)(i)
        }),
{
    lemma_apart(markets[i].yes_price, last_price(prices, markets[i]), 1);
    assert(1 * binary64::one() == binary64::one());
}

/// A line says that the index is above the strike exactly where it is not below it, and gives the
/// distance with the sign that it has.
pub proof fn lemma_line_is_above_the_strike(
    line: CompareLine,
    memory: Comparison,
    estimate: BrtiEstimate,
    market: KalshiMarket,
    dir: Direction,
    vel: Binary64,
    now_ms: u64,
)
    requires
        estimate.value.finite(),
        market.strike.finite(),
        compare::is_line(line, memory, estimate, market, dir, vel, now_ms),
    ensures
        line.above_strike <==> estimate.value.units() >= market.strike.units(),
        line.record.delta_from_strike.finite() ==> (line.record.delta_from_strike.units() > 0
            <==> estimate.value.units() > market.strike.units()),
{
    let x = estimate.value;
    let y = market.strike;
    let d = x.units() - y.units();
    let z = x.difference(y);
    let zero = Binary64::whole(0);
    order::lemma_zero(x);
    order::lemma_own_key(zero);
    order::lemma_difference_key(x, y);
    let least = Binary64::make(false, 1);
    binary64::lemma_small_units(1);
    order::lemma_own_key(least);
    order::lemma_negated(least);
    order::lemma_own_key(least.negated());
    if d < 0 {
        order::lemma_nearest_order(d, 1, -1, 1);
    }
    if d > 0 {
        order::lemma_nearest_order(1, 1, d, 1);
    }
    if z.finite() {
        binary64::lemma_order(zero, z);
    }
}

/// Markets are out of date after half a minute.
pub proof fn lemma_markets_go_stale()
    ensures
        report::MARKET_STALE_MS == 30_000,
{
}

/// Each direction has a name of its own.
pub proof fn lemma_direction_names_differ(a: Direction, b: Direction)
    ensures
        report::direction_name(a) == report::direction_name(b) ==> a == b,
{
    reveal_strlit("Up");
    reveal_strlit("Down");
    reveal_strlit("Neutral");
    assert("Up"@.len() == 2 && "Down"@.len() == 4 && "Neutral"@.len() == 7);
}

} // verus!
