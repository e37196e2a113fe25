//! The model's probability, and the bets on the markets, in exact numbers.

use crate::numeric::accuracy;
use crate::numeric::accuracy::is_whole;
use crate::numeric::binary64;
use crate::numeric::binary64::Binary64;
use crate::numeric::laws;
use crate::numeric::order;
use crate::signal::engine;
use crate::signal::engine::Memory;
use crate::signal::probability;
use crate::types::{BrtiEstimate, Direction, KalshiMarket, TradeOpportunity, TradeSide};
use vstd::arithmetic::power2::*;
use vstd::prelude::*;

verus! {

/// A whole number held between two limits.
pub open spec fn held(x: int, low: int, high: int) -> int {
    if x < low {
        low
    } else if x > high {
        high
    } else {
        x
    }
}

/// What is left of a bound when both sides are divided by a positive number.
pub proof fn lemma_divided(o: int, w: int, b: int)
    requires
        0 < o,
        -(o * b) <= o * w <= o * b,
    ensures
        -b <= w <= b,
{
    assert(-b <= w <= b) by (nonlinear_arith)
        requires
            0 < o,
            -(o * b) <= o * w <= o * b,
    {
        if w > b {
            assert(o * w > o * b);
        }
        if w < -b {
            assert(o * w < o * (-b));
            assert(o * (-b) == -(o * b));
        }
    }
}

/// A bound, multiplied by a positive number.
pub proof fn lemma_scaled_bound(o: int, w: int, b: int)
    requires
        0 < o,
        -b <= w <= b,
    ensures
        -(o * b) <= o * w <= o * b,
{
    assert(-(o * b) <= o * w <= o * b) by (nonlinear_arith)
        requires
            0 < o,
            -b <= w <= b,
    {
        assert(o * w <= o * b);
        assert(o * w >= o * (-b));
        assert(o * (-b) == -(o * b));
    }
}

/// How near a product is to the exact one.
pub proof fn lemma_near_product(x: Binary64, y: Binary64, k: nat)
    requires
        x.finite(),
        y.finite(),
        -(binary64::one() * pow2(53 + k)) < x.units() * y.units() < binary64::one() * pow2(53 + k),
        k <= 2043,
    ensures
        x.product(y).finite(),
        -(binary64::one() * pow2(k)) <= 2 * (binary64::one() * x.product(y).units() - x.units()
            * y.units()) <= binary64::one() * pow2(k),
{
    lemma_pow2_pos(1074);
    order::lemma_product_key(x, y);
    order::lemma_nearest_error(x.product(y), x.units() * y.units(), binary64::one(), k);
}

/// A millionth part of up to two millions, as a number.
proof fn lemma_millionths(n: int)
    requires
        0 <= n < 2_000_000,
    ensures
        ({
            let r = Binary64::ratio(n, 1_000_000);
            &&& r.finite()
            &&& 0 <= r.units() <= 2 * binary64::one()
            &&& -(1_000_000 * pow2(1021)) <= 1_000_000 * r.units() - n * binary64::one()
                <= 1_000_000 * pow2(1021)
        }),
{
    let o = binary64::one();
    let r = Binary64::ratio(n, 1_000_000);
    lemma2_to64();
    lemma_pow2_pos(1074);
    lemma_pow2_pos(1021);
    lemma_pow2_adds(1, 1074);
    lemma_pow2_adds(1, 1021);
    accuracy::lemma_ratio_key(n, 1_000_000);
    assert(0 <= n * o && n * o < 1_000_000 * (2 * o)) by (nonlinear_arith)
        requires
            0 <= n < 2_000_000,
            0 < o,
    ;
    order::lemma_nearest_error(r, n * o, 1_000_000, 1022);
    order::lemma_own_key(r);
    let two = Binary64::whole(2);
    laws::lemma_whole_exact(2);
    order::lemma_own_key(two);
    assert((n * o) * 1 <= (2 * o) * 1_000_000);
    order::lemma_nearest_order(n * o, 1_000_000, 2 * o, 1);
    binary64::lemma_order(r, two);
}

/// A term of the logit: a coefficient in millionths, below one, times a number of at most about a
/// million.
proof fn lemma_term(n: int, x: Binary64)
    requires
        0 <= n < 1_000_000,
        x.finite(),
        -(0x10_0000 * binary64::one()) <= x.units() <= 0x10_0000 * binary64::one(),
    ensures
        ({
            let p = Binary64::ratio(n, 1_000_000).product(x);
            &&& p.finite()
            &&& -(1_000_000 * pow2(1044)) <= 1_000_000 * p.units() - n * x.units() <= 1_000_000
                * pow2(1044)
            &&& -(0x20_0000 * binary64::one()) <= p.units() <= 0x20_0000 * binary64::one()
        }),
{
    let o = binary64::one();
    let r = Binary64::ratio(n, 1_000_000);
    let p = r.product(x);
    let u = x.units();
    let v = r.units();
    let h = pow2(1041) as int;
    let q = pow2(1021) as int;
    let top = 0x10_0000 * o;
    lemma2_to64();
    lemma2_to64_rest();
    lemma_pow2_pos(1074);
    lemma_pow2_pos(1021);
    lemma_pow2_adds(20, 1021);
    lemma_pow2_adds(3, 1041);
    lemma_pow2_adds(33, 1041);
    lemma_pow2_adds(1, 1041);
    lemma_pow2_adds(1, 1042);
    lemma_pow2_adds(22, 1074);
    lemma_millionths(n);
    assert(-(o * (0x40_0000 * o)) < v * u && v * u < o * (0x40_0000 * o)) by (nonlinear_arith)
        requires
            0 <= v <= 2 * o,
            -top <= u <= top,
            top == 0x10_0000 * o,
            0 < o,
    {
        assert(v * u <= v * top);
        assert(v * u >= v * (-top));
        assert(v * (-top) == -(v * top));
        assert(v * top <= (2 * o) * top);
        assert((2 * o) * (0x10_0000 * o) == 0x20_0000 * (o * o));
        assert(o * (0x40_0000 * o) == 0x40_0000 * (o * o));
        assert(0 < o * o);
    }
    lemma_near_product(r, x, 1043);
    let w = p.units();
    // o * w is within 2 * o * h of v * u, and a million v within a million q of n * o.
    let d = 1_000_000 * v - n * o;
    assert(-(1_000_000 * (o * h)) <= d * u && d * u <= 1_000_000 * (o * h)) by (nonlinear_arith)
        requires
            -(1_000_000 * q) <= d <= 1_000_000 * q,
            -top <= u <= top,
            top == 0x10_0000 * o,
            h == 0x10_0000 * q,
            0 < q,
            0 < o,
    {
        let z = if d >= 0 {
            d
        } else {
            -d
        };
        let y = if u >= 0 {
            u
        } else {
            -u
        };
        assert(0 <= z * y);
        assert(z * y <= (1_000_000 * q) * y);
        assert((1_000_000 * q) * y <= (1_000_000 * q) * top);
        assert((1_000_000 * q) * (0x10_0000 * o) == 1_000_000 * (o * (0x10_0000 * q)));
        assert(d * u == z * y || d * u == -(z * y));
    }
    let t = 1_000_000 * w - n * u;
    assert(o * t == 1_000_000 * (o * w - v * u) + d * u) by (nonlinear_arith)
        requires
            t == 1_000_000 * w - n * u,
            d == 1_000_000 * v - n * o,
    ;
    assert(o * pow2(1043) == 4 * (o * h)) by (nonlinear_arith)
        requires
            pow2(1043) == 4 * h,
    ;
    assert(o * (8_000_000 * h) == 8_000_000 * (o * h)) by (nonlinear_arith);
    assert(0 < o * h) by (nonlinear_arith)
        requires
            0 < o,
            0 < h,
    ;
    lemma_divided(o, t, 8_000_000 * h);
    assert(-(1_000_000 * top) <= n * u && n * u <= 1_000_000 * top) by (nonlinear_arith)
        requires
            0 <= n < 1_000_000,
            -top <= u <= top,
    ;
}

/// The logit is the weighted sum of the distance from the strike, the time to go, at most a quarter of
/// an hour, and the size of the move: in millionths 1261386, 82579 for each dollar above the strike,
/// minus 1716 for each second and 98562 for each dollar of the move; up to two to the power of minus 25,
/// for distances and moves of at most about a million dollars.
pub proof fn lemma_logit_in_exact_numbers(
    brti_est: Binary64,
    strike: Binary64,
    seconds_to_close: Binary64,
    velocity: Binary64,
)
    requires
        brti_est.finite(),
        strike.finite(),
        seconds_to_close.finite(),
        velocity.finite(),
        -(0xf_ffff * binary64::one()) <= brti_est.units() - strike.units() <= 0xf_ffff
            * binary64::one(),
        -(0x10_0000 * binary64::one()) <= velocity.units() <= 0x10_0000 * binary64::one(),
    ensures
        ({
            let o = binary64::one();
            let z = probability::logit(brti_est, strike, seconds_to_close, velocity);
            let moved = if velocity.units() < 0 {
                -velocity.units()
            } else {
                velocity.units()
            };
            let exact = 1_261_386 * o + 82_579 * (brti_est.units() - strike.units()) - 1_716 * held(
                seconds_to_close.units(),
                0,
                900 * o,
            ) + 98_562 * moved;
            &&& z.finite()
            &&& -(1_000_000 * pow2(1049)) <= 1_000_000 * z.units() - exact <= 1_000_000 * pow2(1049)
        }),
{
    let o = binary64::one();
    let zero = Binary64::whole(0);
    let limit = Binary64::whole(900);
    lemma2_to64();
    lemma2_to64_rest();
    lemma_pow2_pos(1074);
    lemma_pow2_pos(1041);
    lemma_pow2_adds(1, 1041);
    lemma_pow2_adds(3, 1041);
    lemma_pow2_adds(5, 1041);
    lemma_pow2_adds(8, 1041);
    lemma_pow2_adds(33, 1041);
    lemma_pow2_adds(20, 1074);
    lemma_pow2_adds(7, 1041);
    lemma_pow2_adds(20, 1021);
    let h = pow2(1041) as int;
    laws::lemma_whole_exact(900);
    order::lemma_zero(limit);
    // The distance.
    let d = brti_est.difference(strike);
    accuracy::lemma_near_difference(brti_est, strike, 1041);
    lemma_term(82_579, d);
    // The time.
    let s = seconds_to_close.held_between(zero, limit);
    binary64::lemma_order(seconds_to_close, zero);
    binary64::lemma_order(limit, seconds_to_close);
    lemma_term(1_716, s);
    let c = Binary64::ratio(1_716, 1_000_000);
    lemma_millionths(1_716);
    order::lemma_product_negated(c, s);
    order::lemma_negated(c.product(s));
    // The move.
    let m = velocity.absolute();
    order::lemma_own_key(velocity);
    order::lemma_own_key(m);
    lemma_term(98_562, m);
    // The sum.
    let i = Binary64::ratio(1_261_386, 1_000_000);
    lemma_millionths(1_261_386);
    let a = Binary64::ratio(82_579, 1_000_000).product(d);
    let b = c.negated().product(s);
    let e = Binary64::ratio(98_562, 1_000_000).product(m);
    assert(b.units() == -c.product(s).units());
    assert(b.finite());
    lemma_four_terms(i, a, b, e);
}

/// How near a sum of four terms is to the exact one.
proof fn lemma_four_terms(i: Binary64, a: Binary64, b: Binary64, e: Binary64)
    requires
        i.finite(),
        a.finite(),
        b.finite(),
        e.finite(),
        0 <= i.units() <= 2 * binary64::one(),
        -(0x20_0000 * binary64::one()) <= a.units() <= 0x20_0000 * binary64::one(),
        -(0x20_0000 * binary64::one()) <= b.units() <= 0x20_0000 * binary64::one(),
        -(0x20_0000 * binary64::one()) <= e.units() <= 0x20_0000 * binary64::one(),
    ensures
        ({
            let z = i.sum(a).sum(b).sum(e);
            let off = z.units() - (i.units() + a.units() + b.units() + e.units());
            &&& z.finite()
            &&& -pow2(1048) <= off <= pow2(1048)
        }),
{
    lemma2_to64();
    lemma2_to64_rest();
    lemma_pow2_pos(1074);
    lemma_pow2_pos(1046);
    lemma_pow2_adds(2, 1046);
    lemma_pow2_adds(28, 1046);
    lemma_pow2_adds(25, 1074);
    accuracy::lemma_near_sum(i, a, 1046);
    accuracy::lemma_near_sum(i.sum(a), b, 1046);
    accuracy::lemma_near_sum(i.sum(a).sum(b), e, 1046);
}

/// The probability that a price implies: a hundredth of it.
proof fn lemma_implied(price: Binary64)
    requires
        price.finite(),
        0 <= price.units() <= 100 * binary64::one(),
    ensures
        ({
            let p = probability::implied(price);
            &&& p.finite()
            &&& 0 <= p.units() <= binary64::one()
            &&& -(100 * pow2(1021)) <= 100 * p.units() - price.units() <= 100 * pow2(1021)
        }),
{
    let o = binary64::one();
    let hundred = Binary64::whole(100);
    let one = Binary64::whole(1);
    let zero = Binary64::whole(0);
    let p = probability::implied(price);
    let u = price.units();
    let q = pow2(1021) as int;
    lemma2_to64();
    lemma_pow2_pos(1074);
    lemma_pow2_pos(1021);
    lemma_pow2_adds(1, 1074);
    lemma_pow2_adds(1, 1021);
    laws::lemma_whole_exact(100);
    laws::lemma_whole_exact(1);
    assert(1 * o == o);
    order::lemma_zero(one);
    order::lemma_quotient_key(price, hundred);
    let d = 100 * o;
    assert(-(d * (2 * o)) < u * o && u * o < d * (2 * o) && 0 * d <= (u * o) * 1 && (u * o) * 1 <= o
        * d) by (nonlinear_arith)
        requires
            d == 100 * o,
            0 <= u <= 100 * o,
            0 < o,
    {
        assert(u * o <= (100 * o) * o);
        assert(0 <= u * o);
        assert((100 * o) * (2 * o) == 200 * (o * o));
        assert((100 * o) * o == 100 * (o * o));
        assert(0 < o * o);
    }
    order::lemma_nearest_error(p, u * o, d, 1022);
    order::lemma_own_key(zero);
    order::lemma_own_key(one);
    order::lemma_nearest_order(0, 1, u * o, d);
    order::lemma_nearest_order(u * o, d, o, 1);
    binary64::lemma_order(zero, p);
    binary64::lemma_order(p, one);
    let w = 100 * p.units() - u;
    assert(d * p.units() - u * o == o * w) by (nonlinear_arith)
        requires
            d == 100 * o,
            w == 100 * p.units() - u,
    ;
    assert(d * pow2(1022) == 2 * (o * (100 * q))) by (nonlinear_arith)
        requires
            d == 100 * o,
            pow2(1022) == 2 * q,
    ;
    lemma_divided(o, w, 100 * q);
}

/// The edge of a probability over a price: a hundred edges are a hundred probabilities less the price
/// in cents.
proof fn lemma_edge(p: Binary64, price: Binary64)
    requires
        p.finite(),
        0 <= p.units() <= binary64::one(),
        price.finite(),
        0 <= price.units() <= 100 * binary64::one(),
    ensures
        ({
            let edge = p.difference(probability::implied(price));
            &&& edge.finite()
            &&& -(200 * pow2(1021)) <= 100 * edge.units() - (100 * p.units() - price.units())
                <= 200 * pow2(1021)
        }),
{
    lemma2_to64();
    lemma_pow2_pos(1074);
    lemma_pow2_adds(1, 1074);
    lemma_pow2_adds(1, 1021);
    lemma_implied(price);
    accuracy::lemma_near_difference(p, probability::implied(price), 1022);
}

/// The model's probability lies between 5 and 95 percent.
proof fn lemma_probability_bounds(e: Binary64, confidence: Binary64)
    requires
        !probability::discounted(e, confidence).nan(),
    ensures
        ({
            let p = probability::discounted(e, confidence);
            &&& p.finite()
            &&& 0 <= p.units() <= binary64::one()
        }),
{
    let o = binary64::one();
    let one = Binary64::whole(1);
    let zero = Binary64::whole(0);
    lemma_pow2_pos(1074);
    laws::lemma_whole_exact(1);
    assert(1 * o == o);
    order::lemma_zero(one);
    probability::lemma_probability_is_held(e, confidence);
    laws::lemma_ratio_order(0, 5, 100);
    laws::lemma_ratio_order(95, 100, 100);
    let p = probability::discounted(e, confidence);
    accuracy::lemma_ratio_key(5, 100);
    accuracy::lemma_ratio_key(95, 100);
    order::lemma_own_key(zero);
    order::lemma_own_key(one);
    order::lemma_nearest_order(0, 1, 5 * o, 100);
    order::lemma_nearest_order(95 * o, 100, o, 1);
    binary64::lemma_order(zero, p);
    binary64::lemma_order(p, one);
}

/// A market is in scope where it closes in at least five minutes, nobody gives either side for nothing,
/// and its strike is at most 30 dollars from the estimate, up to two to the power of minus 48 of a
/// dollar.
pub proof fn lemma_scope(market: KalshiMarket, estimate: BrtiEstimate, now_ms: u64)
    requires
        market.yes_price.finite(),
        market.no_price.finite(),
        market.strike.finite(),
        estimate.value.finite(),
    ensures
        ({
            let o = binary64::one();
            let d = estimate.value.units() - market.strike.units();
            let time = market.closes_at >= now_ms + 300_000;
            let priced = market.yes_price.units() != 0 && market.no_price.units() != 0;
            let found = engine::in_scope(market, estimate, now_ms);
            &&& found ==> time && priced && -(30 * o) - pow2(1026) <= d <= 30 * o + pow2(1026)
            &&& time && priced && -(30 * o) <= d <= 30 * o ==> found
        }),
{
    let o = binary64::one();
    let zero = Binary64::whole(0);
    let thirty = Binary64::whole(30);
    let x = estimate.value.difference(market.strike);
    laws::lemma_whole_exact(30);
    order::lemma_zero(thirty);
    binary64::lemma_order(market.yes_price, zero);
    binary64::lemma_order(market.no_price, zero);
    accuracy::lemma_moved(estimate.value, market.strike, 30);
    order::lemma_difference_key(estimate.value, market.strike);
    order::lemma_negated(thirty);
}

/// Whether an opportunity is the bet on a market in a direction: on yes where the momentum is up and on
/// no where it is down, with the model's probability of that side for its confidence, and the edge of
/// that over the side's own price.
pub open spec fn is_the_bet(
    opp: TradeOpportunity,
    market: KalshiMarket,
    up: bool,
    estimate: BrtiEstimate,
    now_ms: u64,
    yes: Binary64,
) -> bool {
    let o = binary64::one();
    let p = opp.signal.confidence.units();
    let price = if up {
        market.yes_price
    } else {
        market.no_price
    };
    &&& opp.market == market
    &&& opp.side == (if up {
        TradeSide::Yes
    } else {
        TradeSide::No
    })
    &&& opp.signal.direction == (if up {
        Direction::Up
    } else {
        Direction::Down
    })
    &&& opp.signal.brti_est == estimate
    &&& opp.signal.generated_at == now_ms
    &&& opp.signal.confidence.finite()
    &&& up ==> opp.signal.confidence == yes
    &&& !up ==> -pow2(1021) <= p + yes.units() - o <= pow2(1021)
    &&& opp.edge.finite()
    &&& -(200 * pow2(1021)) <= 100 * opp.edge.units() - (100 * p - price.units()) <= 200 * pow2(
        1021,
    )
}

/// There is an opportunity on a market exactly where the bet's edge is at least 5 percent, its ticker
/// had none in the last 30 seconds, and its price is between 0 and 100 cents; and it is the bet. The
/// edge is off by at most two to the power of minus 50.
pub proof fn lemma_offer_is_the_bet(
    memory: Memory,
    market: KalshiMarket,
    estimate: BrtiEstimate,
    now_ms: u64,
    e: Binary64,
)
    requires
        memory.last_direction != Direction::Neutral,
        market.yes_price.finite(),
        0 <= market.yes_price.units() <= 100 * binary64::one(),
        market.no_price.finite(),
        0 <= market.no_price.units() <= 100 * binary64::one(),
        !probability::discounted(e, estimate.confidence).nan(),
    ensures
        ({
            let o = binary64::one();
            let up = memory.last_direction == Direction::Up;
            let yes = probability::discounted(e, estimate.confidence);
            let price = if up {
                market.yes_price.units()
            } else {
                market.no_price.units()
            };
            let chance = if up {
                yes.units()
            } else {
                o - yes.units()
            };
            let ticker = market.ticker@;
            let cooling = memory.last_opportunity.contains_key(ticker) && estimate.timestamp
                < memory.last_opportunity[ticker] + 30_000;
            let found = memory.offer(market, estimate, now_ms, e);
            &&& found is Some ==> {
                &&& is_the_bet(found->0, market, up, estimate, now_ms, yes)
                &&& 100 * chance - price >= 5 * o - pow2(1030)
                &&& !cooling
                &&& 0 < price < 100 * o
            }
            &&& 100 * chance - price >= 5 * o + pow2(1030) && !cooling && 0 < price < 100 * o
                ==> found is Some
        }),
{
    let o = binary64::one();
    let one = Binary64::whole(1);
    let up = memory.last_direction == Direction::Up;
    let yes = probability::discounted(e, estimate.confidence);
    let price = if up {
        market.yes_price
    } else {
        market.no_price
    };
    let q = pow2(1021) as int;
    lemma2_to64();
    lemma_pow2_pos(1074);
    lemma_pow2_pos(1021);
    lemma_pow2_adds(1, 1074);
    lemma_pow2_adds(1, 1021);
    lemma_pow2_adds(9, 1021);
    lemma_probability_bounds(e, estimate.confidence);
    laws::lemma_whole_exact(1);
    laws::lemma_whole_exact(100);
    assert(1 * o == o);
    order::lemma_zero(one);
    let p = engine::win_probability(memory.last_direction, estimate, e);
    accuracy::lemma_near_difference(one, yes, 1022);
    order::lemma_difference_key(one, yes);
    order::lemma_own_key(Binary64::whole(0));
    order::lemma_own_key(one);
    order::lemma_nearest_order(0, 1, o - yes.units(), 1);
    order::lemma_nearest_order(o - yes.units(), 1, o, 1);
    binary64::lemma_order(Binary64::whole(0), one.difference(yes));
    binary64::lemma_order(one.difference(yes), one);
    lemma_edge(p, price);
    let edge = engine::bet_edge(market, memory.last_direction, estimate, e);
    let r = Binary64::ratio(5, 100);
    accuracy::lemma_ratio_key(5, 100);
    assert(-(100 * pow2(53 + 1022)) < 5 * o < 100 * pow2(53 + 1022));
    order::lemma_nearest_error(r, 5 * o, 100, 1022);
    binary64::lemma_order(edge, r);
    binary64::lemma_order(price, Binary64::whole(0));
    binary64::lemma_order(Binary64::whole(100), price);
}

/// The opportunity on a market, if it is in scope and has one.
#[verifier::opaque]
pub open spec fn chance(
    memory: Memory,
    market: KalshiMarket,
    estimate: BrtiEstimate,
    now_ms: u64,
    e: Binary64,
) -> Option<TradeOpportunity> {
    if engine::in_scope(market, estimate, now_ms) {
        memory.offer(market, estimate, now_ms, e)
    } else {
        None
    }
}

/// Which markets of a row have an opportunity.
pub open spec fn offering(
    memory: Memory,
    markets: Seq<KalshiMarket>,
    exps: Seq<Binary64>,
    estimate: BrtiEstimate,
    now_ms: u64,
) -> spec_fn(int) -> bool {
    |i: int| chance(memory, markets[i], estimate, now_ms, exps[i]) is Some
}

/// The places of a row.
pub open spec fn places(n: nat) -> Seq<int> {
    Seq::new(n, |i: int| i)
}

/// Over a row of markets with different tickers, the opportunities are those on the markets in scope
/// that have one, each and in their order: none keeps another from its own.
pub proof fn lemma_every_market_has_its_chance(
    memory: Memory,
    markets: Seq<KalshiMarket>,
    exps: Seq<Binary64>,
    estimate: BrtiEstimate,
    now_ms: u64,
)
    requires
        exps.len() >= markets.len(),
        forall|i: int, j: int|
            0 <= i < j < markets.len() ==> (#[trigger] markets[i]).ticker@ != (
            #[trigger] markets[j]).ticker@,
    ensures
        ({
            let found = memory.scanned(markets, exps, estimate, now_ms).1;
            let at = places(markets.len()).filter(
                offering(memory, markets, exps, estimate, now_ms),
            );
            &&& found.len() == at.len()
            &&& forall|k: int|
                #![trigger found[k]]
                #![trigger at[k]]
                0 <= k < found.len() ==> 0 <= at[k] && at[k] < markets.len() && Some(found[k])
                    == chance(memory, markets[at[k]], estimate, now_ms, exps[at[k]])
        }),
{
    lemma_scan(memory, markets, exps, estimate, now_ms, markets.len());
    assert(markets.take(markets.len() as int) == markets);
    reveal(scan);
}

/// What a row of markets leads to.
#[verifier::opaque]
spec fn scan(
    memory: Memory,
    row: Seq<KalshiMarket>,
    exps: Seq<Binary64>,
    estimate: BrtiEstimate,
    now_ms: u64,
) -> (Memory, Seq<TradeOpportunity>) {
    memory.scanned(row, exps, estimate, now_ms)
}

/// One more market, and what it leads to.
proof fn lemma_scan_step(
    memory: Memory,
    row: Seq<KalshiMarket>,
    exps: Seq<Binary64>,
    estimate: BrtiEstimate,
    now_ms: u64,
)
    requires
        row.len() > 0,
    ensures
        ({
            let (middle, before) = scan(memory, row.drop_last(), exps, estimate, now_ms);
            let (after, found) = scan(memory, row, exps, estimate, now_ms);
            let market = row.last();
            &&& after.last_direction == middle.last_direction
            &&& forall|ticker: Seq<char>|
                ticker != market.ticker@ ==> #[trigger] after.cooling(ticker, estimate.timestamp)
                    == middle.cooling(ticker, estimate.timestamp)
            &&& found == (match chance(middle, market, estimate, now_ms, exps[row.len() - 1]) {
                Some(opp) => before.push(opp),
                None => before,
            })
        }),
{
    reveal(chance);
    reveal(scan);
}

/// The opportunity on a market goes by the direction and by whether its own ticker cools down.
proof fn lemma_same_chance(
    one: Memory,
    other: Memory,
    market: KalshiMarket,
    estimate: BrtiEstimate,
    now_ms: u64,
    e: Binary64,
)
    requires
        one.last_direction == other.last_direction,
        one.cooling(market.ticker@, estimate.timestamp) == other.cooling(
            market.ticker@,
            estimate.timestamp,
        ),
    ensures
        chance(one, market, estimate, now_ms, e) == chance(other, market, estimate, now_ms, e),
{
    reveal(chance);
}

/// Whether a memory is as another one for the markets from a place on.
spec fn alike(
    one: Memory,
    other: Memory,
    markets: Seq<KalshiMarket>,
    from: int,
    timestamp: u64,
) -> bool {
    &&& one.last_direction == other.last_direction
    &&& forall|i: int|
        from <= i < markets.len() ==> one.cooling((#[trigger] markets[i]).ticker@, timestamp)
            == other.cooling(markets[i].ticker@, timestamp)
}

proof fn lemma_scan(
    memory: Memory,
    markets: Seq<KalshiMarket>,
    exps: Seq<Binary64>,
    estimate: BrtiEstimate,
    now_ms: u64,
    n: nat,
)
    requires
        n <= markets.len() <= exps.len(),
        forall|i: int, j: int|
            0 <= i < j < markets.len() ==> (#[trigger] markets[i]).ticker@ != (
            #[trigger] markets[j]).ticker@,
    ensures
        ({
            let (after, found) = scan(memory, markets.take(n as int), exps, estimate, now_ms);
            let at = places(n).filter(offering(memory, markets, exps, estimate, now_ms));
            &&& alike(after, memory, markets, n as int, estimate.timestamp)
            &&& found.len() == at.len()
            &&& forall|k: int|
                #![trigger found[k]]
                #![trigger at[k]]
                0 <= k < found.len() ==> 0 <= at[k] && at[k] < n && Some(found[k]) == chance(
                    memory,
                    markets[at[k]],
                    estimate,
                    now_ms,
                    exps[at[k]],
                )
        }),
    decreases n,
{
    reveal(Seq::filter);
    let row = markets.take(n as int);
    let pred = offering(memory, markets, exps, estimate, now_ms);
    if n > 0 {
        let m = (n - 1) as nat;
        lemma_scan(memory, markets, exps, estimate, now_ms, m);
        assert(row.drop_last() == markets.take(m as int));
        assert(row.last() == markets[m as int]);
        assert(places(n).drop_last() == places(m));
        assert(places(n).last() == m);
        let (middle, before) = scan(memory, markets.take(m as int), exps, estimate, now_ms);
        lemma_scan_step(memory, row, exps, estimate, now_ms);
        let (after, found) = scan(memory, row, exps, estimate, now_ms);
        let at = places(n).filter(pred);
        let earlier = places(m).filter(pred);
        let market = markets[m as int];
        lemma_same_chance(middle, memory, market, estimate, now_ms, exps[m as int]);
        assert(alike(after, memory, markets, n as int, estimate.timestamp)) by {
            assert forall|i: int| n <= i < markets.len() implies after.cooling(
                (#[trigger] markets[i]).ticker@,
                estimate.timestamp,
            ) == memory.cooling(markets[i].ticker@, estimate.timestamp) by {
                assert(markets[m as int].ticker@ != markets[i].ticker@);
            }
        }
        assert forall|k: int|
            #![trigger found[k]]
            #![trigger at[k]]
            0 <= k < found.len() implies 0 <= at[k] && at[k] < n && Some(found[k]) == chance(
            memory,
            markets[at[k]],
            estimate,
            now_ms,
            exps[at[k]],
        ) by {
            if k < before.len() {
                assert(found[k] == before[k]);
                assert(at[k] == earlier[k]);
            }
        }
    } else {
        assert(row.len() == 0);
        assert(places(0).len() == 0);
        reveal(scan);
    }
}

/// The waits and windows of the engine: two confirmations, five minutes to close, 30 seconds for a
/// ticker, and 30 seconds for a spike.
pub proof fn lemma_engine_waits()
    ensures
        engine::DIRECTION_CONFIRMS == 2,
        engine::MIN_TO_CLOSE_MS == 5 * 60 * 1000,
        engine::TICKER_COOLDOWN_MS == 30 * 1000,
        engine::SPIKE_WINDOW_SECS == 30,
{
}

/// The discount where few exchanges are live: 70 percent, and 30 percent of the confidence.
proof fn lemma_discount(confidence: Binary64)
    requires
        confidence.finite(),
        0 <= confidence.units() <= binary64::one(),
    ensures
        ({
            let d = Binary64::ratio(7, 10).sum(confidence.product(Binary64::ratio(3, 10)));
            &&& d.finite()
            &&& 0 <= d.units() <= 2 * binary64::one()
            &&& -(10 * pow2(1023)) <= 10 * d.units() - (7 * binary64::one() + 3
                * confidence.units()) <= 10 * pow2(1023)
        }),
{
    let o = binary64::one();
    let seven = Binary64::ratio(7, 10);
    let three = Binary64::ratio(3, 10);
    let c = confidence.units();
    let q = pow2(1020) as int;
    lemma2_to64();
    lemma2_to64_rest();
    lemma_pow2_pos(1074);
    lemma_pow2_pos(1020);
    lemma_pow2_adds(1, 1020);
    lemma_pow2_adds(2, 1020);
    lemma_pow2_adds(3, 1020);
    lemma_pow2_adds(54, 1020);
    lemma_pow2_adds(1, 1074);
    accuracy::lemma_ratio_key(7, 10);
    accuracy::lemma_ratio_key(3, 10);
    order::lemma_nearest_error(seven, 7 * o, 10, 1021);
    order::lemma_nearest_error(three, 3 * o, 10, 1021);
    let v = three.units();
    assert(0 <= c * v && c * v < o * o && -(o * o) < c * v) by (nonlinear_arith)
        requires
            0 <= c <= o,
            0 <= v < o,
            0 < o,
    {
        assert(c * v <= o * v);
        assert(o * v < o * o);
        assert(0 <= c * v);
    }
    lemma_near_product(confidence, three, 1021);
    let x = confidence.product(three).units();
    let d = 10 * v - 3 * o;
    assert(-(o * (10 * q)) <= d * c && d * c <= o * (10 * q)) by (nonlinear_arith)
        requires
            -(10 * q) <= d <= 10 * q,
            0 <= c <= o,
            0 < q,
    {
        assert(d * c <= (10 * q) * c);
        assert(d * c >= (-(10 * q)) * c);
        assert((10 * q) * c <= (10 * q) * o);
        assert((-(10 * q)) * c == -((10 * q) * c));
    }
    let t = 10 * x - 3 * c;
    assert(o * t == 10 * (o * x - c * v) + d * c) by (nonlinear_arith)
        requires
            t == 10 * x - 3 * c,
            d == 10 * v - 3 * o,
    ;
    assert(o * pow2(1021) == 2 * (o * q) && o * (20 * q) == 20 * (o * q) && o * (10 * q) == 10 * (o
        * q)) by (nonlinear_arith)
        requires
            pow2(1021) == 2 * q,
    ;
    lemma_divided(o, t, 20 * q);
    accuracy::lemma_near_sum(seven, confidence.product(three), 1022);
}

/// The logistic function of a logit, given the exponential of minus the logit: its product with one and
/// the exponential is one.
proof fn lemma_logistic(e: Binary64)
    requires
        e.finite(),
        0 <= e.units() <= 63 * binary64::one(),
    ensures
        ({
            let o = binary64::one();
            let one = Binary64::whole(1);
            let s = one.sum(e);
            let q = one.quotient(s);
            &&& s.finite()
            &&& o <= s.units() <= 64 * o
            &&& -pow2(1027) <= s.units() - (o + e.units()) <= pow2(1027)
            &&& q.finite()
            &&& 0 <= q.units() <= o
            &&& -(s.units() * pow2(1021)) <= s.units() * q.units() - o * o <= s.units() * pow2(1021)
        }),
{
    let o = binary64::one();
    let one = Binary64::whole(1);
    let most = Binary64::whole(64);
    let zero = Binary64::whole(0);
    lemma2_to64();
    lemma2_to64_rest();
    lemma_pow2_pos(1074);
    lemma_pow2_pos(1021);
    lemma_pow2_adds(7, 1074);
    lemma_pow2_adds(1, 1027);
    lemma_pow2_adds(1, 1074);
    lemma_pow2_adds(1, 1021);
    laws::lemma_whole_exact(1);
    laws::lemma_whole_exact(64);
    assert(1 * o == o);
    order::lemma_zero(one);
    order::lemma_own_key(one);
    order::lemma_own_key(most);
    order::lemma_own_key(zero);
    accuracy::lemma_near_sum(one, e, 1028);
    let s = one.sum(e);
    order::lemma_sum_key(one, e);
    order::lemma_nearest_order(o, 1, o + e.units(), 1);
    order::lemma_nearest_order(o + e.units(), 1, 64 * o, 1);
    binary64::lemma_order(one, s);
    binary64::lemma_order(s, most);
    let u = s.units();
    let q = one.quotient(s);
    order::lemma_quotient_key(one, s);
    assert(-(u * (2 * o)) < o * o && o * o < u * (2 * o) && 0 * u <= (o * o) * 1 && (o * o) * 1 <= o
        * u) by (nonlinear_arith)
        requires
            0 < o <= u,
    {
        assert(o * o <= o * u);
        assert(0 < o * o);
        assert(u * (2 * o) == 2 * (o * u));
    }
    order::lemma_nearest_error(q, o * o, u, 1022);
    order::lemma_nearest_order(0, 1, o * o, u);
    order::lemma_nearest_order(o * o, u, o, 1);
    binary64::lemma_order(zero, q);
    binary64::lemma_order(q, one);
    assert(u * pow2(1022) == 2 * (u * pow2(1021))) by (nonlinear_arith)
        requires
            pow2(1022) == 2 * pow2(1021),
    ;
}

/// The discounted logistic function, before it is held.
proof fn lemma_unheld(e: Binary64, confidence: Binary64)
    requires
        e.finite(),
        0 <= e.units() <= 63 * binary64::one(),
        confidence.finite(),
        0 <= confidence.units() <= binary64::one(),
    ensures
        ({
            let o = binary64::one();
            let one = Binary64::whole(1);
            let d = Binary64::ratio(7, 10).sum(confidence.product(Binary64::ratio(3, 10)));
            let p = one.quotient(one.sum(e)).product(d);
            let off = 10 * (p.units() * (o + e.units())) - (7 * o + 3 * confidence.units()) * o;
            &&& p.finite()
            &&& -((o + e.units()) * pow2(1032)) <= off <= (o + e.units()) * pow2(1032)
        }),
{
    let o = binary64::one();
    let one = Binary64::whole(1);
    let d = Binary64::ratio(7, 10).sum(confidence.product(Binary64::ratio(3, 10)));
    let s = one.sum(e);
    let q = one.quotient(s);
    let p = q.product(d);
    let c = confidence.units();
    let h = pow2(1021) as int;
    lemma2_to64();
    lemma2_to64_rest();
    lemma_pow2_pos(1074);
    lemma_pow2_pos(1021);
    lemma_pow2_adds(2, 1021);
    lemma_pow2_adds(3, 1021);
    lemma_pow2_adds(6, 1021);
    lemma_pow2_adds(11, 1021);
    lemma_pow2_adds(53, 1021);
    lemma_pow2_adds(2, 1074);
    lemma_discount(confidence);
    lemma_logistic(e);
    let v = d.units();
    let x = q.units();
    let u = s.units();
    assert(-(o * (4 * o)) < x * v && x * v < o * (4 * o) && 0 <= x * v) by (nonlinear_arith)
        requires
            0 <= x <= o,
            0 <= v <= 2 * o,
            0 < o,
    {
        assert(x * v <= o * v);
        assert(o * v <= o * (2 * o));
        assert(o * (2 * o) == 2 * (o * o));
        assert(o * (4 * o) == 4 * (o * o));
        assert(0 < o * o);
        assert(0 <= x * v);
    }
    lemma_near_product(q, d, 1023);
    let y = p.units();
    let n = o + e.units();
    lemma_unheld_bounds(o, h, u, x, v, y, n, c);
}

proof fn lemma_unheld_bounds(o: int, h: int, u: int, x: int, v: int, y: int, n: int, c: int)
    requires
        0 < h,
        o == 0x20_0000_0000_0000 * h,
        o <= u,
        o <= n,
        0 <= x <= o,
        0 <= v <= 2 * o,
        -(64 * h) <= u - n <= 64 * h,
        -(u * h) <= u * x - o * o <= u * h,
        -(o * (4 * h)) <= 2 * (o * y - x * v) <= o * (4 * h),
        -(10 * (4 * h)) <= 10 * v - (7 * o + 3 * c) <= 10 * (4 * h),
    ensures
        -(n * (2048 * h)) <= 10 * (y * n) - (7 * o + 3 * c) * o <= n * (2048 * h),
{
    let a = o * y - x * v;
    let b = u * x - o * o;
    let w = u - n;
    let z = 10 * v - (7 * o + 3 * c);
    let oh = o * h;
    let nh = n * h;
    assert(oh <= nh && 0 < oh) by (nonlinear_arith)
        requires
            oh == o * h,
            nh == n * h,
            0 < o <= n,
            0 < h,
    ;
    assert(u * h <= 2 * nh) by (nonlinear_arith)
        requires
            u <= n + 64 * h,
            nh == n * h,
            64 * h <= n,
            0 < h,
    {
        assert(u * h <= (2 * n) * h);
    }
    // The number is at most three.
    assert(-(o) <= y && y <= 3 * o) by (nonlinear_arith)
        requires
            -(o * (4 * h)) <= 2 * (o * y - x * v) <= o * (4 * h),
            0 <= x <= o,
            0 <= v <= 2 * o,
            4 * h <= o,
            0 < o,
            0 < h,
    {
        assert(0 <= x * v);
        assert(x * v <= o * v);
        assert(o * v <= o * (2 * o));
        assert(o * (4 * h) <= o * o);
        if y > 3 * o {
            assert(o * y > o * (3 * o));
            assert(o * (3 * o) == 3 * (o * o));
            assert(o * (2 * o) == 2 * (o * o));
        }
        if y < -o {
            assert(o * y < o * (-o));
            assert(o * (-o) == -(o * o));
        }
    }
    // o * (y * u) == u * a + v * b + v * o * o.
    assert(o * (y * u) == u * a + v * b + o * (v * o)) by (nonlinear_arith)
        requires
            a == o * y - x * v,
            b == u * x - o * o,
    ;
    let m = y * u - v * o;
    assert(o * m == u * a + v * b) by (nonlinear_arith)
        requires
            m == y * u - v * o,
            o * (y * u) == u * a + v * b + o * (v * o),
    ;
    assert(-(o * (4 * (2 * nh))) <= u * a + v * b && u * a + v * b <= o * (4 * (2 * nh)))
        by (nonlinear_arith)
        requires
            -(o * (4 * h)) <= 2 * a <= o * (4 * h),
            -(u * h) <= b <= u * h,
            0 <= v <= 2 * o,
            u * h <= 2 * nh,
            0 < o <= u,
            0 < h,
    {
        assert(u * (2 * a) <= u * (o * (4 * h)));
        assert(u * (2 * a) >= u * (-(o * (4 * h))));
        assert(u * (o * (4 * h)) == 4 * (o * (u * h)));
        assert(u * (-(o * (4 * h))) == -(4 * (o * (u * h))));
        assert(u * (2 * a) == 2 * (u * a));
        assert(v * b <= v * (u * h));
        assert(v * b >= v * (-(u * h)));
        assert(v * (-(u * h)) == -(v * (u * h)));
        assert(0 <= u * h);
        assert(v * (u * h) <= (2 * o) * (u * h));
        assert((2 * o) * (u * h) == 2 * (o * (u * h)));
        assert(o * (u * h) <= o * (2 * nh));
        assert(o * (4 * (2 * nh)) == 4 * (o * (2 * nh)));
    }
    lemma_divided(o, m, 4 * (2 * nh));
    assert(y * n == y * u - y * w) by (nonlinear_arith)
        requires
            w == u - n,
    ;
    assert(-(192 * oh) <= y * w && y * w <= 192 * oh) by (nonlinear_arith)
        requires
            -(3 * o) <= y <= 3 * o,
            -(64 * h) <= w <= 64 * h,
            oh == o * h,
            0 < o,
            0 < h,
    {
        let yy = if y >= 0 {
            y
        } else {
            -y
        };
        let ww = if w >= 0 {
            w
        } else {
            -w
        };
        assert(0 <= yy * ww);
        assert(yy * ww <= (3 * o) * ww);
        assert((3 * o) * ww <= (3 * o) * (64 * h));
        assert((3 * o) * (64 * h) == 192 * (o * h));
        assert(y * w == yy * ww || y * w == -(yy * ww));
    }
    assert(10 * (v * o) == (7 * o + 3 * c) * o + z * o) by (nonlinear_arith)
        requires
            z == 10 * v - (7 * o + 3 * c),
    ;
    assert(-(40 * oh) <= z * o && z * o <= 40 * oh) by (nonlinear_arith)
        requires
            -(10 * (4 * h)) <= z <= 10 * (4 * h),
            oh == o * h,
            0 < o,
    {
        assert(z * o <= (10 * (4 * h)) * o);
        assert(z * o >= (-(10 * (4 * h))) * o);
        assert((10 * (4 * h)) * o == 40 * (o * h));
        assert((-(10 * (4 * h))) * o == -(40 * (o * h)));
    }
    assert(n * (2048 * h) == 2048 * nh) by (nonlinear_arith)
        requires
            nh == n * h,
    ;
}

/// Where the exponential is large, the discounted logistic function is small.
proof fn lemma_far_below(e: Binary64, confidence: Binary64)
    requires
        e.finite(),
        63 * binary64::one() <= e.units(),
        confidence.finite(),
        0 <= confidence.units() <= binary64::one(),
    ensures
        ({
            let one = Binary64::whole(1);
            let d = Binary64::ratio(7, 10).sum(confidence.product(Binary64::ratio(3, 10)));
            let p = one.quotient(one.sum(e)).product(d);
            &&& p.finite()
            &&& 100 * p.units() < 4 * binary64::one()
        }),
{
    let o = binary64::one();
    let one = Binary64::whole(1);
    let zero = Binary64::whole(0);
    let d = Binary64::ratio(7, 10).sum(confidence.product(Binary64::ratio(3, 10)));
    let s = one.sum(e);
    let q = one.quotient(s);
    let p = q.product(d);
    let least = Binary64::whole(64);
    lemma2_to64();
    lemma2_to64_rest();
    lemma_pow2_pos(1074);
    lemma_pow2_pos(1021);
    lemma_pow2_pos(1068);
    lemma_pow2_adds(6, 1068);
    lemma_pow2_adds(1, 1021);
    lemma_pow2_adds(53, 1021);
    lemma_pow2_adds(47, 1021);
    lemma_pow2_adds(1, 1074);
    lemma_discount(confidence);
    laws::lemma_whole_exact(1);
    laws::lemma_whole_exact(64);
    assert(1 * o == o);
    order::lemma_zero(one);
    order::lemma_own_key(one);
    order::lemma_own_key(zero);
    order::lemma_own_key(least);
    order::lemma_sum_key(one, e);
    order::lemma_nearest_order(64 * o, 1, o + e.units(), 1);
    let y = Binary64::make(false, crate::numeric::rounding::round_ratio(1int * pow2(1068), 1));
    laws::lemma_round_exact(1, 1068);
    order::lemma_own_key(y);
    if s.finite() {
        binary64::lemma_order(least, s);
        let u = s.units();
        order::lemma_quotient_key(one, s);
        let g = pow2(1068) as int;
        assert(0 * u <= (o * o) * 1 && (o * o) * 1 <= g * u && 0 < u) by (nonlinear_arith)
            requires
                64 * o <= u,
                o == 64 * g,
                0 < o,
        {
            assert(o * (64 * o) <= o * u);
            assert(o * (64 * o) == 64 * (o * o));
            assert(o * u == (64 * g) * u);
            assert((64 * g) * u == 64 * (g * u));
            assert(0 < o * o);
        }
        order::lemma_nearest_order(0, 1, o * o, u);
        order::lemma_nearest_order(o * o, u, g, 1);
    } else {
        binary64::lemma_small_units(0);
    }
    assert(q.finite());
    order::lemma_own_key(q);
    binary64::lemma_order(zero, q);
    binary64::lemma_order(q, y);
    let x = q.units();
    let v = d.units();
    let g = pow2(1068) as int;
    assert(0 <= x * v && x * v <= o * (2 * g) && -(o * o) < x * v && x * v < o * o)
        by (nonlinear_arith)
        requires
            0 <= x <= g,
            0 <= v <= 2 * o,
            o == 64 * g,
            0 < g,
    {
        assert(0 <= x * v);
        assert(x * v <= g * v);
        assert(g * v <= g * (2 * o));
        assert(g * (2 * o) == o * (2 * g));
        assert(o * (2 * g) < o * (64 * g));
    }
    lemma_near_product(q, d, 1021);
    let w = p.units();
    assert(w <= 2 * g + pow2(1021)) by (nonlinear_arith)
        requires
            2 * (o * w - x * v) <= o * pow2(1021),
            x * v <= o * (2 * g),
            0 < o,
            0 <= pow2(1021),
    {
        let b = 2 * g + pow2(1021);
        if w > b {
            assert(o * w > o * b);
            assert(o * b == o * (2 * g) + o * pow2(1021));
            assert(0 <= o * pow2(1021));
        }
    }
}

/// The model's probability is the logistic function of the logit, with 70 percent of it and 30 percent
/// for the confidence, held between 5 and 95 percent: twenty times the probability times one and the
/// exponential of minus the logit is twice seven and three confidences, held between one and nineteen
/// times one and the exponential; up to two to the power of minus 40.
pub proof fn lemma_model_in_exact_numbers(e: Binary64, confidence: Binary64)
    requires
        e.finite(),
        0 <= e.units(),
        confidence.finite(),
        0 <= confidence.units() <= binary64::one(),
    ensures
        ({
            let o = binary64::one();
            let p = probability::discounted(e, confidence);
            let n = o + e.units();
            let exact = held(2 * ((7 * o + 3 * confidence.units()) * o), n * o, 19 * (n * o));
            &&& p.finite()
            &&& -(n * pow2(1034)) <= 20 * (p.units() * n) - exact <= n * pow2(1034)
        }),
{
    let o = binary64::one();
    let one = Binary64::whole(1);
    let d = Binary64::ratio(7, 10).sum(confidence.product(Binary64::ratio(3, 10)));
    let x = one.quotient(one.sum(e)).product(d);
    let low = Binary64::ratio(5, 100);
    let high = Binary64::ratio(95, 100);
    let c = confidence.units();
    let n = o + e.units();
    let h = pow2(1021) as int;
    lemma2_to64();
    lemma2_to64_rest();
    lemma_pow2_pos(1074);
    lemma_pow2_pos(1021);
    lemma_pow2_adds(11, 1021);
    lemma_pow2_adds(13, 1021);
    lemma_pow2_adds(53, 1021);
    accuracy::lemma_ratio_key(5, 100);
    accuracy::lemma_ratio_key(95, 100);
    order::lemma_nearest_error(low, 5 * o, 100, 1021);
    order::lemma_nearest_error(high, 95 * o, 100, 1021);
    laws::lemma_ratio_order(5, 95, 100);
    binary64::lemma_order(low, high);
    let a = low.units();
    let b = high.units();
    let nh = n * h;
    let no = n * o;
    lemma_scaled_literal(a, o, h, n, 5);
    lemma_scaled_literal(b, o, h, n, 95);
    assert(n * pow2(1034) == 0x2000 * nh && n * pow2(1032) == 0x800 * nh) by (nonlinear_arith)
        requires
            pow2(1034) == 0x2000 * h,
            pow2(1032) == 0x800 * h,
            nh == n * h,
    ;
    assert(0 < nh) by (nonlinear_arith)
        requires
            nh == n * h,
            0 < n,
            0 < h,
    ;
    let num = (7 * o + 3 * c) * o;
    if e.units() <= 63 * o {
        lemma_unheld(e, confidence);
        binary64::lemma_order(x, low);
        binary64::lemma_order(high, x);
        let y = x.units();
        assert(y < a ==> y * n <= a * n) by (nonlinear_arith)
            requires
                0 < n,
        ;
        assert(b < y ==> b * n <= y * n) by (nonlinear_arith)
            requires
                0 < n,
        ;
        assert(a <= y ==> a * n <= y * n) by (nonlinear_arith)
            requires
                0 < n,
        ;
        assert(y <= b ==> y * n <= b * n) by (nonlinear_arith)
            requires
                0 < n,
        ;
    } else {
        lemma_far_below(e, confidence);
        binary64::lemma_order(x, low);
        assert(2 * num <= no) by (nonlinear_arith)
            requires
                num == (7 * o + 3 * c) * o,
                no == n * o,
                0 <= c <= o,
                64 * o <= n,
                0 < o,
        {
            assert((7 * o + 3 * c) * o <= (10 * o) * o);
            assert((64 * o) * o <= n * o);
            assert((10 * o) * o == 10 * (o * o));
            assert((64 * o) * o == 64 * (o * o));
            assert(0 < o * o);
        }
        assert(0 < no) by (nonlinear_arith)
            requires
                no == n * o,
                0 < n,
                0 < o,
        ;
    }
}

proof fn lemma_scaled_literal(a: int, o: int, h: int, n: int, k: int)
    requires
        0 < n,
        -(100 * (2 * h)) <= 2 * (100 * a - k * o) <= 100 * (2 * h),
    ensures
        -(100 * (n * h)) <= 100 * (a * n) - k * (n * o) <= 100 * (n * h),
{
    let w = 100 * a - k * o;
    assert(100 * (a * n) - k * (n * o) == n * w) by (nonlinear_arith)
        requires
            w == 100 * a - k * o,
    ;
    assert(-(100 * (n * h)) <= n * w && n * w <= 100 * (n * h)) by (nonlinear_arith)
        requires
            -(100 * h) <= w <= 100 * h,
            0 < n,
    {
        assert(n * w <= n * (100 * h));
        assert(n * w >= n * (-(100 * h)));
        assert(n * (-(100 * h)) == -(100 * (n * h)));
        assert(n * (100 * h) == 100 * (n * h));
    }
}

/// The net odds at a price in whole cents.
proof fn lemma_net_odds(price: Binary64, c: int)
    requires
        is_whole(price, c),
        1 <= c <= 99,
    ensures
        ({
            let o = binary64::one();
            let b = Binary64::whole(100).difference(price).quotient(price);
            &&& b.finite()
            &&& o < 128 * b.units()
            &&& b.units() <= 100 * o
            &&& -(c * pow2(1027)) <= c * b.units() - (100 - c) * o <= c * pow2(1027)
        }),
{
    let o = binary64::one();
    let hundred = Binary64::whole(100);
    let x = hundred.difference(price);
    let b = x.quotient(price);
    let q = pow2(1027) as int;
    lemma2_to64();
    lemma2_to64_rest();
    lemma_pow2_pos(1074);
    lemma_pow2_pos(1027);
    lemma_pow2_adds(1, 1027);
    lemma_pow2_adds(47, 1027);
    lemma_pow2_adds(7, 1074);
    laws::lemma_whole_exact(100);
    accuracy::lemma_whole_difference(hundred, price, 100, c);
    let d = c * o;
    let n = ((100 - c) * o) * o;
    assert(0 < d && -(d * (128 * o)) < n && n < d * (128 * o)) by (nonlinear_arith)
        requires
            d == c * o,
            n == ((100 - c) * o) * o,
            1 <= c <= 99,
            0 < o,
    {
        assert(o <= c * o);
        assert(o * (128 * o) <= d * (128 * o));
        assert(o * (128 * o) == 128 * (o * o));
        assert(((100 - c) * o) * o == (100 - c) * (o * o)) by (nonlinear_arith);
        assert((100 - c) * (o * o) <= 99 * (o * o));
        assert(0 < o * o);
        assert(0 <= (100 - c) * (o * o));
    }
    order::lemma_quotient_key(x, price);
    order::lemma_nearest_error(b, n, d, 1028);
    let u = b.units();
    let w = c * u - (100 - c) * o;
    assert(d * u - n == o * w) by (nonlinear_arith)
        requires
            d == c * o,
            n == ((100 - c) * o) * o,
            w == c * u - (100 - c) * o,
    ;
    assert(d * pow2(1028) == 2 * (o * (c * q))) by (nonlinear_arith)
        requires
            d == c * o,
            pow2(1028) == 2 * q,
    ;
    lemma_divided(o, w, c * q);
    assert(c * q < o) by (nonlinear_arith)
        requires
            1 <= c <= 99,
            o == 0x8000_0000_0000 * q,
            0 < q,
    ;
    assert(1000 * (c * q) < o) by (nonlinear_arith)
        requires
            1 <= c <= 99,
            o == 0x8000_0000_0000 * q,
            0 < q,
    ;
    assert(o < 128 * u && u <= 100 * o) by (nonlinear_arith)
        requires
            w == c * u - (100 - c) * o,
            -(c * q) <= w <= c * q,
            1000 * (c * q) < o,
            1 <= c <= 99,
            0 < o,
    {
        assert((100 - c) * o >= o);
        assert((100 - c) * o <= 99 * o);
        if 128 * u <= o {
            assert(c * (128 * u) <= c * o);
            assert(c * o <= 99 * o);
            assert(c * (128 * u) == 128 * (c * u));
        }
        if u > 100 * o {
            assert(c * u > c * (100 * o));
            assert(c * (100 * o) >= 100 * o);
        }
    }
}

/// The bet that is suggested, before it is scaled.
proof fn lemma_suggested_whole(p: Binary64, price: Binary64, c: int)
    requires
        p.finite(),
        0 <= p.units() <= binary64::one(),
        is_whole(price, c),
        1 <= c <= 99,
    ensures
        ({
            let o = binary64::one();
            let one = Binary64::whole(1);
            let b = Binary64::whole(100).difference(price).quotient(price);
            let f = p.product(b).difference(one.difference(p)).quotient(b);
            let off = f.units() * (100 - c) - (100 * p.units() - c * o);
            &&& f.finite()
            &&& -(0x4000 * o) <= f.units() <= 0x4000 * o
            &&& -pow2(1049) <= off <= pow2(1049)
        }),
{
    let o = binary64::one();
    let one = Binary64::whole(1);
    let odds = Binary64::whole(100).difference(price).quotient(price);
    let q = pow2(1027) as int;
    lemma2_to64();
    lemma2_to64_rest();
    lemma_pow2_pos(1074);
    lemma_pow2_pos(1021);
    lemma_pow2_pos(1027);
    lemma_pow2_adds(6, 1021);
    lemma_pow2_adds(1, 1021);
    lemma_pow2_adds(1, 1027);
    lemma_pow2_adds(8, 1027);
    lemma_pow2_adds(22, 1027);
    lemma_pow2_adds(47, 1027);
    lemma_pow2_adds(1, 1074);
    lemma_pow2_adds(7, 1074);
    lemma_pow2_adds(14, 1074);
    laws::lemma_whole_exact(1);
    assert(1 * o == o);
    lemma_net_odds(price, c);
    let b = odds.units();
    let x = p.units();
    assert(0 <= x * b && x * b <= o * (100 * o) && x * b < o * (128 * o) && -(o * (128 * o)) < x
        * b) by (nonlinear_arith)
        requires
            0 <= x <= o,
            0 < b <= 100 * o,
            0 < o,
    {
        assert(0 <= x * b);
        assert(x * b <= o * b);
        assert(o * b <= o * (100 * o));
        assert(o * (100 * o) == 100 * (o * o));
        assert(o * (128 * o) == 128 * (o * o));
        assert(0 < o * o);
    }
    lemma_near_product(p, odds, 1028);
    let won = p.product(odds);
    let a = won.units();
    accuracy::lemma_near_difference(one, p, 1022);
    let lost = one.difference(p);
    let l = lost.units();
    assert(-o <= a && a <= 101 * o) by (nonlinear_arith)
        requires
            -(o * (2 * q)) <= 2 * (o * a - x * b) <= o * (2 * q),
            0 <= x * b,
            x * b <= o * (100 * o),
            2 * q <= o,
            0 < o,
            0 < q,
    {
        assert(o * (2 * q) <= o * o);
        if a > 101 * o {
            assert(o * a > o * (101 * o));
            assert(o * (101 * o) == 101 * (o * o));
            assert(o * (100 * o) == 100 * (o * o));
        }
        if a < -o {
            assert(o * a < o * (-o));
            assert(o * (-o) == -(o * o));
        }
    };
    accuracy::lemma_near_difference(won, lost, 1028);
    let d = won.difference(lost);
    let n = d.units();
    order::lemma_quotient_key(d, odds);
    let f = d.quotient(odds);
    let top = 0x4000 * o;
    assert(-(b * top) < n * o && n * o < b * top) by (nonlinear_arith)
        requires
            -(104 * o) <= n <= 104 * o,
            o < 128 * b,
            top == 0x4000 * o,
            0 < o,
    {
        assert(n * o <= (104 * o) * o);
        assert(n * o >= (-(104 * o)) * o);
        assert((104 * o) * o == 104 * (o * o));
        assert((-(104 * o)) * o == -(104 * (o * o)));
        assert(o * o < (128 * b) * o);
        assert((128 * b) * o == 128 * (b * o));
        assert(b * (0x4000 * o) == 0x4000 * (b * o));
        assert(0 < o * o);
    }
    order::lemma_nearest_error(f, n * o, b, 1035);
    lemma_suggested_bounds(o, q, c, b, x, a, l, n, f.units());
}

proof fn lemma_suggested_bounds(
    o: int,
    q: int,
    c: int,
    b: int,
    x: int,
    a: int,
    l: int,
    n: int,
    f: int,
)
    requires
        0 < q,
        o == 0x8000_0000_0000 * q,
        1 <= c <= 99,
        0 <= x <= o,
        0 < b <= 100 * o,
        o < 128 * b,
        -(c * q) <= c * b - (100 - c) * o <= c * q,
        -(o * (2 * q)) <= 2 * (o * a - x * b) <= o * (2 * q),
        -q <= l - (o - x) <= q,
        -q <= n - (a - l) <= q,
        -(104 * o) <= n <= 104 * o,
        -(b * (256 * q)) <= 2 * (b * f - n * o) <= b * (256 * q),
    ensures
        -(0x4000 * o) <= f <= 0x4000 * o,
        -(0x40_0000 * q) <= f * (100 - c) - (100 * x - c * o) <= 0x40_0000 * q,
{
    let w = c * b - (100 - c) * o;
    let s = o * a - x * b;
    let cq = c * q;
    assert(0 < cq && cq <= 99 * q) by (nonlinear_arith)
        requires
            cq == c * q,
            1 <= c <= 99,
            0 < q,
    ;
    // The quotient is at most about 13312.
    assert(-(0x4000 * o) <= f && f <= 0x4000 * o) by (nonlinear_arith)
        requires
            -(b * (256 * q)) <= 2 * (b * f - n * o) <= b * (256 * q),
            -(104 * o) <= n <= 104 * o,
            o < 128 * b,
            256 * q <= o,
            0 < o,
            0 < b,
    {
        assert(n * o <= (104 * o) * o);
        assert(n * o >= (-(104 * o)) * o);
        assert((104 * o) * o == 104 * (o * o));
        assert((-(104 * o)) * o == -(104 * (o * o)));
        assert(o * o < (128 * b) * o);
        assert((128 * b) * o == 128 * (b * o));
        assert(b * (256 * q) <= b * o);
        if f > 0x4000 * o {
            assert(b * f > b * (0x4000 * o));
            assert(b * (0x4000 * o) == 0x4000 * (b * o));
            assert(0 < b * o);
        }
        if f < -(0x4000 * o) {
            assert(b * f < b * (-(0x4000 * o)));
            assert(b * (-(0x4000 * o)) == -(0x4000 * (b * o)));
            assert(0 < b * o);
        }
    }
    // What is won, times the price.
    let won = c * a - x * (100 - c);
    assert(o * won == c * s + x * w) by (nonlinear_arith)
        requires
            won == c * a - x * (100 - c),
            s == o * a - x * b,
            w == c * b - (100 - c) * o,
    ;
    assert(-(o * (2 * cq)) <= c * s + x * w && c * s + x * w <= o * (2 * cq)) by (nonlinear_arith)
        requires
            -(o * (2 * q)) <= 2 * s <= o * (2 * q),
            -cq <= w <= cq,
            0 <= x <= o,
            cq == c * q,
            1 <= c,
            0 < cq,
    {
        assert(c * (2 * s) <= c * (o * (2 * q)));
        assert(c * (2 * s) >= c * (-(o * (2 * q))));
        assert(c * (o * (2 * q)) == 2 * (o * (c * q)));
        assert(c * (-(o * (2 * q))) == -(2 * (o * (c * q))));
        assert(c * (2 * s) == 2 * (c * s));
        assert(x * w <= x * cq);
        assert(x * w >= x * (-cq));
        assert(x * (-cq) == -(x * cq));
        assert(x * cq <= o * cq);
        assert(o * (2 * cq) == 2 * (o * cq));
    }
    lemma_divided(o, won, 2 * cq);
    // What is won less what is lost, times the price.
    let gain = c * n - (100 * x - c * o);
    assert(-(4 * cq) <= gain && gain <= 4 * cq) by (nonlinear_arith)
        requires
            gain == c * n - (100 * x - c * o),
            won == c * a - x * (100 - c),
            -(2 * cq) <= won <= 2 * cq,
            -q <= l - (o - x) <= q,
            -q <= n - (a - l) <= q,
            cq == c * q,
            1 <= c,
    {
        let y = l - (o - x);
        let z = n - (a - l);
        assert(c * n == c * a - c * l + c * z);
        assert(c * l == c * o - c * x + c * y);
        assert(c * y <= c * q);
        assert(c * y >= c * (-q));
        assert(c * z <= c * q);
        assert(c * z >= c * (-q));
        assert(c * (-q) == -(c * q));
        assert(x * (100 - c) == 100 * x - c * x);
    }
    assert(c * b <= 100 * o) by (nonlinear_arith)
        requires
            w == c * b - (100 - c) * o,
            w <= o,
            1 <= c,
            0 < o,
    ;
    // The quotient, times the net price.
    let off = f * (100 - c) - (100 * x - c * o);
    let t = b * f - n * o;
    assert(o * off == c * t + gain * o - f * w) by (nonlinear_arith)
        requires
            off == f * (100 - c) - (100 * x - c * o),
            t == b * f - n * o,
            gain == c * n - (100 * x - c * o),
            w == c * b - (100 - c) * o,
    ;
    assert(-(o * (0x40_0000 * q)) <= c * t + gain * o - f * w && c * t + gain * o - f * w <= o * (
    0x40_0000 * q)) by (nonlinear_arith)
        requires
            -(b * (256 * q)) <= 2 * t <= b * (256 * q),
            -(4 * cq) <= gain <= 4 * cq,
            -cq <= w <= cq,
            -(0x4000 * o) <= f <= 0x4000 * o,
            c * b <= 100 * o,
            cq <= 99 * q,
            0 < cq,
            1 <= c,
            0 < b,
            0 < q,
            0 < o,
    {
        let oq = o * q;
        assert(0 < oq);
        assert(c * (2 * t) <= c * (b * (256 * q)));
        assert(c * (2 * t) >= c * (-(b * (256 * q))));
        assert(c * (b * (256 * q)) == (c * b) * (256 * q));
        assert((c * b) * (256 * q) <= (100 * o) * (256 * q));
        assert((100 * o) * (256 * q) == 25_600 * oq);
        assert(c * (-(b * (256 * q))) == -(c * (b * (256 * q))));
        assert(c * (2 * t) == 2 * (c * t));
        assert(gain * o <= (4 * cq) * o);
        assert(gain * o >= (-(4 * cq)) * o);
        assert((4 * cq) * o <= (396 * q) * o);
        assert((396 * q) * o == 396 * oq);
        assert((-(4 * cq)) * o == -((4 * cq) * o));
        let ff = if f >= 0 {
            f
        } else {
            -f
        };
        let ww = if w >= 0 {
            w
        } else {
            -w
        };
        assert(0 <= ff * ww);
        assert(ff * ww <= (0x4000 * o) * ww);
        assert((0x4000 * o) * ww <= (0x4000 * o) * (99 * q));
        assert((0x4000 * o) * (99 * q) == (0x4000 * 99) * oq);
        assert(f * w == ff * ww || f * w == -(ff * ww));
        assert(o * (0x40_0000 * q) == 0x40_0000 * oq);
    }
    lemma_divided(o, off, 0x40_0000 * q);
}

/// The size that is suggested for a bet at a price in whole cents is a quarter of the Kelly bet: four
/// times the size, times a hundred less the price, is a hundred times the probability less the price,
/// and zero where that is negative; up to two to the power of minus 22.
pub proof fn lemma_suggested_size(p: Binary64, price: Binary64, c: int)
    requires
        p.finite(),
        0 <= p.units() <= binary64::one(),
        is_whole(price, c),
        1 <= c <= 99,
    ensures
        ({
            let o = binary64::one();
            let size = probability::kelly(
                p,
                Binary64::whole(100).difference(price).quotient(price),
                Binary64::ratio(25, 100),
            );
            let gain = 100 * p.units() - c * o;
            let off = 4 * (size.units() * (100 - c)) - (if gain < 0 {
                0
            } else {
                gain
            });
            &&& size.finite()
            &&& -pow2(1052) <= off <= pow2(1052)
        }),
{
    let o = binary64::one();
    let one = Binary64::whole(1);
    let zero = Binary64::whole(0);
    let b = Binary64::whole(100).difference(price).quotient(price);
    let f = p.product(b).difference(one.difference(p)).quotient(b);
    let r = Binary64::ratio(25, 100);
    lemma2_to64();
    lemma2_to64_rest();
    lemma_pow2_pos(1074);
    lemma_pow2_pos(1035);
    lemma_pow2_pos(1072);
    lemma_pow2_adds(2, 1072);
    lemma_pow2_adds(14, 1074);
    lemma_pow2_adds(14, 1035);
    lemma_pow2_adds(17, 1035);
    lemma_suggested_whole(p, price, c);
    order::lemma_zero(one);
    // A quarter is exact.
    let y = Binary64::make(false, crate::numeric::rounding::round_ratio(1int * pow2(1072), 1));
    laws::lemma_round_exact(1, 1072);
    accuracy::lemma_ratio_key(25, 100);
    accuracy::lemma_exact(r, y, 25 * o, 100);
    let u = f.units();
    let v = r.units();
    assert(4 * v == o);
    assert(-(o * (0x4000 * o)) < u * v && u * v < o * (0x4000 * o)) by (nonlinear_arith)
        requires
            -(0x4000 * o) <= u <= 0x4000 * o,
            4 * v == o,
            0 < o,
            0 < v,
    {
        assert(u * v <= (0x4000 * o) * v);
        assert(u * v >= (-(0x4000 * o)) * v);
        assert((-(0x4000 * o)) * v == -((0x4000 * o) * v));
        assert((0x4000 * o) * v < (0x4000 * o) * o);
    }
    lemma_near_product(f, r, 1035);
    let x = f.product(r);
    let w = x.units();
    let h = pow2(1035) as int;
    let d = 4 * w - u;
    assert(2 * (o * d) == 8 * (o * w) - 2 * (o * u)) by (nonlinear_arith)
        requires
            d == 4 * w - u,
    ;
    assert(4 * (u * v) == o * u) by (nonlinear_arith)
        requires
            4 * v == o,
    ;
    assert(o * (2 * h) == 2 * (o * h)) by (nonlinear_arith);
    lemma_divided(o, d, 2 * h);
    binary64::lemma_order(x, zero);
    let k = 100 - c;
    assert(4 * (w * k) == u * k + d * k) by (nonlinear_arith)
        requires
            d == 4 * w - u,
    ;
    assert(-(198 * h) <= d * k && d * k <= 198 * h) by (nonlinear_arith)
        requires
            -(2 * h) <= d <= 2 * h,
            1 <= k <= 99,
            0 < h,
    ;
    assert(w < 0 ==> w * k < 0) by (nonlinear_arith)
        requires
            1 <= k,
    ;
    assert(w >= 0 ==> w * k >= 0) by (nonlinear_arith)
        requires
            1 <= k,
    ;
    assert(0 * k == 0);
}

/// An opportunity suggests a quarter of the Kelly bet of its own probability at its own price.
pub proof fn lemma_offer_suggests_the_size(
    memory: Memory,
    market: KalshiMarket,
    estimate: BrtiEstimate,
    now_ms: u64,
    e: Binary64,
    price_cents: int,
)
    requires
        memory.offer(market, estimate, now_ms, e) is Some,
        is_whole(
            if memory.last_direction == Direction::Up {
                market.yes_price
            } else {
                market.no_price
            },
            price_cents,
        ),
        1 <= price_cents <= 99,
        ({
            let p = memory.offer(market, estimate, now_ms, e)->0.signal.confidence;
            p.finite() && 0 <= p.units() <= binary64::one()
        }),
    ensures
        ({
            let o = binary64::one();
            let opp = memory.offer(market, estimate, now_ms, e)->0;
            let gain = 100 * opp.signal.confidence.units() - price_cents * o;
            let off = 4 * (opp.kelly_fraction.units() * (100 - price_cents)) - (if gain < 0 {
                0
            } else {
                gain
            });
            &&& opp.kelly_fraction.finite()
            &&& -pow2(1052) <= off <= pow2(1052)
        }),
{
    let opp = memory.offer(market, estimate, now_ms, e)->0;
    let price = if memory.last_direction == Direction::Up {
        market.yes_price
    } else {
        market.no_price
    };
    lemma_suggested_size(opp.signal.confidence, price, price_cents);
}

} // verus!
