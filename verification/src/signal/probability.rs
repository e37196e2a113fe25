//! The probability that a market resolves to yes, and the size of a bet on it.

use crate::numeric::binary64;
use crate::numeric::binary64::Binary64;
use crate::numeric::laws;
use crate::numeric::order;
use crate::numeric::rounding;
use crate::types::Direction;
use vstd::arithmetic::power2::*;
use vstd::prelude::*;

verus! {

/// The probability that a price implies.
pub open spec fn implied(price_cents: Binary64) -> Binary64 {
    price_cents.quotient(Binary64::whole(100))
}

/// The probability that a price in cents implies.
pub fn implied_probability(yes_price_cents: Binary64) -> (r: Binary64)
    ensures
        r == implied(yes_price_cents),
{
    yes_price_cents.div(Binary64::from_u64(100))
}

/// The logit of the model: a weighted sum of the distance from the strike, the time to go, at most
/// a quarter of an hour, and the size of the latest move.
pub open spec fn logit(
    brti_est: Binary64,
    strike: Binary64,
    seconds_to_close: Binary64,
    velocity: Binary64,
) -> Binary64 {
    let intercept = Binary64::ratio(1_261_386, 1_000_000);
    let by_distance = Binary64::ratio(82_579, 1_000_000).product(brti_est.difference(strike));
    let by_time = Binary64::ratio(1_716, 1_000_000).negated().product(
        seconds_to_close.held_between(Binary64::whole(0), Binary64::whole(900)),
    );
    let by_move = Binary64::ratio(98_562, 1_000_000).product(velocity.absolute());
    intercept.sum(by_distance).sum(by_time).sum(by_move)
}

/// The model's probability, given the exponential of minus its logit: the logistic function,
/// discounted where few exchanges are live, and held between 5 and 95 percent.
pub open spec fn discounted(exp_minus_logit: Binary64, brti_confidence: Binary64) -> Binary64 {
    let one = Binary64::whole(1);
    let discount = Binary64::ratio(7, 10).sum(brti_confidence.product(Binary64::ratio(3, 10)));
    one.quotient(one.sum(exp_minus_logit)).product(discount).held_between(
        Binary64::ratio(5, 100),
        Binary64::ratio(95, 100),
    )
}

/// The logit of the model.
pub fn model_logit(
    brti_est: Binary64,
    strike: Binary64,
    seconds_to_close: Binary64,
    velocity: Binary64,
) -> (r: Binary64)
    ensures
        r == logit(brti_est, strike, seconds_to_close, velocity),
{
    let intercept: Binary64 = Binary64::from_ratio(1_261_386, 1_000_000);
    let by_distance: Binary64 = Binary64::from_ratio(82_579, 1_000_000).mul(
        brti_est.sub(strike),
    );
    let seconds: Binary64 = seconds_to_close.clamp(
        Binary64::from_u64(0),
        Binary64::from_u64(900),
    );
    let by_time: Binary64 = Binary64::from_ratio(1_716, 1_000_000).neg().mul(seconds);
    let by_move: Binary64 = Binary64::from_ratio(98_562, 1_000_000).mul(velocity.abs());
    intercept.add(by_distance).add(by_time).add(by_move)
}

/// The model's probability, given the exponential of minus its logit.
pub fn discounted_probability(exp_minus_logit: Binary64, brti_confidence: Binary64) -> (r: Binary64)
    ensures
        r == discounted(exp_minus_logit, brti_confidence),
{
    let one: Binary64 = Binary64::from_u64(1);
    let yes_prob: Binary64 = one.div(one.add(exp_minus_logit));
    let discount: Binary64 = Binary64::from_ratio(7, 10).add(
        brti_confidence.mul(Binary64::from_ratio(3, 10)),
    );
    yes_prob.mul(discount).clamp(Binary64::from_ratio(5, 100), Binary64::from_ratio(95, 100))
}

/// The model's probability that a market resolves to yes: that the index is at the strike or above
/// when the market closes. `exp` is the exponential function.
pub fn model_probability<F: Fn(Binary64) -> Binary64>(
    _direction: &Direction,
    brti_est: Binary64,
    strike: Binary64,
    seconds_to_close: Binary64,
    velocity: Binary64,
    brti_confidence: Binary64,
    exp: F,
) -> (r: Binary64)
    requires
        forall|x: Binary64| call_requires(exp, (x,)),
    ensures
        exists|e: Binary64|
            call_ensures(
                exp,
                (logit(brti_est, strike, seconds_to_close, velocity).negated(),),
                e,
            ) && r == #[trigger] discounted(e, brti_confidence),
{
    let z: Binary64 = model_logit(brti_est, strike, seconds_to_close, velocity);
    let e: Binary64 = exp(z.neg());
    discounted_probability(e, brti_confidence)
}

/// The Kelly bet at net odds, scaled, and zero where it would be negative.
pub open spec fn kelly(edge: Binary64, odds: Binary64, multiplier: Binary64) -> Binary64 {
    edge.product(odds).difference(Binary64::whole(1).difference(edge)).quotient(odds).product(
        multiplier,
    ).greater_of(Binary64::whole(0))
}

/// The Kelly bet at net odds, scaled, and zero where it would be negative.
pub fn kelly_fraction(edge: Binary64, odds: Binary64, kelly_multiplier: Binary64) -> (r: Binary64)
    ensures
        r == kelly(edge, odds, kelly_multiplier),
{
    edge.mul(odds).sub(Binary64::from_u64(1).sub(edge)).div(odds).mul(kelly_multiplier).max(
        Binary64::from_u64(0),
    )
}

/// Whatever the exponential is, the model's probability is between 5 and 95 percent, or a NaN.
pub proof fn lemma_probability_is_held(exp_minus_logit: Binary64, brti_confidence: Binary64)
    ensures
        ({
            let p = discounted(exp_minus_logit, brti_confidence);
            p.nan() || (Binary64::ratio(5, 100).at_most(p) && p.at_most(Binary64::ratio(95, 100)))
        }),
{
    laws::lemma_ratio_order(5, 95, 100);
}

/// A bet is never negative.
pub proof fn lemma_kelly_not_negative(edge: Binary64, odds: Binary64, multiplier: Binary64)
    ensures
        Binary64::whole(0).at_most(kelly(edge, odds, multiplier)),
{
    laws::lemma_whole_exact(0);
}

/// A ratio of at most one, and more than zero, is a number of at most one, and more than zero.
proof fn lemma_coefficient(n: int, d: int)
    requires
        0 < n <= d < 0x1000_0000,
    ensures
        Binary64::ratio(n, d).finite(),
        !Binary64::ratio(n, d).negative(),
        0 < Binary64::ratio(n, d).units() <= binary64::one(),
{
    let o = binary64::one();
    let x = Binary64::ratio(n, d);
    lemma_pow2_pos(1074);
    laws::lemma_ratio_order(n, d, d);
    laws::lemma_whole_exact(1);
    assert(1 * o == o);
    assert(o * d == d * o) by (nonlinear_arith);
    assert(0 <= n * o) by (nonlinear_arith)
        requires
            0 < n,
            0 < o,
    ;
    rounding::lemma_round_scale(o, 1, d);
    assert(Binary64::ratio(d, d) == Binary64::whole(1));
    binary64::lemma_order(x, Binary64::whole(1));
    laws::lemma_round_monotone(n * o, n * o, d);
    order::lemma_own_key(x);
    let least = Binary64::make(false, 1);
    binary64::lemma_small_units(1);
    order::lemma_own_key(least);
    rounding::lemma_pow2_consts();
    rounding::lemma_pow2_monotone(64, 1074);
    assert(1 * d <= (n * o) * 1) by (nonlinear_arith)
        requires
            1 <= n,
            d <= o,
            0 < d,
    ;
    order::lemma_nearest_order(1, 1, n * o, d);
}

/// A product with a finite factor of at most one, and more than zero, is finite where the other
/// factor is, and no NaN where it is none.
proof fn lemma_coefficient_product(c: Binary64, x: Binary64)
    requires
        c.finite(),
        !c.negative(),
        0 < c.units() <= binary64::one(),
        !x.nan(),
    ensures
        !c.product(x).nan(),
        c.product(x) == x.product(c),
        x.finite() ==> c.product(x).finite(),
{
    let o = binary64::one();
    lemma_pow2_pos(1074);
    order::lemma_own_key(c);
    order::lemma_product_commutes(c, x);
    if x.finite() {
        let y = x.absolute();
        order::lemma_own_key(x);
        order::lemma_own_key(y);
        order::lemma_product_key(c, x);
        order::lemma_product_key(c, y);
        let p = c.units() * y.units();
        assert(p * 1 <= y.units() * o && 0 <= p) by (nonlinear_arith)
            requires
                p == c.units() * y.units(),
                0 < c.units() <= o,
                0 <= y.units(),
        ;
        order::lemma_nearest_order(p, o, y.units(), 1);
        order::lemma_product_negated(c, x);
        order::lemma_product_negated(c, y);
    } else {
        assert(c.magnitude() != 0);
    }
}

/// The distance from the strike in the logit: no NaN, and more with a higher index or a lower
/// strike.
proof fn lemma_by_distance(a: Binary64, s: Binary64, b: Binary64, t: Binary64)
    requires
        a.finite() && b.finite() && a.at_most(b),
        s.finite() && t.finite() && t.at_most(s),
    ensures
        ({
            let c = Binary64::ratio(82_579, 1_000_000);
            &&& !c.product(a.difference(s)).nan()
            &&& !c.product(b.difference(t)).nan()
            &&& c.product(a.difference(s)).at_most(c.product(b.difference(t)))
        }),
{
    let c = Binary64::ratio(82_579, 1_000_000);
    lemma_coefficient(82_579, 1_000_000);
    order::lemma_difference_key(a, s);
    order::lemma_difference_key(b, t);
    order::lemma_difference_monotone(a, s, b, t);
    lemma_scaled_order(c, a.difference(s), b.difference(t));
}

proof fn lemma_scaled_order(c: Binary64, x: Binary64, y: Binary64)
    requires
        c.finite(),
        !c.negative(),
        0 < c.units() <= binary64::one(),
        x.at_most(y),
    ensures
        !c.product(x).nan(),
        !c.product(y).nan(),
        c.product(x).at_most(c.product(y)),
        x.finite() ==> c.product(x).finite(),
        y.finite() ==> c.product(y).finite(),
{
    lemma_coefficient_product(c, x);
    lemma_coefficient_product(c, y);
    order::lemma_product_monotone(x, y, c);
}

/// The time to go in the logit: finite, and less with more of it.
proof fn lemma_by_time(a: Binary64, b: Binary64)
    requires
        a.finite() && b.finite() && b.at_most(a),
    ensures
        ({
            let c = Binary64::ratio(1_716, 1_000_000).negated();
            let s = a.held_between(Binary64::whole(0), Binary64::whole(900));
            let t = b.held_between(Binary64::whole(0), Binary64::whole(900));
            &&& c.product(s).finite()
            &&& c.product(t).finite()
            &&& c.product(s).at_most(c.product(t))
        }),
{
    let c = Binary64::ratio(1_716, 1_000_000);
    let zero = Binary64::whole(0);
    let limit = Binary64::whole(900);
    laws::lemma_ratio_order(0, 900, 1);
    lemma_coefficient(1_716, 1_000_000);
    let s = a.held_between(zero, limit);
    let t = b.held_between(zero, limit);
    order::lemma_held_monotone(b, a, zero, limit);
    assert(s.finite() && t.finite());
    lemma_scaled_order(c, t, s);
    order::lemma_product_negated(c, s);
    order::lemma_product_negated(c, t);
    order::lemma_negated(c.product(s));
    order::lemma_negated(c.product(t));
}

/// The move in the logit: finite, and more with a greater one.
proof fn lemma_by_move(a: Binary64, b: Binary64)
    requires
        a.finite() && b.finite() && a.absolute().at_most(b.absolute()),
    ensures
        ({
            let c = Binary64::ratio(98_562, 1_000_000);
            &&& c.product(a.absolute()).finite()
            &&& c.product(b.absolute()).finite()
            &&& c.product(a.absolute()).at_most(c.product(b.absolute()))
        }),
{
    lemma_coefficient(98_562, 1_000_000);
    lemma_scaled_order(Binary64::ratio(98_562, 1_000_000), a.absolute(), b.absolute());
}

/// A finite number added to one that is no NaN gives no NaN.
proof fn lemma_finite_added(x: Binary64, y: Binary64)
    requires
        !x.nan(),
        !y.nan(),
        x.finite() || y.finite(),
    ensures
        !x.sum(y).nan(),
{
    if x.finite() && y.finite() {
        order::lemma_sum_key(x, y);
    }
}

proof fn lemma_four_added(
    i: Binary64,
    d: Binary64,
    t: Binary64,
    m: Binary64,
    d2: Binary64,
    t2: Binary64,
    m2: Binary64,
)
    requires
        i.finite(),
        d.at_most(d2),
        t.finite() && t2.finite() && t.at_most(t2),
        m.finite() && m2.finite() && m.at_most(m2),
    ensures
        i.sum(d).sum(t).sum(m).at_most(i.sum(d2).sum(t2).sum(m2)),
{
    let a = i.sum(d);
    let a2 = i.sum(d2);
    lemma_finite_added(i, d);
    lemma_finite_added(i, d2);
    order::lemma_sum_monotone(i, d, i, d2);
    lemma_three_added(a, t, m, a2, t2, m2);
}

proof fn lemma_three_added(
    a: Binary64,
    t: Binary64,
    m: Binary64,
    a2: Binary64,
    t2: Binary64,
    m2: Binary64,
)
    requires
        a.at_most(a2),
        t.finite() && t2.finite() && t.at_most(t2),
        m.finite() && m2.finite() && m.at_most(m2),
    ensures
        a.sum(t).sum(m).at_most(a2.sum(t2).sum(m2)),
{
    let b = a.sum(t);
    let b2 = a2.sum(t2);
    lemma_finite_added(a, t);
    lemma_finite_added(a2, t2);
    order::lemma_sum_monotone(a, t, a2, t2);
    lemma_finite_added(b, m);
    lemma_finite_added(b2, m2);
    order::lemma_sum_monotone(b, m, b2, m2);
}

/// The logit of finite numbers is no NaN. It never falls when the index rises, the strike falls, the
/// time runs out or the move is greater.
pub proof fn lemma_logit_monotone(
    brti_est: Binary64,
    strike: Binary64,
    seconds_to_close: Binary64,
    velocity: Binary64,
    higher_brti: Binary64,
    lower_strike: Binary64,
    fewer_seconds: Binary64,
    greater_velocity: Binary64,
)
    requires
        brti_est.finite() && higher_brti.finite() && brti_est.at_most(higher_brti),
        strike.finite() && lower_strike.finite() && lower_strike.at_most(strike),
        seconds_to_close.finite() && fewer_seconds.finite() && fewer_seconds.at_most(
            seconds_to_close,
        ),
        velocity.finite() && greater_velocity.finite() && velocity.absolute().at_most(
            greater_velocity.absolute(),
        ),
    ensures
        logit(brti_est, strike, seconds_to_close, velocity).at_most(
            logit(higher_brti, lower_strike, fewer_seconds, greater_velocity),
        ),
{
    let zero = Binary64::whole(0);
    let limit = Binary64::whole(900);
    let a = Binary64::ratio(82_579, 1_000_000);
    let b = Binary64::ratio(1_716, 1_000_000).negated();
    let c = Binary64::ratio(98_562, 1_000_000);
    laws::lemma_ratio_order(1_261_386, 1_261_386, 1_000_000);
    lemma_by_distance(brti_est, strike, higher_brti, lower_strike);
    lemma_by_time(seconds_to_close, fewer_seconds);
    lemma_by_move(velocity, greater_velocity);
    lemma_four_added(
        Binary64::ratio(1_261_386, 1_000_000),
        a.product(brti_est.difference(strike)),
        b.product(seconds_to_close.held_between(zero, limit)),
        c.product(velocity.absolute()),
        a.product(higher_brti.difference(lower_strike)),
        b.product(fewer_seconds.held_between(zero, limit)),
        c.product(greater_velocity.absolute()),
    );
}

/// The logit depends on the size of the move and not on its sign, and on the time to go only within
/// a quarter of an hour.
pub proof fn lemma_logit_symmetries(
    brti_est: Binary64,
    strike: Binary64,
    seconds_to_close: Binary64,
    velocity: Binary64,
)
    ensures
        logit(brti_est, strike, seconds_to_close, velocity.negated()) == logit(
            brti_est,
            strike,
            seconds_to_close,
            velocity,
        ),
        logit(
            brti_est,
            strike,
            seconds_to_close.held_between(Binary64::whole(0), Binary64::whole(900)),
            velocity,
        ) == logit(brti_est, strike, seconds_to_close, velocity),
{
    order::lemma_negated(velocity);
    laws::lemma_ratio_order(0, 900, 1);
}

/// What is asked of the exponential: no NaN but for one, never negative, and in the order of what it
/// is taken of.
pub open spec fn like_exponential(exp: spec_fn(Binary64) -> Binary64) -> bool {
    forall|x: Binary64, y: Binary64|
        x.at_most(y) ==> Binary64::whole(0).at_most(#[trigger] exp(x)) && exp(x).at_most(
            #[trigger] exp(y),
        )
}

/// The logistic function of a value that is not negative is finite, at most one, and not negative.
proof fn lemma_logistic(e: Binary64)
    requires
        Binary64::whole(0).at_most(e),
    ensures
        ({
            let one = Binary64::whole(1);
            let x = one.sum(e);
            &&& one.at_most(x)
            &&& !x.negative()
            &&& x.magnitude() > 0
            &&& one.quotient(x).finite()
            &&& !one.quotient(x).negative()
        }),
{
    let one = Binary64::whole(1);
    let zero = Binary64::whole(0);
    let o = binary64::one();
    lemma_pow2_pos(1074);
    laws::lemma_whole_exact(0);
    laws::lemma_whole_exact(1);
    assert(1 * o == o && 0 * o == 0);
    order::lemma_own_key(one);
    order::lemma_own_key(zero);
    order::lemma_sum_key(one, zero);
    if e.finite() {
        order::lemma_sum_key(one, e);
        order::lemma_nearest_order(one.units() + e.units(), 1, one.units() + e.units(), 1);
    }
    order::lemma_sum_monotone(one, zero, one, e);
    let x = one.sum(e);
    order::lemma_quotient_antitone(one, one, x);
    order::lemma_quotient_key(one, one);
    rounding::lemma_round_scale(o, 1, o);
    assert(one.quotient(one).key() == one.key());
}

/// The discount of a confidence from zero to one is finite and not negative, and grows with it.
proof fn lemma_discount(confidence: Binary64, higher: Binary64)
    requires
        Binary64::whole(0).at_most(confidence),
        confidence.at_most(higher),
        higher.at_most(Binary64::whole(1)),
    ensures
        ({
            let c7 = Binary64::ratio(7, 10);
            let c3 = Binary64::ratio(3, 10);
            let low = c7.sum(confidence.product(c3));
            let high = c7.sum(higher.product(c3));
            &&& low.at_most(high)
            &&& low.finite() && !low.negative()
            &&& high.finite() && !high.negative()
        }),
{
    let zero = Binary64::whole(0);
    let one = Binary64::whole(1);
    let two = Binary64::whole(2);
    let c7 = Binary64::ratio(7, 10);
    let c3 = Binary64::ratio(3, 10);
    let o = binary64::one();
    lemma_pow2_pos(1074);
    laws::lemma_whole_exact(0);
    laws::lemma_whole_exact(1);
    laws::lemma_whole_exact(2);
    assert(1 * o == o && 0 * o == 0);
    lemma_coefficient(7, 10);
    lemma_coefficient(3, 10);
    order::lemma_own_key(zero);
    order::lemma_own_key(c3);
    order::lemma_own_key(c7);
    order::lemma_own_key(two);
    lemma_coefficient_product(c3, confidence);
    lemma_coefficient_product(c3, higher);
    lemma_coefficient_product(c3, one);
    lemma_coefficient_product(c3, zero);
    order::lemma_product_monotone(zero, confidence, c3);
    order::lemma_product_monotone(confidence, higher, c3);
    order::lemma_product_monotone(higher, one, c3);
    let p0 = zero.product(c3);
    let p1 = confidence.product(c3);
    let p2 = higher.product(c3);
    order::lemma_product_key(zero, c3);
    assert(0 * c3.units() == 0);
    rounding::lemma_round_scale(0, 1, o);
    laws::lemma_round_units(0);
    binary64::lemma_small_units(0);
    assert(p0.key() == 0);
    order::lemma_product_key(one, c3);
    assert(o * c3.units() == c3.units() * o) by (nonlinear_arith);
    rounding::lemma_round_scale(c3.units(), 1, o);
    assert(one.product(c3).key() == c3.key());
    order::lemma_sum_key(c7, p1);
    order::lemma_sum_key(c7, p2);
    order::lemma_sum_key(c7, c3);
    order::lemma_nearest_order(c7.units() + c3.units(), 1, two.units(), 1);
    order::lemma_sum_monotone(c7, p1, c7, p2);
    binary64::lemma_order(p2, c3);
    order::lemma_sum_monotone(c7, p2, c7, c3);
    binary64::lemma_order(zero, p1);
    order::lemma_nearest_order(1, 1, c7.units() + p1.units(), 1);
    let least = Binary64::make(false, 1);
    binary64::lemma_small_units(1);
    order::lemma_own_key(least);
}

/// A product of finite numbers that are not negative grows with both.
proof fn lemma_both_scaled(x: Binary64, y: Binary64, c: Binary64, d: Binary64)
    requires
        x.finite() && !x.negative() && y.finite() && !y.negative() && x.at_most(y),
        c.finite() && !c.negative() && d.finite() && !d.negative() && c.at_most(d),
    ensures
        x.product(c).at_most(y.product(d)),
{
    order::lemma_own_key(c);
    order::lemma_own_key(y);
    order::lemma_product_key(x, c);
    order::lemma_product_key(y, c);
    order::lemma_product_key(y, d);
    order::lemma_product_monotone(x, y, c);
    order::lemma_product_commutes(y, c);
    order::lemma_product_commutes(y, d);
    order::lemma_product_monotone(c, d, y);
}

/// The model's probability is between 5 and 95 percent for a confidence from zero to one. It never
/// falls when the exponential of minus the logit falls, or the confidence rises.
pub proof fn lemma_discounted_monotone(
    exp_minus_logit: Binary64,
    confidence: Binary64,
    lesser_exp: Binary64,
    higher_confidence: Binary64,
)
    requires
        Binary64::whole(0).at_most(lesser_exp),
        lesser_exp.at_most(exp_minus_logit),
        Binary64::whole(0).at_most(confidence),
        confidence.at_most(higher_confidence),
        higher_confidence.at_most(Binary64::whole(1)),
    ensures
        discounted(exp_minus_logit, confidence).at_most(
            discounted(lesser_exp, higher_confidence),
        ),
        Binary64::ratio(5, 100).at_most(discounted(exp_minus_logit, confidence)),
        discounted(lesser_exp, higher_confidence).at_most(Binary64::ratio(95, 100)),
{
    let one = Binary64::whole(1);
    lemma_logistic(exp_minus_logit);
    lemma_logistic(lesser_exp);
    lemma_discount(confidence, higher_confidence);
    laws::lemma_whole_exact(1);
    lemma_pow2_pos(1074);
    assert(1 * binary64::one() == binary64::one());
    order::lemma_own_key(one);
    let x1 = one.sum(exp_minus_logit);
    let x2 = one.sum(lesser_exp);
    order::lemma_sum_monotone(one, lesser_exp, one, exp_minus_logit);
    order::lemma_quotient_antitone(one, x2, x1);
    let y1 = one.quotient(x1);
    let y2 = one.quotient(x2);
    let d1 = Binary64::ratio(7, 10).sum(confidence.product(Binary64::ratio(3, 10)));
    let d2 = Binary64::ratio(7, 10).sum(higher_confidence.product(Binary64::ratio(3, 10)));
    lemma_both_scaled(y1, y2, d1, d2);
    laws::lemma_ratio_order(5, 95, 100);
    order::lemma_held_monotone(
        y1.product(d1),
        y2.product(d2),
        Binary64::ratio(5, 100),
        Binary64::ratio(95, 100),
    );
    order::lemma_held_monotone(
        y2.product(d2),
        y2.product(d2),
        Binary64::ratio(5, 100),
        Binary64::ratio(95, 100),
    );
}

/// The model's probability of finite numbers, with a confidence from zero to one, is between 5 and
/// 95 percent. It never falls when the index rises, the strike falls, the time runs out, the move is
/// greater or the confidence rises.
pub proof fn lemma_model_monotone(
    exp: spec_fn(Binary64) -> Binary64,
    brti_est: Binary64,
    strike: Binary64,
    seconds_to_close: Binary64,
    velocity: Binary64,
    confidence: Binary64,
    higher_brti: Binary64,
    lower_strike: Binary64,
    fewer_seconds: Binary64,
    greater_velocity: Binary64,
    higher_confidence: Binary64,
)
    requires
        like_exponential(exp),
        brti_est.finite() && higher_brti.finite() && brti_est.at_most(higher_brti),
        strike.finite() && lower_strike.finite() && lower_strike.at_most(strike),
        seconds_to_close.finite() && fewer_seconds.finite() && fewer_seconds.at_most(
            seconds_to_close,
        ),
        velocity.finite() && greater_velocity.finite() && velocity.absolute().at_most(
            greater_velocity.absolute(),
        ),
        Binary64::whole(0).at_most(confidence),
        confidence.at_most(higher_confidence),
        higher_confidence.at_most(Binary64::whole(1)),
    ensures
        ({
            let z = logit(brti_est, strike, seconds_to_close, velocity);
            let higher = logit(higher_brti, lower_strike, fewer_seconds, greater_velocity);
            let p = discounted(exp(z.negated()), confidence);
            let q = discounted(exp(higher.negated()), higher_confidence);
            &&& Binary64::ratio(5, 100).at_most(p)
            &&& p.at_most(q)
            &&& q.at_most(Binary64::ratio(95, 100))
        }),
{
    lemma_logit_monotone(
        brti_est,
        strike,
        seconds_to_close,
        velocity,
        higher_brti,
        lower_strike,
        fewer_seconds,
        greater_velocity,
    );
    let z = logit(brti_est, strike, seconds_to_close, velocity);
    let higher = logit(higher_brti, lower_strike, fewer_seconds, greater_velocity);
    order::lemma_negated(z);
    order::lemma_negated(higher);
    assert(higher.negated().at_most(z.negated()));
    lemma_discounted_monotone(
        exp(z.negated()),
        confidence,
        exp(higher.negated()),
        higher_confidence,
    );
}

} // verus!
