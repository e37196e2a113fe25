//! What holds of the prices that are computed where a market has no bids.

use crate::numeric::binary64;
use crate::numeric::binary64::Binary64;
use crate::numeric::laws;
use crate::numeric::order;
use crate::numeric::rounding;
use crate::numeric::rounding::BINADE;
use crate::signal::kalshi_poller;
use vstd::arithmetic::div_mod::*;
use vstd::arithmetic::power2::*;
use vstd::prelude::*;

verus! {

/// Whether a number is between zero and one.
pub open spec fn is_share(x: Binary64) -> bool {
    x.finite() && 0 <= x.units() <= binary64::one()
}

/// Whether a number is between minus one and one.
pub open spec fn is_signed_share(x: Binary64) -> bool {
    x.finite() && -binary64::one() <= x.units() <= binary64::one()
}

/// The share of a quarter of an hour that is left.
pub open spec fn time_factor(seconds_to_close: Binary64) -> Binary64 {
    seconds_to_close.quotient(Binary64::whole(900)).lesser_of(Binary64::whole(1))
}

/// The probability of yes from the distance alone.
pub open spec fn base_probability(tanh_distance: Binary64) -> Binary64 {
    Binary64::ratio(5, 10).sum(tanh_distance.product(Binary64::ratio(4, 10)))
}

/// The probability of yes where the index is above the strike.
pub open spec fn probability_above(base: Binary64, factor: Binary64) -> Binary64 {
    let one = Binary64::whole(1);
    base.sum(
        one.difference(base).product(one.difference(factor)).product(Binary64::ratio(5, 10)),
    )
}

/// A probability in cents.
pub open spec fn in_cents(probability: Binary64) -> Binary64 {
    probability.product(Binary64::whole(100)).held_between(Binary64::whole(1), Binary64::whole(99))
}

/// What is asked of the hyperbolic tangent: no NaN but for one, between minus one and one, of the
/// sign of what it is taken of, and in its order.
pub open spec fn like_tanh(tanh: spec_fn(Binary64) -> Binary64) -> bool {
    &&& forall|x: Binary64|
        !x.nan() ==> is_signed_share(#[trigger] tanh(x)) && (Binary64::whole(0).at_most(x)
            ==> Binary64::whole(0).at_most(tanh(x))) && (x.at_most(Binary64::whole(0)) ==> tanh(
            x,
        ).at_most(Binary64::whole(0)))
    &&& forall|x: Binary64, y: Binary64|
        x.at_most(y) ==> (#[trigger] tanh(x)).at_most(#[trigger] tanh(y))
}

/// A product of two shares is a share, and at most the first.
proof fn lemma_share_product(x: Binary64, y: Binary64)
    requires
        is_share(x),
        is_share(y),
    ensures
        is_share(x.product(y)),
        x.product(y).at_most(x),
{
    let o = binary64::one();
    lemma_pow2_pos(1074);
    order::lemma_own_key(x);
    order::lemma_zero(x);
    order::lemma_product_key(x, y);
    let p = x.units() * y.units();
    assert(0 <= p && p * 1 <= x.units() * o) by (nonlinear_arith)
        requires
            p == x.units() * y.units(),
            0 <= x.units(),
            0 <= y.units() <= o,
    ;
    order::lemma_nearest_order(p, o, x.units(), 1);
    assert(0 * o <= p * 1);
    order::lemma_nearest_order(0, 1, p, o);
    order::lemma_own_key(Binary64::whole(0));
    binary64::lemma_order(x.product(y), x);
    binary64::lemma_order(Binary64::whole(0), x.product(y));
}

/// One less a share is a share, and less with a greater share.
proof fn lemma_complement(x: Binary64, y: Binary64)
    requires
        is_share(x),
        is_share(y),
        x.at_most(y),
    ensures
        is_share(Binary64::whole(1).difference(x)),
        is_share(Binary64::whole(1).difference(y)),
        Binary64::whole(1).difference(y).at_most(Binary64::whole(1).difference(x)),
{
    let one = Binary64::whole(1);
    let o = binary64::one();
    order::lemma_times_one(x);
    order::lemma_zero(x);
    order::lemma_own_key(one);
    order::lemma_own_key(Binary64::whole(0));
    order::lemma_difference_key(one, x);
    order::lemma_difference_key(one, y);
    binary64::lemma_order(x, y);
    order::lemma_nearest_order(0, 1, o - y.units(), 1);
    order::lemma_nearest_order(o - y.units(), 1, o - x.units(), 1);
    order::lemma_nearest_order(o - x.units(), 1, o, 1);
    let a = one.difference(x);
    let b = one.difference(y);
    binary64::lemma_order(a, one);
    binary64::lemma_order(b, one);
    binary64::lemma_order(Binary64::whole(0), a);
    binary64::lemma_order(Binary64::whole(0), b);
}

/// The share of time is a share, and grows with the time.
proof fn lemma_time_factor(s: Binary64, t: Binary64)
    requires
        s.finite() && t.finite(),
        Binary64::whole(0).at_most(s),
        s.at_most(t),
    ensures
        is_share(time_factor(s)),
        is_share(time_factor(t)),
        time_factor(s).at_most(time_factor(t)),
{
    let one = Binary64::whole(1);
    let zero = Binary64::whole(0);
    let limit = Binary64::whole(900);
    let o = binary64::one();
    lemma_pow2_pos(1074);
    laws::lemma_whole_exact(900);
    order::lemma_own_key(limit);
    order::lemma_times_one(limit);
    order::lemma_zero(limit);
    order::lemma_own_key(one);
    order::lemma_quotient_monotone(zero, s, limit);
    order::lemma_quotient_monotone(s, t, limit);
    let a = time_factor(s);
    let b = time_factor(t);
    assert(one.key() > 0);
    assert(a.at_most(b) && a.at_most(one) && b.at_most(one) && zero.at_most(a));
    binary64::lemma_order(zero, a);
    binary64::lemma_order(zero, b);
    binary64::lemma_order(a, one);
    binary64::lemma_order(b, one);
}

/// The base is a share that grows with the tangent, and is on the side of a half that the tangent is
/// of zero.
proof fn lemma_base(s: Binary64, t: Binary64)
    requires
        is_signed_share(s),
        is_signed_share(t),
        s.at_most(t),
    ensures
        is_share(base_probability(s)),
        is_share(base_probability(t)),
        base_probability(s).at_most(base_probability(t)),
        0 <= t.units() ==> Binary64::ratio(5, 10).at_most(base_probability(t)),
        s.units() <= 0 ==> base_probability(s).at_most(Binary64::ratio(5, 10)),
{
    let half = Binary64::ratio(5, 10);
    let c = Binary64::ratio(4, 10);
    order::lemma_literals();
    lemma_base_share(s);
    lemma_base_share(t);
    order::lemma_product_key(s, c);
    order::lemma_product_key(t, c);
    order::lemma_product_monotone(s, t, c);
    order::lemma_sum_monotone(half, s.product(c), half, t.product(c));
}

proof fn lemma_base_share(t: Binary64)
    requires
        is_signed_share(t),
    ensures
        is_share(base_probability(t)),
        t.product(Binary64::ratio(4, 10)).finite(),
        0 <= t.units() ==> Binary64::ratio(5, 10).at_most(base_probability(t)),
        t.units() <= 0 ==> base_probability(t).at_most(Binary64::ratio(5, 10)),
{
    let half = Binary64::ratio(5, 10);
    let c = Binary64::ratio(4, 10);
    let one = Binary64::whole(1);
    let zero = Binary64::whole(0);
    let o = binary64::one();
    lemma_pow2_pos(1074);
    order::lemma_literals();
    order::lemma_times_one(c);
    order::lemma_zero(c);
    order::lemma_own_key(c);
    order::lemma_own_key(half);
    order::lemma_own_key(one);
    order::lemma_own_key(zero);
    order::lemma_negated(c);
    order::lemma_own_key(c.negated());
    order::lemma_product_key(t, c);
    let p = t.product(c);
    let n = t.units() * c.units();
    assert(n * 1 <= c.units() * o && (-c.units()) * o <= n * 1) by (nonlinear_arith)
        requires
            n == t.units() * c.units(),
            -o <= t.units() <= o,
            0 <= c.units(),
    ;
    order::lemma_nearest_order(n, o, c.units(), 1);
    order::lemma_nearest_order(-c.units(), 1, n, o);
    assert(p.finite());
    binary64::lemma_order(p, c);
    binary64::lemma_order(c.negated(), p);
    order::lemma_sum_key(half, p);
    let b = half.sum(p);
    order::lemma_nearest_order(half.units() + p.units(), 1, o, 1);
    order::lemma_nearest_order(0, 1, half.units() + p.units(), 1);
    binary64::lemma_order(b, one);
    binary64::lemma_order(zero, b);
    if 0 <= t.units() {
        assert(0 <= n) by (nonlinear_arith)
            requires
                n == t.units() * c.units(),
                0 <= t.units(),
                0 <= c.units(),
        ;
        assert(0 * o <= n * 1);
        order::lemma_nearest_order(0, 1, n, o);
        binary64::lemma_order(zero, p);
        order::lemma_nearest_order(half.units(), 1, half.units() + p.units(), 1);
    }
    if t.units() <= 0 {
        assert(n <= 0) by (nonlinear_arith)
            requires
                n == t.units() * c.units(),
                t.units() <= 0,
                0 <= c.units(),
        ;
        assert(n * 1 <= 0 * o);
        order::lemma_nearest_order(n, o, 0, 1);
        binary64::lemma_order(p, zero);
        order::lemma_nearest_order(half.units() + p.units(), 1, half.units(), 1);
    }
}

/// Above the strike the probability is finite and at least the base, and no less with less time.
proof fn lemma_above(base: Binary64, factor: Binary64, lesser_factor: Binary64)
    requires
        is_share(base),
        is_share(factor),
        is_share(lesser_factor),
        lesser_factor.at_most(factor),
    ensures
        probability_above(base, factor).finite(),
        probability_above(base, lesser_factor).finite(),
        base.at_most(probability_above(base, factor)),
        base.at_most(probability_above(base, lesser_factor)),
        probability_above(base, factor).at_most(probability_above(base, lesser_factor)),
{
    let one = Binary64::whole(1);
    let half = Binary64::ratio(5, 10);
    order::lemma_literals();
    lemma_complement(base, base);
    lemma_complement(lesser_factor, factor);
    let w = one.difference(base);
    let v = one.difference(factor);
    let u = one.difference(lesser_factor);
    lemma_share_product(w, v);
    lemma_share_product(w, u);
    order::lemma_product_commutes(w, v);
    order::lemma_product_commutes(w, u);
    order::lemma_product_monotone(v, u, w);
    let p = w.product(v);
    let q = w.product(u);
    lemma_share_product(p, half);
    lemma_share_product(q, half);
    order::lemma_product_monotone(p, q, half);
    lemma_share_added(base, p.product(half));
    lemma_share_added(base, q.product(half));
    order::lemma_sum_monotone(base, p.product(half), base, q.product(half));
}

/// Two shares added are finite, and no less than the first.
proof fn lemma_share_added(x: Binary64, y: Binary64)
    requires
        is_share(x),
        is_share(y),
    ensures
        x.sum(y).finite(),
        x.at_most(x.sum(y)),
{
    let two = Binary64::whole(2);
    let o = binary64::one();
    laws::lemma_whole_exact(2);
    order::lemma_own_key(x);
    order::lemma_own_key(two);
    order::lemma_sum_key(x, y);
    order::lemma_nearest_order(x.units(), 1, x.units() + y.units(), 1);
    order::lemma_nearest_order(x.units() + y.units(), 1, 2 * o, 1);
}

/// A probability in cents is between 1 and 99, grows with the probability, and is on its side of a
/// half.
proof fn lemma_in_cents(p: Binary64, q: Binary64)
    requires
        p.finite() && q.finite(),
        p.at_most(q),
    ensures
        Binary64::whole(1).at_most(in_cents(p)),
        in_cents(p).at_most(in_cents(q)),
        in_cents(q).at_most(Binary64::whole(99)),
        Binary64::ratio(5, 10).at_most(q) ==> Binary64::whole(50).at_most(in_cents(q)),
        p.at_most(Binary64::ratio(5, 10)) ==> in_cents(p).at_most(Binary64::whole(50)),
{
    let hundred = Binary64::whole(100);
    let half = Binary64::ratio(5, 10);
    let fifty = Binary64::whole(50);
    let o = binary64::one();
    lemma_pow2_pos(1074);
    laws::lemma_whole_exact(100);
    laws::lemma_whole_exact(50);
    laws::lemma_ratio_order(1, 50, 1);
    laws::lemma_ratio_order(50, 99, 1);
    order::lemma_literals();
    order::lemma_own_key(fifty);
    order::lemma_product_key(p, hundred);
    order::lemma_product_key(q, hundred);
    order::lemma_product_key(half, hundred);
    order::lemma_product_monotone(p, q, hundred);
    let n = half.units() * hundred.units();
    assert(n * 1 == (50 * o) * o) by (nonlinear_arith)
        requires
            n == half.units() * hundred.units(),
            2 * half.units() == o,
            hundred.units() == 100 * o,
    ;
    order::lemma_nearest_order(n, o, 50 * o, 1);
    order::lemma_nearest_order(50 * o, 1, n, o);
    assert(half.product(hundred).key() == fifty.key());
    if half.at_most(q) {
        order::lemma_product_monotone(half, q, hundred);
    }
    if p.at_most(half) {
        order::lemma_product_monotone(p, half, hundred);
    }
    order::lemma_held_monotone(
        p.product(hundred),
        q.product(hundred),
        Binary64::whole(1),
        Binary64::whole(99),
    );
    order::lemma_held_monotone(
        q.product(hundred),
        q.product(hundred),
        Binary64::whole(1),
        Binary64::whole(99),
    );
}

/// The price of no: between 1 and 99 cents, and a dollar with that of yes to less than a hundredth
/// of a cent.
proof fn lemma_no(yes: Binary64)
    requires
        Binary64::whole(1).at_most(yes),
        yes.at_most(Binary64::whole(99)),
    ensures
        ({
            let no = Binary64::whole(100).difference(yes).held_between(
                Binary64::whole(1),
                Binary64::whole(99),
            );
            let gap = yes.units() + no.units() - 100 * binary64::one();
            &&& Binary64::whole(1).at_most(no)
            &&& no.at_most(Binary64::whole(99))
            &&& -binary64::one() < 100 * gap < binary64::one()
        }),
{
    let hundred = Binary64::whole(100);
    let one = Binary64::whole(1);
    let top = Binary64::whole(99);
    let o = binary64::one();
    lemma_pow2_pos(1074);
    laws::lemma_whole_exact(1);
    laws::lemma_whole_exact(99);
    laws::lemma_whole_exact(100);
    assert(1 * o == o);
    order::lemma_own_key(one);
    order::lemma_own_key(top);
    binary64::lemma_order(one, yes);
    binary64::lemma_order(yes, top);
    order::lemma_difference_key(hundred, yes);
    let n = 100 * o - yes.units();
    order::lemma_nearest_order(o, 1, n, 1);
    order::lemma_nearest_order(n, 1, 99 * o, 1);
    let no = hundred.difference(yes);
    lemma2_to64();
    lemma_pow2_adds(7, 1074);
    lemma_pow2_adds(46, 1028);
    lemma_pow2_pos(1028);
    assert(pow2(7) == 128);
    assert(pow2(46) >= 1000) by {
        rounding::lemma_pow2_monotone(10, 46);
    }
    assert(pow2(46) * pow2(1028) >= 1000 * pow2(1028)) by (nonlinear_arith)
        requires
            pow2(46) >= 1000,
    ;
    assert(1 * pow2(1081) == pow2(1081) && 1 * pow2(1028) == pow2(1028));
    order::lemma_nearest_error(no, n, 1, 1028);
}

/// Computed prices are between 1 and 99 cents and a dollar together, to less than a hundredth of a
/// cent. Yes is at least 50 cents where the index is above the strike, and at most 50 otherwise.
pub proof fn lemma_prices_of_a_tangent(
    brti_est: Binary64,
    strike: Binary64,
    seconds_to_close: Binary64,
    tanh_distance: Binary64,
)
    requires
        seconds_to_close.finite(),
        Binary64::whole(0).at_most(seconds_to_close),
        is_signed_share(tanh_distance),
        strike.less(brti_est) ==> Binary64::whole(0).at_most(tanh_distance),
        !strike.less(brti_est) ==> tanh_distance.at_most(Binary64::whole(0)),
    ensures
        ({
            let (yes, no) = kalshi_poller::computed_prices(
                brti_est,
                strike,
                seconds_to_close,
                tanh_distance,
            );
            let gap = yes.units() + no.units() - 100 * binary64::one();
            &&& Binary64::whole(1).at_most(yes) && yes.at_most(Binary64::whole(99))
            &&& Binary64::whole(1).at_most(no) && no.at_most(Binary64::whole(99))
            &&& -binary64::one() < 100 * gap < binary64::one()
            &&& strike.less(brti_est) ==> Binary64::whole(50).at_most(yes)
            &&& !strike.less(brti_est) ==> yes.at_most(Binary64::whole(50))
        }),
{
    let factor = time_factor(seconds_to_close);
    let base = base_probability(tanh_distance);
    let half = Binary64::ratio(5, 10);
    order::lemma_zero(half);
    binary64::lemma_order(Binary64::whole(0), tanh_distance);
    binary64::lemma_order(tanh_distance, Binary64::whole(0));
    lemma_time_factor(seconds_to_close, seconds_to_close);
    lemma_base(tanh_distance, tanh_distance);
    let p = if strike.less(brti_est) {
        probability_above(base, factor)
    } else {
        base.product(factor)
    };
    if strike.less(brti_est) {
        lemma_above(base, factor, factor);
    } else {
        lemma_share_product(base, factor);
    }
    lemma_in_cents(p, p);
    lemma_no(in_cents(p));
}

/// With more time to go the price of yes is no higher where the index is above the strike, and no
/// lower otherwise.
pub proof fn lemma_prices_follow_the_time(
    brti_est: Binary64,
    strike: Binary64,
    seconds_to_close: Binary64,
    more_seconds: Binary64,
    tanh_distance: Binary64,
)
    requires
        seconds_to_close.finite() && more_seconds.finite(),
        Binary64::whole(0).at_most(seconds_to_close),
        seconds_to_close.at_most(more_seconds),
        is_signed_share(tanh_distance),
    ensures
        ({
            let yes = kalshi_poller::computed_prices(
                brti_est,
                strike,
                seconds_to_close,
                tanh_distance,
            ).0;
            let earlier = kalshi_poller::computed_prices(
                brti_est,
                strike,
                more_seconds,
                tanh_distance,
            ).0;
            if strike.less(brti_est) {
                earlier.at_most(yes)
            } else {
                yes.at_most(earlier)
            }
        }),
{
    let f = time_factor(seconds_to_close);
    let g = time_factor(more_seconds);
    let base = base_probability(tanh_distance);
    lemma_time_factor(seconds_to_close, more_seconds);
    lemma_base(tanh_distance, tanh_distance);
    if strike.less(brti_est) {
        lemma_above(base, g, f);
        lemma_in_cents(probability_above(base, g), probability_above(base, f));
    } else {
        lemma_share_product(base, f);
        lemma_share_product(base, g);
        order::lemma_product_commutes(base, f);
        order::lemma_product_commutes(base, g);
        order::lemma_product_monotone(f, g, base);
        lemma_in_cents(base.product(f), base.product(g));
    }
}

/// A share of at least a half is a whole number of steps of two to the power of minus 53.
proof fn lemma_grid(x: Binary64)
    requires
        is_share(x),
        binary64::one() <= 2 * x.units(),
    ensures
        x.units() % (pow2(1021) as int) == 0,
{
    let step = pow2(1021) as int;
    lemma_pow2_pos(1021);
    rounding::lemma_pow2_consts();
    lemma_pow2_adds(52, 1021);
    lemma_pow2_adds(53, 1021);
    lemma_pow2_unfold(1074);
    let m = x.magnitude();
    let low = 1021 * BINADE + BINADE;
    lemma_fundamental_div_mod_converse(low as int, BINADE as int, 1022, 0);
    assert(binary64::magnitude_units(low as int) == BINADE * step);
    order::lemma_own_key(x);
    if m < low {
        binary64::lemma_units_increase(m, low as int);
    }
    let high = 1022 * BINADE + BINADE;
    lemma_fundamental_div_mod_converse(high as int, BINADE as int, 1023, 0);
    lemma_pow2_unfold(1022);
    assert(BINADE * pow2(1022) == (2 * BINADE) * step) by (nonlinear_arith)
        requires
            pow2(1022) == 2 * step,
    ;
    assert(binary64::magnitude_units(high as int) == binary64::one());
    if m > high {
        binary64::lemma_units_increase(high as int, m);
    }
    if m == high {
        lemma_mod_multiples_basic(2 * BINADE as int, step);
    } else {
        let k = m - low;
        lemma_fundamental_div_mod_converse(m, BINADE as int, 1022, k);
        lemma_mod_multiples_basic(BINADE + k, step);
    }
}

/// A half of a share is exact to one unit.
proof fn lemma_halved(x: Binary64)
    requires
        is_share(x),
    ensures
        x.product(Binary64::ratio(5, 10)).finite(),
        -1 <= 2 * x.product(Binary64::ratio(5, 10)).units() - x.units() <= 1,
{
    let half = Binary64::ratio(5, 10);
    let o = binary64::one();
    let m = x.magnitude();
    let u = x.units();
    let n = u * half.units();
    let y = x.product(half);
    lemma_pow2_pos(1074);
    rounding::lemma_pow2_consts();
    order::lemma_literals();
    order::lemma_own_key(x);
    order::lemma_product_key(x, half);
    assert(2 * n == u * o) by (nonlinear_arith)
        requires
            n == u * half.units(),
            2 * half.units() == o,
    ;
    if m < 2 * BINADE {
        binary64::lemma_small_units(m);
        let top = pow2(53) as int;
        assert(-(o * top) < n < o * top) by (nonlinear_arith)
            requires
                2 * n == u * o,
                0 <= u < top,
                0 < o,
        ;
        assert(pow2(53 + 0) == top);
        assert(o * pow2(0) == o);
        order::lemma_nearest_error(y, n, o, 0);
        let v = y.units();
        assert(-1 <= 2 * v - u <= 1) by (nonlinear_arith)
            requires
                -o <= 2 * (o * v - n) <= o,
                2 * n == u * o,
                0 < o,
        ;
    } else {
        let e = binary64::exponent(m);
        let s = binary64::significand(m);
        let e1 = (e - 1) as nat;
        lemma_pow2_unfold(e);
        let h = s * pow2(e1);
        assert(2 * h == u) by (nonlinear_arith)
            requires
                h == s * pow2(e1),
                u == s * pow2(e),
                pow2(e) == 2 * pow2(e1),
        ;
        laws::lemma_round_exact(s, e1);
        let exact = Binary64::make(false, rounding::round_ratio(h, 1));
        order::lemma_own_key(exact);
        assert(n * 1 == h * o) by (nonlinear_arith)
            requires
                2 * n == u * o,
                2 * h == u,
        ;
        order::lemma_nearest_order(n, o, h, 1);
        order::lemma_nearest_order(h, 1, n, o);
        order::lemma_own_key(x);
        assert(y.key() == exact.key());
        order::lemma_nearest_order(0, 1, h, 1);
        assert(y.finite());
        order::lemma_own_key(y);
        binary64::lemma_order(y, exact);
        binary64::lemma_order(exact, y);
    }
}

/// What is added above the strike is half of the rest, times the share of time that is gone, to a
/// quarter of a step and one unit.
proof fn lemma_added(base: Binary64, gone: Binary64)
    requires
        is_share(base),
        binary64::one() <= 2 * base.units(),
        is_share(gone),
    ensures
        ({
            let o = binary64::one();
            let step = pow2(1021) as int;
            let added = Binary64::whole(1).difference(base).product(gone).product(
                Binary64::ratio(5, 10),
            );
            let exact = (o - base.units()) * gone.units();
            &&& is_share(added)
            &&& -(o * step + 4 * o) <= 4 * (2 * (o * added.units()) - exact) <= o * step + 4 * o
        }),
{
    let one = Binary64::whole(1);
    let half = Binary64::ratio(5, 10);
    let o = binary64::one();
    let step = pow2(1021) as int;
    let w = one.difference(base);
    lemma_pow2_pos(1074);
    lemma_pow2_pos(1021);
    lemma_pow2_pos(1020);
    order::lemma_literals();
    order::lemma_times_one(base);
    lemma_complement(base, base);
    lemma_rest_exact(base);
    lemma_share_product(w, gone);
    let p = w.product(gone);
    lemma_share_product(p, half);
    lemma_halved(p);
    order::lemma_product_key(w, gone);
    let exact = w.units() * gone.units();
    lemma_pow2_unfold(1021);
    lemma_pow2_unfold(1074);
    let top = pow2(1073) as int;
    assert(0 <= exact <= o * top) by (nonlinear_arith)
        requires
            exact == w.units() * gone.units(),
            0 <= w.units() <= top,
            0 <= gone.units() <= o,
    ;
    if exact < o * top {
        assert(pow2(53 + 1020) == top);
        order::lemma_nearest_error(p, exact, o, 1020);
        assert(2 * (o * pow2(1020)) == o * step) by (nonlinear_arith)
            requires
                step == 2 * pow2(1020),
        ;
    } else {
        assert(exact * 1 == top * o) by (nonlinear_arith)
            requires
                exact == o * top,
        ;
        order::lemma_own_key(half);
        order::lemma_nearest_order(exact, o, top, 1);
        order::lemma_nearest_order(top, 1, exact, o);
        assert(p.key() == half.key());
        binary64::lemma_order(p, half);
        binary64::lemma_order(half, p);
        assert(o * p.units() == exact) by (nonlinear_arith)
            requires
                p.units() == top,
                exact == o * top,
        ;
        assert(0 <= o * step) by (nonlinear_arith)
            requires
                0 < o,
                0 < step,
        ;
    }
    let a = p.product(half).units();
    let q = p.units();
    assert(-(o * step + 4 * o) <= 4 * (2 * (o * a) - exact) <= o * step + 4 * o)
        by (nonlinear_arith)
        requires
            -1 <= 2 * a - q <= 1,
            -(o * step) <= 4 * (o * q - exact) <= o * step,
            0 < o,
    ;
}

/// One less a share of at least a half is exact.
proof fn lemma_rest_exact(base: Binary64)
    requires
        is_share(base),
        binary64::one() <= 2 * base.units(),
    ensures
        Binary64::whole(1).difference(base).finite(),
        Binary64::whole(1).difference(base).units() == binary64::one() - base.units(),
        2 * Binary64::whole(1).difference(base).units() <= binary64::one(),
{
    let one = Binary64::whole(1);
    let o = binary64::one();
    let step = pow2(1021) as int;
    lemma_pow2_pos(1021);
    rounding::lemma_pow2_consts();
    lemma_pow2_adds(53, 1021);
    lemma_grid(base);
    order::lemma_times_one(base);
    order::lemma_difference_key(one, base);
    let u = base.units();
    let k = u / step;
    lemma_fundamental_div_mod(u, step);
    let s = 2 * BINADE - k;
    let rest = o - u;
    assert(rest == s * step) by (nonlinear_arith)
        requires
            rest == o - u,
            o == (2 * BINADE) * step,
            u == step * k,
            s == 2 * BINADE - k,
    ;
    assert(0 <= s < 2 * BINADE) by (nonlinear_arith)
        requires
            0 <= rest,
            2 * rest <= o,
            rest == s * step,
            o == (2 * BINADE) * step,
            0 < step,
    ;
    laws::lemma_round_exact(s, 1021);
    let exact = Binary64::make(false, rounding::round_ratio(rest, 1));
    order::lemma_own_key(exact);
    let w = one.difference(base);
    assert(w.key() == exact.key());
    assert(w.finite());
    binary64::lemma_order(w, exact);
    binary64::lemma_order(exact, w);
}

/// Above the strike a higher base gives no lower probability.
proof fn lemma_above_follows_base(base: Binary64, higher: Binary64, factor: Binary64)
    requires
        is_share(base),
        is_share(higher),
        is_share(factor),
        Binary64::ratio(5, 10).at_most(base),
        base.at_most(higher),
    ensures
        probability_above(base, factor).at_most(probability_above(higher, factor)),
{
    let half = Binary64::ratio(5, 10);
    let o = binary64::one();
    let step = pow2(1021) as int;
    let gone = Binary64::whole(1).difference(factor);
    lemma_pow2_pos(1074);
    order::lemma_literals();
    binary64::lemma_order(half, base);
    binary64::lemma_order(base, higher);
    lemma_complement(factor, factor);
    lemma_added(base, gone);
    lemma_added(higher, gone);
    lemma_grid(base);
    lemma_grid(higher);
    let b = base.units();
    let c = higher.units();
    let x = Binary64::whole(1).difference(base).product(gone).product(half);
    let y = Binary64::whole(1).difference(higher).product(gone).product(half);
    order::lemma_sum_key(base, x);
    order::lemma_sum_key(higher, y);
    if b < c {
        lemma_pow2_pos(1021);
        rounding::lemma_pow2_consts();
        rounding::lemma_pow2_monotone(64, 1021);
        lemma_fundamental_div_mod(b, step);
        lemma_fundamental_div_mod(c, step);
        assert(b + step <= c) by (nonlinear_arith)
            requires
                b == step * (b / step),
                c == step * (c / step),
                b < c,
                0 < step,
        ;
        let g = gone.units();
        let p = (o - b) * g;
        let q = (o - c) * g;
        assert(p - q <= (c - b) * o) by (nonlinear_arith)
            requires
                p == (o - b) * g,
                q == (o - c) * g,
                b <= c,
                0 <= g <= o,
        ;
        assert(b + x.units() <= c + y.units()) by (nonlinear_arith)
            requires
                4 * (2 * (o * x.units()) - p) <= o * step + 4 * o,
                -(o * step + 4 * o) <= 4 * (2 * (o * y.units()) - q),
                p - q <= (c - b) * o,
                b + step <= c,
                8 <= step,
                0 < o,
        ;
        order::lemma_nearest_order(b + x.units(), 1, c + y.units(), 1);
    } else {
        assert(base.units() == higher.units());
        lemma_same_complement(base, higher);
        assert(x == y);
    }
}

proof fn lemma_same_complement(x: Binary64, y: Binary64)
    requires
        x.finite() && y.finite(),
        x.units() == y.units(),
        x.units() > 0,
    ensures
        x == y,
{
    order::lemma_own_key(x);
    order::lemma_own_key(y);
}

/// The distance from the strike: no NaN, above zero where the index is above the strike and not
/// above it otherwise, and no less with a higher index.
pub proof fn lemma_distance(brti_est: Binary64, higher_brti: Binary64, strike: Binary64)
    requires
        brti_est.finite() && higher_brti.finite() && strike.finite(),
        0 < brti_est.units(),
        0 < strike.units(),
        brti_est.at_most(higher_brti),
    ensures
        ({
            let zero = Binary64::whole(0);
            let d = kalshi_poller::distance_percent(brti_est, strike);
            &&& !d.nan()
            &&& d.at_most(kalshi_poller::distance_percent(higher_brti, strike))
            &&& strike.less(brti_est) ==> zero.at_most(d)
            &&& !strike.less(brti_est) ==> d.at_most(zero)
        }),
{
    let zero = Binary64::whole(0);
    let hundred = Binary64::whole(100);
    order::lemma_zero(strike);
    order::lemma_zero(hundred);
    lemma_pow2_pos(1074);
    laws::lemma_whole_exact(100);
    order::lemma_own_key(hundred);
    order::lemma_own_key(zero);
    order::lemma_own_key(strike);
    binary64::lemma_order(strike, brti_est);
    binary64::lemma_order(brti_est, higher_brti);
    let x = brti_est.difference(strike);
    let y = higher_brti.difference(strike);
    order::lemma_difference_key(brti_est, strike);
    order::lemma_difference_key(higher_brti, strike);
    order::lemma_difference_monotone(brti_est, strike, higher_brti, strike);
    let n = brti_est.units() - strike.units();
    if strike.less(brti_est) {
        order::lemma_nearest_order(0, 1, n, 1);
    } else {
        order::lemma_nearest_order(n, 1, 0, 1);
    }
    order::lemma_quotient_monotone(x, y, strike);
    lemma_hundredfold(x.quotient(strike), y.quotient(strike));
    if strike.less(brti_est) {
        order::lemma_quotient_monotone(zero, x, strike);
        lemma_hundredfold(zero, x.quotient(strike));
    } else {
        order::lemma_quotient_monotone(x, zero, strike);
        lemma_hundredfold(x.quotient(strike), zero);
    }
}

proof fn lemma_hundredfold(x: Binary64, y: Binary64)
    requires
        x.at_most(y),
    ensures
        x.product(Binary64::whole(100)).at_most(y.product(Binary64::whole(100))),
        x.key() == 0 ==> Binary64::whole(0).at_most(y.product(Binary64::whole(100))),
        y.key() == 0 ==> x.product(Binary64::whole(100)).at_most(Binary64::whole(0)),
{
    let hundred = Binary64::whole(100);
    lemma_pow2_pos(1074);
    laws::lemma_whole_exact(100);
    order::lemma_own_key(hundred);
    order::lemma_zero(hundred);
    if x.finite() {
        order::lemma_product_key(x, hundred);
    }
    if y.finite() {
        order::lemma_product_key(y, hundred);
    }
    order::lemma_product_monotone(x, y, hundred);
    if x.key() == 0 {
        order::lemma_product_monotone(Binary64::whole(0), y, hundred);
    }
    if y.key() == 0 {
        order::lemma_product_monotone(x, Binary64::whole(0), hundred);
    }
}

/// With a higher index, and so no lesser tangent, the price of yes is no lower.
pub proof fn lemma_prices_follow_the_tangent(
    brti_est: Binary64,
    higher_brti: Binary64,
    strike: Binary64,
    seconds_to_close: Binary64,
    tanh_distance: Binary64,
    higher_tanh: Binary64,
)
    requires
        brti_est.at_most(higher_brti),
        !strike.nan(),
        seconds_to_close.finite(),
        Binary64::whole(0).at_most(seconds_to_close),
        is_signed_share(tanh_distance),
        is_signed_share(higher_tanh),
        tanh_distance.at_most(higher_tanh),
        strike.less(brti_est) ==> Binary64::whole(0).at_most(tanh_distance),
        !strike.less(brti_est) ==> tanh_distance.at_most(Binary64::whole(0)),
        strike.less(higher_brti) ==> Binary64::whole(0).at_most(higher_tanh),
        !strike.less(higher_brti) ==> higher_tanh.at_most(Binary64::whole(0)),
    ensures
        kalshi_poller::computed_prices(brti_est, strike, seconds_to_close, tanh_distance).0.at_most(
            kalshi_poller::computed_prices(higher_brti, strike, seconds_to_close, higher_tanh).0,
        ),
{
    let f = time_factor(seconds_to_close);
    let b = base_probability(tanh_distance);
    let c = base_probability(higher_tanh);
    lemma_time_factor(seconds_to_close, seconds_to_close);
    lemma_base(tanh_distance, higher_tanh);
    if strike.less(brti_est) {
        order::lemma_zero(f);
        binary64::lemma_order(Binary64::whole(0), tanh_distance);
        lemma_base(tanh_distance, tanh_distance);
        lemma_above(b, f, f);
        lemma_above(c, f, f);
        lemma_above_follows_base(b, c, f);
        lemma_in_cents(probability_above(b, f), probability_above(c, f));
    } else if strike.less(higher_brti) {
        lemma_prices_of_a_tangent(brti_est, strike, seconds_to_close, tanh_distance);
        lemma_prices_of_a_tangent(higher_brti, strike, seconds_to_close, higher_tanh);
    } else {
        lemma_share_product(b, f);
        lemma_share_product(c, f);
        order::lemma_product_monotone(b, c, f);
        lemma_in_cents(b.product(f), c.product(f));
    }
}

/// The prices that are computed from an index, a strike and a time, all finite, the first two
/// positive and the time not negative: they are between 1 and 99 cents and a dollar together, to less
/// than a hundredth of a cent. Yes is at least 50 cents where the index is above the strike, and at
/// most 50 otherwise; it is no lower with a higher index; and with more time to go it is no higher
/// above the strike, and no lower otherwise.
pub proof fn lemma_synthetic_prices(
    tanh: spec_fn(Binary64) -> Binary64,
    brti_est: Binary64,
    higher_brti: Binary64,
    strike: Binary64,
    seconds_to_close: Binary64,
    more_seconds: Binary64,
)
    requires
        like_tanh(tanh),
        brti_est.finite() && higher_brti.finite() && strike.finite(),
        0 < brti_est.units(),
        0 < strike.units(),
        brti_est.at_most(higher_brti),
        seconds_to_close.finite() && more_seconds.finite(),
        Binary64::whole(0).at_most(seconds_to_close),
        seconds_to_close.at_most(more_seconds),
    ensures
        ({
            let t = tanh(kalshi_poller::distance_percent(brti_est, strike));
            let higher = tanh(kalshi_poller::distance_percent(higher_brti, strike));
            let (yes, no) = kalshi_poller::computed_prices(brti_est, strike, seconds_to_close, t);
            let risen = kalshi_poller::computed_prices(
                higher_brti,
                strike,
                seconds_to_close,
                higher,
            ).0;
            let earlier = kalshi_poller::computed_prices(brti_est, strike, more_seconds, t).0;
            let gap = yes.units() + no.units() - 100 * binary64::one();
            &&& Binary64::whole(1).at_most(yes) && yes.at_most(Binary64::whole(99))
            &&& Binary64::whole(1).at_most(no) && no.at_most(Binary64::whole(99))
            &&& -binary64::one() < 100 * gap < binary64::one()
            &&& strike.less(brti_est) ==> Binary64::whole(50).at_most(yes) && earlier.at_most(yes)
            &&& !strike.less(brti_est) ==> yes.at_most(Binary64::whole(50)) && yes.at_most(earlier)
            &&& yes.at_most(risen)
        }),
{
    let d = kalshi_poller::distance_percent(brti_est, strike);
    let e = kalshi_poller::distance_percent(higher_brti, strike);
    binary64::lemma_order(brti_est, higher_brti);
    lemma_distance(brti_est, higher_brti, strike);
    lemma_distance(higher_brti, higher_brti, strike);
    let t = tanh(d);
    let u = tanh(e);
    lemma_prices_of_a_tangent(brti_est, strike, seconds_to_close, t);
    lemma_prices_follow_the_time(brti_est, strike, seconds_to_close, more_seconds, t);
    lemma_prices_follow_the_tangent(brti_est, higher_brti, strike, seconds_to_close, t, u);
}

} // verus!
