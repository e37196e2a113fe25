//! What the Kelly bet is worth, in exact fractions.

use crate::executor::sizing;
use crate::numeric::accuracy::last_place;
use crate::numeric::binary64;
use crate::numeric::binary64::Binary64;
use crate::numeric::laws;
use crate::numeric::order;
use crate::numeric::rounding;
use crate::numeric::rounding::BINADE;
use vstd::arithmetic::div_mod::*;
use vstd::arithmetic::power2::*;
use vstd::prelude::*;

verus! {

/// A whole number held between two limits.
pub open spec fn held(x: int, low: int, high: int) -> int {
    if x < low {
        low
    } else if x > high {
        high
    } else {
        x
    }
}

/// How the powers of two of the bounds hang together.
proof fn lemma_steps(e: nat)
    requires
        1022 <= e,
    ensures
        0 < pow2(e),
        0 < binary64::one(),
        binary64::one() == 0x10_0000_0000_0000 * pow2(1022),
        pow2(1022) <= pow2(e),
        pow2(1022) == 4 * pow2(1020),
        pow2(1021) == 2 * pow2(1020),
        0 < pow2(1020),
        pow2(1023) == 2 * pow2(1022),
        pow2(1024) == 4 * pow2(1022),
        pow2(53 + 1021) == binary64::one(),
        pow2(53 + 1023) == 4 * binary64::one(),
        pow2(53 + 1024) == 8 * binary64::one(),
        pow2(53 + e) == 0x20_0000_0000_0000 * pow2(e),
        pow2(e + 2) == 4 * pow2(e),
        pow2(e + 3) == 8 * pow2(e),
        pow2(53 + (e + 2)) == 4 * pow2(53 + e),
        pow2(53 + (e + 3)) == 8 * pow2(53 + e),
{
    lemma2_to64();
    lemma2_to64_rest();
    lemma_pow2_pos(e);
    lemma_pow2_pos(1020);
    lemma_pow2_pos(1074);
    rounding::lemma_pow2_monotone(1022, e);
    lemma_pow2_adds(52, 1022);
    lemma_pow2_adds(2, 1020);
    lemma_pow2_adds(1, 1020);
    lemma_pow2_adds(1, 1022);
    lemma_pow2_adds(2, 1022);
    lemma_pow2_adds(2, 1074);
    lemma_pow2_adds(3, 1074);
    lemma_pow2_adds(53, e);
    lemma_pow2_adds(2, e);
    lemma_pow2_adds(3, e);
    lemma_pow2_adds(2, 53 + e);
    lemma_pow2_adds(3, 53 + e);
}

/// The size of odds above one: between two powers of two that their unit in the last place gives.
proof fn lemma_odds_size(odds: Binary64)
    requires
        odds.finite(),
        binary64::one() < odds.units(),
        odds.units() < pow2(1015) * binary64::one(),
    ensures
        1022 <= binary64::exponent(odds.magnitude()) <= 2036,
        odds.units() < pow2(53 + binary64::exponent(odds.magnitude())),
{
    let m = odds.magnitude();
    let e = binary64::exponent(m);
    let s = binary64::significand(m);
    let g = pow2(e) as int;
    let o = binary64::one();
    lemma_pow2_pos(e);
    lemma_pow2_pos(1074);
    lemma2_to64();
    lemma2_to64_rest();
    lemma_pow2_adds(53, e);
    lemma_mod_bound(m, BINADE as int);
    order::lemma_own_key(odds);
    assert(s * g < (2 * BINADE) * g) by (nonlinear_arith)
        requires
            s < 2 * BINADE,
            0 < g,
    ;
    if e < 1022 {
        rounding::lemma_pow2_monotone(53 + e, 1074);
    }
    if e >= 2037 {
        lemma_pow2_adds(1015, 1074);
        lemma_pow2_adds(52, 2037);
        lemma_pow2_pos(2037);
        rounding::lemma_pow2_monotone(2037, e);
        assert(BINADE * pow2(2037) <= s * g) by (nonlinear_arith)
            requires
                BINADE <= s,
                0 < pow2(2037) <= g,
        ;
    }
}

/// The probability that the odds imply, raised by the edge.
proof fn lemma_raised_probability(edge: Binary64, odds: Binary64)
    requires
        edge.finite(),
        odds.finite(),
        -binary64::one() <= edge.units() <= binary64::one(),
        binary64::one() < odds.units(),
    ensures
        ({
            let o = binary64::one();
            let p = Binary64::whole(1).quotient(odds).sum(edge);
            let off = odds.units() * (p.units() - edge.units()) - o * o;
            &&& p.finite()
            &&& -(3 * o) < p.units() < 3 * o
            &&& -(odds.units() * (5 * pow2(1020))) <= off <= odds.units() * (5 * pow2(1020))
        }),
{
    let o = binary64::one();
    let one = Binary64::whole(1);
    let u = odds.units();
    let e = edge.units();
    let implied = one.quotient(odds);
    let q = pow2(1020) as int;
    lemma_steps(1022);
    laws::lemma_whole_exact(1);
    assert(1 * o == o);
    order::lemma_quotient_key(one, odds);
    assert(-(u * o) < o * o < u * o) by (nonlinear_arith)
        requires
            0 < o < u,
    ;
    order::lemma_nearest_error(implied, o * o, u, 1021);
    let i = implied.units();
    assert(-o < i <= o + q) by (nonlinear_arith)
        requires
            -(u * (2 * q)) <= 2 * (u * i - o * o) <= u * (2 * q),
            0 < o < u,
            0 < q,
            q < o,
    {
        if i > o + q {
            assert(u * i >= u * (o + q + 1));
            assert(u * (o + q + 1) == u * o + u * q + u);
            assert(o * o < u * o);
        }
        if i <= -o {
            assert(u * i <= u * (-o));
            assert(u * (-o) == -(u * o));
            assert(u * q < u * o);
            assert(0 < o * o);
        }
    }
    let p = implied.sum(edge);
    order::lemma_sum_key(implied, edge);
    assert(1 * pow2(53 + 1023) == pow2(53 + 1023) && 1 * pow2(1023) == pow2(1023));
    order::lemma_nearest_error(p, i + e, 1, 1023);
    let v = p.units();
    assert(-(u * (5 * q)) <= u * (v - e) - o * o <= u * (5 * q)) by (nonlinear_arith)
        requires
            -(u * (2 * q)) <= 2 * (u * i - o * o) <= u * (2 * q),
            -(8 * q) <= 2 * (v - i - e) <= 8 * q,
            0 < u,
    {
        let w = v - i - e;
        assert(u * (v - e) == u * i + u * w);
        assert(u * w <= u * (4 * q));
        assert(u * w >= u * (-(4 * q)));
        assert(u * (-(4 * q)) == -(u * (4 * q)));
        assert(u * (4 * q) + u * q == u * (5 * q));
        assert(u * (2 * q) == 2 * (u * q));
    }
}

/// What is won over what is lost, before it is divided by the net odds.
proof fn lemma_expectation(p: Binary64, odds: Binary64, e: nat)
    requires
        p.finite(),
        odds.finite(),
        -(3 * binary64::one()) < p.units() < 3 * binary64::one(),
        binary64::one() < odds.units() < pow2(53 + e),
        1022 <= e <= 2036,
    ensures
        ({
            let o = binary64::one();
            let one = Binary64::whole(1);
            let net = odds.difference(one);
            let d = p.product(net).difference(one.difference(p));
            let off = o * d.units() - (p.units() * odds.units() - o * o);
            &&& net.finite()
            &&& -pow2(e) <= 2 * (net.units() - (odds.units() - o)) <= pow2(e)
            &&& 0 <= net.units() <= odds.units()
            &&& d.finite()
            &&& -(10 * (o * pow2(e))) <= off <= 10 * (o * pow2(e))
        }),
{
    let o = binary64::one();
    let one = Binary64::whole(1);
    let g = pow2(e) as int;
    let u = odds.units();
    let v = p.units();
    let top = pow2(53 + e) as int;
    lemma_steps(e);
    laws::lemma_whole_exact(1);
    assert(1 * o == o);
    let net = odds.difference(one);
    order::lemma_difference_key(odds, one);
    assert(1 * pow2(53 + e) == pow2(53 + e) && 1 * pow2(e) == pow2(e));
    order::lemma_nearest_error(net, u - o, 1, e);
    let n = net.units();
    order::lemma_zero(one);
    order::lemma_own_key(Binary64::whole(0));
    order::lemma_own_key(odds);
    order::lemma_nearest_order(0, 1, u - o, 1);
    order::lemma_nearest_order(u - o, 1, u, 1);
    order::lemma_own_key(net);
    binary64::lemma_order(net, odds);
    binary64::lemma_order(Binary64::whole(0), net);
    let won = p.product(net);
    order::lemma_product_key(p, net);
    assert(-(o * (4 * top)) < v * n < o * (4 * top)) by (nonlinear_arith)
        requires
            -(3 * o) < v < 3 * o,
            0 <= n < top,
            0 < o,
            0 < top,
    {
        assert(v * n <= (3 * o) * n);
        assert(v * n >= (-(3 * o)) * n);
        assert((-(3 * o)) * n == -((3 * o) * n));
        assert((3 * o) * n <= (3 * o) * top);
        assert((3 * o) * top == 3 * (o * top));
        assert(o * (4 * top) == 4 * (o * top));
        assert(0 < o * top);
    }
    order::lemma_nearest_error(won, v * n, o, e + 2);
    let a = won.units();
    let lost = one.difference(p);
    order::lemma_difference_key(one, p);
    assert(1 * pow2(53 + 1024) == pow2(53 + 1024) && 1 * pow2(1024) == pow2(1024));
    order::lemma_nearest_error(lost, o - v, 1, 1024);
    let b = lost.units();
    let d = won.difference(lost);
    order::lemma_difference_key(won, lost);
    assert(-(4 * top) <= a <= 4 * top) by (nonlinear_arith)
        requires
            -(o * (4 * g)) <= 2 * (o * a - v * n) <= o * (4 * g),
            -(3 * o) < v < 3 * o,
            0 <= n < top,
            0 < o,
            4 * g <= top,
    {
        assert(v * n <= (3 * o) * n);
        assert(v * n >= (-(3 * o)) * n);
        assert((-(3 * o)) * n == -((3 * o) * n));
        assert((3 * o) * n <= (3 * o) * top);
        assert((3 * o) * top == 3 * (o * top));
        assert(o * (4 * g) <= o * top);
        if a > 4 * top {
            assert(o * a >= o * (4 * top));
            assert(o * (4 * top) == 4 * (o * top));
            assert(0 < o * top);
        }
        if a < -(4 * top) {
            assert(o * a <= o * (-(4 * top)));
            assert(o * (-(4 * top)) == -(4 * (o * top)));
            assert(0 < o * top);
        }
    }
    assert(1 * pow2(53 + (e + 3)) == pow2(53 + (e + 3)) && 1 * pow2(e + 3) == pow2(e + 3));
    order::lemma_nearest_error(d, a - b, 1, e + 3);
    let x = d.units();
    assert(-(10 * (o * g)) <= o * x - (v * u - o * o) <= 10 * (o * g)) by (nonlinear_arith)
        requires
            -(o * (4 * g)) <= 2 * (o * a - v * n) <= o * (4 * g),
            -(4 * g) <= 2 * (b - (o - v)) <= 4 * g,
            -(8 * g) <= 2 * (x - (a - b)) <= 8 * g,
            -g <= 2 * (n - (u - o)) <= g,
            -(3 * o) < v < 3 * o,
            0 < o,
            0 < g,
    {
        let s = x - a + b;
        let t = b - o + v;
        let r = n - u + o;
        let og = o * g;
        assert(o * (4 * g) == 4 * og);
        assert(o * x == o * a - o * b + o * s);
        assert(o * b == o * o - o * v + o * t);
        assert(v * n == v * u - v * o + v * r);
        assert(v * o == o * v);
        assert(-(4 * og) <= o * s <= 4 * og) by {
            assert(o * s <= o * (4 * g));
            assert(o * s >= o * (-(4 * g)));
            assert(o * (-(4 * g)) == -(4 * og));
        }
        assert(-(2 * og) <= o * t <= 2 * og) by {
            assert(o * t <= o * (2 * g));
            assert(o * t >= o * (-(2 * g)));
            assert(o * (-(2 * g)) == -(2 * og));
            assert(o * (2 * g) == 2 * og);
        }
        assert(-(3 * og) <= 2 * (v * r) <= 3 * og) by {
            let w = 2 * r;
            assert(v * w == 2 * (v * r));
            if w >= 0 {
                assert(v * w <= (3 * o) * w);
                assert(v * w >= (-(3 * o)) * w);
                assert((3 * o) * w <= (3 * o) * g);
                assert((-(3 * o)) * w == -((3 * o) * w));
                assert((3 * o) * g == 3 * og);
            } else {
                let z = -w;
                assert(v * w == -(v * z));
                assert(v * z <= (3 * o) * z);
                assert(v * z >= (-(3 * o)) * z);
                assert((3 * o) * z <= (3 * o) * g);
                assert((-(3 * o)) * z == -((3 * o) * z));
                assert((3 * o) * g == 3 * og);
            }
        }
    }
}


/// The net odds are a positive number.
proof fn lemma_net_odds(odds: Binary64)
    requires
        odds.finite(),
        binary64::one() < odds.units(),
    ensures
        ({
            let net = odds.difference(Binary64::whole(1));
            &&& net.finite()
            &&& !net.negative()
            &&& net.magnitude() > 0
            &&& net.units() > 0
        }),
{
    let one = Binary64::whole(1);
    let o = binary64::one();
    let net = odds.difference(one);
    let least = Binary64::make(false, 1);
    laws::lemma_whole_exact(1);
    assert(1 * o == o);
    lemma_pow2_pos(1074);
    order::lemma_difference_key(odds, one);
    binary64::lemma_small_units(1);
    order::lemma_own_key(least);
    order::lemma_own_key(odds);
    order::lemma_nearest_order(1, 1, odds.units() - o, 1);
    order::lemma_nearest_order(odds.units() - o, 1, odds.units(), 1);
    order::lemma_own_key(net);
}

/// A quotient held between zero and one.
proof fn lemma_held_quotient(d: Binary64, net: Binary64)
    requires
        d.finite(),
        net.finite(),
        0 < net.units(),
    ensures
        ({
            let c = d.quotient(net).held_between(Binary64::whole(0), Binary64::whole(1));
            let off = c.units() * net.units() - held(d.units(), 0, net.units()) * binary64::one();
            &&& c.finite()
            &&& 0 <= c.units() <= binary64::one()
            &&& -(net.units() * pow2(1020)) <= off <= net.units() * pow2(1020)
        }),
{
    let o = binary64::one();
    let one = Binary64::whole(1);
    let zero = Binary64::whole(0);
    let f = d.quotient(net);
    let x = d.units();
    let n = net.units();
    let q = pow2(1020) as int;
    lemma_steps(1022);
    laws::lemma_whole_exact(1);
    assert(1 * o == o);
    order::lemma_zero(one);
    order::lemma_own_key(zero);
    order::lemma_own_key(one);
    order::lemma_quotient_key(d, net);
    assert(0 < n * q) by (nonlinear_arith)
        requires
            0 < n,
            0 < q,
    ;
    if x <= 0 {
        assert((x * o) * 1 <= 0 * n) by (nonlinear_arith)
            requires
                x <= 0,
                0 < o,
        ;
        order::lemma_nearest_order(x * o, n, 0, 1);
        assert(f.key() <= 0);
        assert(!zero.less(f));
        let c = f.held_between(zero, one);
        assert(c.key() == 0);
        order::lemma_own_key(c);
        assert(c.units() == 0);
        assert(0 * n == 0 && 0 * o == 0);
    } else if x >= n {
        assert(o * n <= (x * o) * 1) by (nonlinear_arith)
            requires
                x >= n,
                0 < o,
        ;
        order::lemma_nearest_order(o, 1, x * o, n);
        let c = f.held_between(zero, one);
        assert(c.key() == one.key());
        order::lemma_own_key(c);
        assert(c.magnitude() == one.magnitude() && !c.negative());
        assert(o * n == n * o) by (nonlinear_arith);
    } else {
        assert((x * o) * 1 <= o * n && 0 * n <= (x * o) * 1 && -(n * o) < x * o < n * o)
            by (nonlinear_arith)
            requires
                0 < x < n,
                0 < o,
        ;
        order::lemma_nearest_order(x * o, n, o, 1);
        order::lemma_nearest_order(0, 1, x * o, n);
        order::lemma_nearest_error(f, x * o, n, 1021);
        let c = f.held_between(zero, one);
        assert(c == f);
        order::lemma_own_key(f);
        binary64::lemma_order(f, one);
        binary64::lemma_order(zero, f);
        assert(n * f.units() == f.units() * n) by (nonlinear_arith);
        assert(n * pow2(1021) == 2 * (n * q)) by (nonlinear_arith)
            requires
                pow2(1021) == 2 * q,
        ;
    }
}

/// The bet before it is scaled, for an edge between minus one and one.
proof fn lemma_unscaled(edge: Binary64, odds: Binary64)
    requires
        edge.finite(),
        odds.finite(),
        -binary64::one() <= edge.units() <= binary64::one(),
        binary64::one() < odds.units() < pow2(1015) * binary64::one(),
    ensures
        ({
            let o = binary64::one();
            let one = Binary64::whole(1);
            let p = one.quotient(odds).sum(edge);
            let net = odds.difference(one);
            let c = p.product(net).difference(one.difference(p)).quotient(net).held_between(
                Binary64::whole(0),
                one,
            );
            let gain = held(edge.units() * odds.units(), 0, (odds.units() - o) * o);
            let off = c.units() * (odds.units() - o) - gain;
            &&& c.finite()
            &&& 0 <= c.units() <= o
            &&& -(15 * (o * last_place(odds))) <= off <= 15 * (o * last_place(odds))
        }),
{
    let o = binary64::one();
    let one = Binary64::whole(1);
    let u = odds.units();
    let y = edge.units();
    let e = binary64::exponent(odds.magnitude());
    let g = pow2(e) as int;
    lemma_odds_size(odds);
    lemma_steps(e);
    lemma_raised_probability(edge, odds);
    let p = one.quotient(odds).sum(edge);
    lemma_expectation(p, odds, e);
    let net = odds.difference(one);
    let d = p.product(net).difference(one.difference(p));
    lemma_net_odds(odds);
    lemma_held_quotient(d, net);
    let c = d.quotient(net).held_between(Binary64::whole(0), one).units();
    let n = net.units();
    let x = d.units();
    let v = p.units();
    let q = pow2(1020) as int;
    let og = o * g;
    let top = pow2(53 + e) as int;
    assert(2 * (u * q) <= og && 2 * (n * q) <= og && 2 * (u * (5 * q)) <= 5 * og && 0 < og)
        by (nonlinear_arith)
        requires
            0 < u < top,
            n <= u,
            top == 0x20_0000_0000_0000 * g,
            o == 0x10_0000_0000_0000 * (4 * q),
            0 < q,
            0 < g,
            og == o * g,
    {
        assert(u * q <= top * q);
        assert(top * q == (0x20_0000_0000_0000 * q) * g);
        assert(o * g == (0x40_0000_0000_0000 * q) * g);
        assert(2 * ((0x20_0000_0000_0000 * q) * g) == (0x40_0000_0000_0000 * q) * g)
            by (nonlinear_arith);
        assert(n * q <= u * q);
        assert(u * (5 * q) == 5 * (u * q));
        assert(0 < o * g);
    }
    assert(u * (v - y) == v * u - y * u) by (nonlinear_arith);
    assert(-(13 * og) <= o * x - y * u <= 13 * og);
    let w = n - (u - o);
    let limit = (u - o) * o;
    assert(-og <= 2 * (o * n - limit) <= og && 0 <= limit && -og <= 2 * (c * w) <= og)
        by (nonlinear_arith)
        requires
            limit == (u - o) * o,
            w == n - (u - o),
            -g <= 2 * w <= g,
            0 < o < u,
            0 <= c <= o,
            og == o * g,
    {
        assert(o * n - (u - o) * o == o * w);
        assert(o * (2 * w) <= o * g);
        assert(o * (2 * w) >= o * (-g));
        assert(o * (-g) == -(o * g));
        assert(o * (2 * w) == 2 * (o * w));
        assert(0 <= (u - o) * o);
        let z = 2 * w;
        assert(c * z == 2 * (c * w));
        assert(0 <= c * g <= o * g);
        assert(c * z <= c * g);
        assert(c * z >= c * (-g));
        assert(c * (-g) == -(c * g));
    }
    lemma_held_scaled(x, n, o);
    assert(c * n == c * (u - o) + c * w) by (nonlinear_arith)
        requires
            w == n - (u - o),
    ;
}

/// Holding a number between limits and scaling it can be done in either order.
pub proof fn lemma_held_scaled(x: int, n: int, o: int)
    requires
        0 < o,
        0 <= n,
    ensures
        held(x, 0, n) * o == held(o * x, 0, o * n),
{
    assert(x < 0 ==> o * x < 0) by (nonlinear_arith)
        requires
            0 < o,
    ;
    assert(x >= 0 ==> o * x >= 0) by (nonlinear_arith)
        requires
            0 < o,
    ;
    assert(x > n ==> o * x > o * n) by (nonlinear_arith)
        requires
            0 < o,
    ;
    assert(x <= n ==> o * x <= o * n) by (nonlinear_arith)
        requires
            0 < o,
    ;
    assert(x * o == o * x && n * o == o * n && 0 * o == 0) by (nonlinear_arith);
}

/// A number between zero and one, times a multiplier.
proof fn lemma_scaled(c: Binary64, m: Binary64)
    requires
        c.finite(),
        m.finite(),
        !m.negative(),
        0 <= c.units() <= binary64::one(),
    ensures
        ({
            let o = binary64::one();
            let r = c.product(m).greater_of(Binary64::whole(0));
            &&& r.finite()
            &&& 0 <= r.units() <= m.units()
            &&& -(o * last_place(m)) <= 2 * (o * r.units() - c.units() * m.units()) <= o
                * last_place(m)
        }),
{
    let o = binary64::one();
    let one = Binary64::whole(1);
    let zero = Binary64::whole(0);
    let x = c.product(m);
    let e = binary64::exponent(m.magnitude());
    let s = binary64::significand(m.magnitude());
    let g = pow2(e) as int;
    lemma_pow2_pos(1074);
    lemma_pow2_pos(e);
    lemma2_to64_rest();
    lemma_pow2_adds(53, e);
    lemma_mod_bound(m.magnitude(), BINADE as int);
    order::lemma_own_key(m);
    order::lemma_times_one(m);
    order::lemma_zero(m);
    binary64::lemma_order(c, one);
    binary64::lemma_order(zero, c);
    order::lemma_product_key(c, m);
    order::lemma_product_key(one, m);
    order::lemma_product_commutes(one, m);
    order::lemma_product_monotone(c, one, m);
    order::lemma_product_monotone(zero, c, m);
    assert(x.finite());
    order::lemma_own_key(x);
    binary64::lemma_order(x, m);
    binary64::lemma_order(zero, x);
    let u = c.units();
    let v = m.units();
    let top = pow2(53 + e) as int;
    assert(s * g < (2 * BINADE) * g) by (nonlinear_arith)
        requires
            s < 2 * BINADE,
            0 < g,
    ;
    assert(-(o * top) < u * v < o * top) by (nonlinear_arith)
        requires
            0 <= u <= o,
            0 <= v < top,
            0 < o,
    {
        assert(u * v <= o * v);
        assert(o * v < o * top);
        assert(0 <= u * v);
        assert(0 < o * top);
    }
    order::lemma_nearest_error(x, u * v, o, e);
    assert(x.greater_of(zero) == x);
}

/// The bet for an edge between minus one and one.
proof fn lemma_kelly_of_small_edge(edge: Binary64, odds: Binary64, multiplier: Binary64)
    requires
        edge.finite(),
        odds.finite(),
        multiplier.finite(),
        !multiplier.negative(),
        -binary64::one() <= edge.units() <= binary64::one(),
        binary64::one() < odds.units() < pow2(1015) * binary64::one(),
    ensures
        pays(edge, odds, multiplier, sizing::kelly(edge, odds, multiplier)),
{
    let o = binary64::one();
    let one = Binary64::whole(1);
    let u = odds.units();
    let m = multiplier.units();
    let g = last_place(odds);
    let h = last_place(multiplier);
    lemma_pow2_pos(1074);
    laws::lemma_whole_exact(1);
    assert(1 * o == o);
    binary64::lemma_order(odds, one);
    lemma_unscaled(edge, odds);
    let p = one.quotient(odds).sum(edge);
    let net = odds.difference(one);
    let c = p.product(net).difference(one.difference(p)).quotient(net).held_between(
        Binary64::whole(0),
        one,
    );
    lemma_scaled(c, multiplier);
    let r = sizing::kelly(edge, odds, multiplier).units();
    let x = c.units();
    let t = held(edge.units() * u, 0, (u - o) * o);
    lemma_pow2_pos(binary64::exponent(multiplier.magnitude()));
    order::lemma_own_key(multiplier);
    let n = u - o;
    assert(-(15 * (m * (o * g)) + (n * o) * h) <= r * (n * o) - m * t <= 15 * (m * (o * g)) + (n
        * o) * h) by (nonlinear_arith)
        requires
            -(15 * (o * g)) <= x * n - t <= 15 * (o * g),
            -(o * h) <= 2 * (o * r - x * m) <= o * h,
            0 <= m,
            0 < n,
            0 < o,
            0 < h,
    {
        let a = x * n - t;
        let b = o * r - x * m;
        let og = o * g;
        assert(r * (n * o) == n * (o * r));
        assert(n * (o * r) == n * b + n * (x * m));
        assert(n * (x * m) == m * (x * n));
        assert(m * (x * n) == m * a + m * t);
        assert(m * a <= m * (15 * og));
        assert(m * a >= m * (-(15 * og)));
        assert(m * (15 * og) == 15 * (m * og));
        assert(m * (-(15 * og)) == -(15 * (m * og)));
        let z = 2 * b;
        assert(n * z == 2 * (n * b));
        assert(n * z <= n * (o * h));
        assert(n * z >= n * (-(o * h)));
        assert(n * (-(o * h)) == -(n * (o * h)));
        assert(n * (o * h) == (n * o) * h);
        assert(0 <= (n * o) * h);
    }
}

/// Whether a bet is the fractional Kelly bet. With the probability `p = 1 / odds + edge`, the whole
/// bet is the fraction `f` of the bankroll with `f * (odds - 1) == p * (odds - 1) - (1 - p)`, that is
/// `edge * odds / (odds - 1)`, held between zero and one; the bet is its product with the multiplier,
/// up to 15 units in the last place of the odds, over the net odds, and one in the last place of the
/// multiplier. Numbers stand for their units, and fractions are multiplied out.
pub open spec fn pays(
    edge: Binary64,
    odds: Binary64,
    multiplier: Binary64,
    bet: Binary64,
) -> bool {
    let o = binary64::one();
    let net = (odds.units() - o) * o;
    let gain = held(edge.units() * odds.units(), 0, net);
    let off = bet.units() * net - multiplier.units() * gain;
    let most = 15 * (multiplier.units() * (o * last_place(odds))) + net * last_place(multiplier);
    &&& bet.finite()
    &&& -most <= off <= most
}

/// What is won over what is lost is a number wherever the probability is one.
proof fn lemma_expectation_is_a_number(p: Binary64, net: Binary64)
    requires
        !p.nan(),
        net.finite(),
        !net.negative(),
        net.magnitude() > 0,
    ensures
        !p.product(net).nan(),
        !Binary64::whole(1).difference(p).nan(),
        !p.product(net).difference(Binary64::whole(1).difference(p)).nan(),
{
    let one = Binary64::whole(1);
    let zero = Binary64::whole(0);
    let o = binary64::one();
    lemma_pow2_pos(1074);
    laws::lemma_whole_exact(1);
    assert(1 * o == o);
    order::lemma_zero(net);
    order::lemma_own_key(net);
    order::lemma_own_key(one);
    order::lemma_own_key(zero);
    order::lemma_negated(p);
    let won = p.product(net);
    let lost = one.difference(p);
    order::lemma_negated(lost);
    if p.finite() {
        order::lemma_own_key(p);
        order::lemma_product_key(p, net);
        order::lemma_difference_key(one, p);
        if p.key() >= 0 {
            order::lemma_product_monotone(zero, p, net);
            order::lemma_nearest_order(o - p.units(), 1, o, 1);
        } else {
            order::lemma_product_monotone(p, zero, net);
            order::lemma_nearest_order(o, 1, o - p.units(), 1);
        }
        if won.finite() && lost.finite() {
            order::lemma_difference_key(won, lost);
        }
    }
}

/// A greater edge never makes the bet smaller.
pub proof fn lemma_kelly_grows_with_the_edge(
    less: Binary64,
    more: Binary64,
    odds: Binary64,
    multiplier: Binary64,
)
    requires
        less.finite(),
        more.finite(),
        less.at_most(more),
        odds.finite(),
        multiplier.finite(),
        !multiplier.negative(),
    ensures
        sizing::kelly(less, odds, multiplier).at_most(sizing::kelly(more, odds, multiplier)),
{
    let one = Binary64::whole(1);
    let zero = Binary64::whole(0);
    let o = binary64::one();
    lemma_pow2_pos(1074);
    laws::lemma_whole_exact(1);
    assert(1 * o == o);
    order::lemma_zero(multiplier);
    binary64::lemma_order(odds, one);
    if odds.units() > o {
        let net = odds.difference(one);
        let implied = one.quotient(odds);
        lemma_net_odds(odds);
        order::lemma_own_key(odds);
        order::lemma_quotient_key(one, odds);
        order::lemma_own_key(one);
        assert((o * o) * 1 <= o * odds.units()) by (nonlinear_arith)
            requires
                0 < o < odds.units(),
        ;
        order::lemma_nearest_order(o * o, odds.units(), o, 1);
        assert(0 * odds.units() <= (o * o) * 1) by (nonlinear_arith)
            requires
                0 < o,
        ;
        order::lemma_own_key(zero);
        order::lemma_nearest_order(0, 1, o * o, odds.units());
        assert(implied.finite());
        order::lemma_sum_key(implied, less);
        order::lemma_sum_key(implied, more);
        order::lemma_sum_monotone(implied, less, implied, more);
        let p = implied.sum(less);
        let q = implied.sum(more);
        lemma_expectation_is_a_number(p, net);
        lemma_expectation_is_a_number(q, net);
        order::lemma_own_key(net);
        order::lemma_product_monotone(p, q, net);
        order::lemma_difference_monotone(one, q, one, p);
        order::lemma_difference_monotone(
            p.product(net),
            one.difference(p),
            q.product(net),
            one.difference(q),
        );
        let f = p.product(net).difference(one.difference(p)).quotient(net);
        let h = q.product(net).difference(one.difference(q)).quotient(net);
        order::lemma_quotient_monotone(
            p.product(net).difference(one.difference(p)),
            q.product(net).difference(one.difference(q)),
            net,
        );
        binary64::lemma_order(zero, one);
        order::lemma_held_monotone(f, h, zero, one);
        let c = f.held_between(zero, one);
        let d = h.held_between(zero, one);
        order::lemma_held_monotone(h, h, zero, one);
        order::lemma_own_key(multiplier);
        order::lemma_product_key(c, multiplier);
        order::lemma_product_key(d, multiplier);
        order::lemma_product_monotone(c, d, multiplier);
    }
}

/// The bet is the fractional Kelly bet, for every finite edge, odds above one and finite multiplier
/// that is not negative. At odds of one and below there is no bet. The odds are below two to the power
/// of 1015.
pub proof fn lemma_kelly_pays(edge: Binary64, odds: Binary64, multiplier: Binary64)
    requires
        edge.finite(),
        odds.finite(),
        multiplier.finite(),
        !multiplier.negative(),
        odds.units() < pow2(1015) * binary64::one(),
    ensures
        binary64::one() < odds.units() ==> pays(
            edge,
            odds,
            multiplier,
            sizing::kelly(edge, odds, multiplier),
        ),
        odds.units() <= binary64::one() ==> sizing::kelly(edge, odds, multiplier).units() == 0,
{
    let o = binary64::one();
    let one = Binary64::whole(1);
    let u = odds.units();
    let r = sizing::kelly(edge, odds, multiplier);
    lemma_pow2_pos(1074);
    laws::lemma_whole_exact(1);
    assert(1 * o == o);
    order::lemma_zero(one);
    binary64::lemma_order(odds, one);
    sizing::lemma_kelly_within_multiplier(edge, odds, multiplier);
    assert(r.finite());
    binary64::lemma_order(Binary64::whole(0), r);
    binary64::lemma_order(r, multiplier);
    assert(multiplier.units() * 0 == 0);
    if u > o {
        let net = (u - o) * o;
        assert(0 < net && net < o * u && 0 < o * u && (-o) * u < 0) by (nonlinear_arith)
            requires
                net == (u - o) * o,
                0 < o < u,
        ;
        if edge.units() > o {
            let s = sizing::kelly(one, odds, multiplier);
            lemma_kelly_of_small_edge(one, odds, multiplier);
            binary64::lemma_order(one, edge);
            lemma_kelly_grows_with_the_edge(one, edge, odds, multiplier);
            binary64::lemma_order(s, r);
            assert(edge.units() * u >= o * u) by (nonlinear_arith)
                requires
                    edge.units() > o,
                    0 < u,
            ;
            let m = multiplier.units();
            assert(s.units() * net <= r.units() * net && r.units() * net <= m * net)
                by (nonlinear_arith)
                requires
                    s.units() <= r.units() <= m,
                    0 < net,
            ;
            lemma_most(odds, multiplier);
        } else if edge.units() < -o {
            let low = one.negated();
            order::lemma_negated(one);
            let s = sizing::kelly(low, odds, multiplier);
            lemma_kelly_of_small_edge(low, odds, multiplier);
            binary64::lemma_order(edge, low);
            lemma_kelly_grows_with_the_edge(edge, low, odds, multiplier);
            binary64::lemma_order(r, s);
            assert(edge.units() * u <= (-o) * u) by (nonlinear_arith)
                requires
                    edge.units() < -o,
                    0 < u,
            ;
            assert(r.units() * net <= s.units() * net && 0 <= r.units() * net) by (nonlinear_arith)
                requires
                    0 <= r.units() <= s.units(),
                    0 < net,
            ;
            lemma_most(odds, multiplier);
        } else {
            lemma_kelly_of_small_edge(edge, odds, multiplier);
        }
    }
}

proof fn lemma_most(odds: Binary64, multiplier: Binary64)
    requires
        binary64::one() < odds.units(),
        multiplier.finite(),
        !multiplier.negative(),
    ensures
        0 <= 15 * (multiplier.units() * (binary64::one() * last_place(odds))),
        0 <= ((odds.units() - binary64::one()) * binary64::one()) * last_place(multiplier),
{
    let o = binary64::one();
    let m = multiplier.units();
    let g = last_place(odds);
    let h = last_place(multiplier);
    let n = odds.units() - o;
    lemma_pow2_pos(1074);
    lemma_pow2_pos(binary64::exponent(odds.magnitude()));
    lemma_pow2_pos(binary64::exponent(multiplier.magnitude()));
    order::lemma_own_key(multiplier);
    assert(0 <= m * (o * g) && 0 <= (n * o) * h) by (nonlinear_arith)
        requires
            0 <= m,
            0 < o,
            0 < g,
            0 < n,
            0 < h,
    {
        assert(0 < o * g);
        assert(0 < n * o);
    }
}

/// What a bet buys, before the limits: as many contracts as its share of the bankroll pays for.
proof fn lemma_wanted(bet: Binary64, bankroll: int, price: Binary64)
    requires
        bet.finite(),
        0 <= bet.units() <= binary64::one(),
        0 <= bankroll < 0x1_0000_0000,
        price.finite(),
        binary64::one() <= price.units(),
    ensures
        ({
            let n = bet.product(Binary64::whole(bankroll)).quotient(price).truncated();
            let c = price.units();
            let share = 0x40_0000 * (bet.units() * bankroll);
            let slack = binary64::one() + c;
            &&& 0 <= n
            &&& 0x40_0000 * (n * c) <= share + slack
            &&& share < 0x40_0000 * ((n + 1) * c) + slack
        }),
{
    let o = binary64::one();
    let b = bet.units();
    let c = price.units();
    let k = Binary64::whole(bankroll);
    let h = pow2(1052) as int;
    lemma2_to64();
    lemma2_to64_rest();
    lemma_pow2_pos(1074);
    lemma_pow2_pos(1052);
    lemma_pow2_adds(22, 1052);
    lemma_pow2_adds(1, 1052);
    lemma_pow2_adds(32, 1074);
    laws::lemma_whole_exact(bankroll);
    let amount = bet.product(k);
    order::lemma_product_key(bet, k);
    let n1 = b * (bankroll * o);
    let top = pow2(53 + 1053) as int;
    assert(0 <= n1 && n1 < o * top && -(o * top) < n1) by (nonlinear_arith)
        requires
            n1 == b * (bankroll * o),
            0 <= b <= o,
            0 <= bankroll < 0x1_0000_0000,
            top == 0x1_0000_0000 * o,
            0 < o,
    {
        assert(0 <= b * bankroll <= o * bankroll);
        assert(o * bankroll < o * 0x1_0000_0000);
        assert(b * (bankroll * o) == (b * bankroll) * o);
        assert((b * bankroll) * o < (o * 0x1_0000_0000) * o);
        assert((o * 0x1_0000_0000) * o == o * (0x1_0000_0000 * o));
        assert(0 <= (b * bankroll) * o);
        assert(0 < o * top);
    }
    order::lemma_nearest_error(amount, n1, o, 1053);
    let a = amount.units();
    let share = b * bankroll;
    assert(-h <= a - share <= h) by (nonlinear_arith)
        requires
            -(o * (2 * h)) <= 2 * (o * a - n1) <= o * (2 * h),
            n1 == b * (bankroll * o),
            share == b * bankroll,
            0 < o,
    {
        assert(b * (bankroll * o) == o * (b * bankroll));
        assert(o * a - o * share == o * (a - share));
        assert(o * (2 * h) == 2 * (o * h));
        if a - share > h {
            assert(o * (a - share) > o * h);
        }
        if a - share < -h {
            assert(o * (a - share) < o * (-h));
            assert(o * (-h) == -(o * h));
        }
    }
    // The amount is not negative, and at most the whole bankroll.
    let zero = Binary64::whole(0);
    order::lemma_zero(k);
    order::lemma_own_key(zero);
    order::lemma_own_key(k);
    assert(0 * o <= n1 * 1 && n1 * 1 <= (bankroll * o) * o) by (nonlinear_arith)
        requires
            0 <= n1,
            n1 == b * (bankroll * o),
            0 <= b <= o,
            0 <= bankroll,
            0 < o,
    {
        assert(0 <= bankroll * o);
        assert(b * (bankroll * o) <= o * (bankroll * o));
    }
    order::lemma_nearest_order(0, 1, n1, o);
    order::lemma_nearest_order(n1, o, bankroll * o, 1);
    order::lemma_own_key(amount);
    binary64::lemma_order(zero, amount);
    binary64::lemma_order(amount, k);
    let q = amount.quotient(price);
    order::lemma_quotient_key(amount, price);
    assert(-(c * top) < a * o && a * o < c * top) by (nonlinear_arith)
        requires
            0 <= a <= bankroll * o,
            0 <= bankroll < 0x1_0000_0000,
            top == 0x1_0000_0000 * o,
            o <= c,
            0 < o,
    {
        assert(bankroll * o < 0x1_0000_0000 * o);
        assert(a < top);
        assert(a * o <= a * c);
        assert(a * c < top * c);
        assert(0 <= a * o);
        assert(0 < c * top);
    }
    order::lemma_nearest_error(q, a * o, c, 1053);
    let x = q.units();
    assert(0 * c <= (a * o) * 1) by (nonlinear_arith)
        requires
            0 <= a,
            0 < o,
    ;
    order::lemma_nearest_order(0, 1, a * o, c);
    order::lemma_own_key(q);
    binary64::lemma_order(zero, q);
    // Its whole part.
    let n = x / o;
    lemma_fundamental_div_mod(x, o);
    lemma_mod_bound(x, o);
    lemma_div_pos_is_pos(x, o);
    assert(x < top) by (nonlinear_arith)
        requires
            2 * (c * x - a * o) <= c * (2 * h),
            0 <= a <= bankroll * o,
            0 <= bankroll < 0x1_0000_0000,
            top == 0x1_0000_0000 * o,
            0x40_0000 * h == o,
            o <= c,
            0 < o,
    {
        if x >= top {
            assert(c * x >= c * top);
            assert(bankroll * o <= 0xffff_ffff * o);
            assert(a * o <= (0xffff_ffff * o) * o);
            assert((0xffff_ffff * o) * o <= (0xffff_ffff * o) * c);
            assert(c * (2 * h) == 2 * (c * h));
            assert(c * top == (0xffff_ffff * o) * c + o * c);
            assert(c * (0x40_0000 * h) == c * o);
            assert(c * (0x40_0000 * h) == 0x40_0000 * (c * h));
            assert(0 < c * o);
        }
    }
    assert(n < 0x1_0000_0000) by (nonlinear_arith)
        requires
            x == o * n + x % o,
            0 <= x % o,
            x < 0x1_0000_0000 * o,
            0 < o,
    ;
    assert(q.truncated() == n) by {
        if q.negative() {
            assert(x == 0);
            lemma_basic_div(0, o);
        }
    }
    assert(0x40_0000 * (n * c) <= 0x40_0000 * share + (o + c) && 0x40_0000 * share < 0x40_0000 * ((n
        + 1) * c) + (o + c)) by (nonlinear_arith)
        requires
            -(c * (2 * h)) <= 2 * (c * x - a * o) <= c * (2 * h),
            -h <= a - share <= h,
            x == o * n + x % o,
            0 <= x % o < o,
            0x40_0000 * h == o,
            0 < o,
            0 < c,
            0 < h,
    {
        let r = x % o;
        assert(c * x == o * (n * c) + c * r);
        assert(0 <= c * r);
        assert(c * r < c * o);
        assert(c * (2 * h) == 2 * (c * h));
        assert(a * o == o * a);
        // o * (n * c) <= o * a + c * h, and o * a < o * ((n + 1) * c) + c * h.
        assert(o * ((n + 1) * c) == o * (n * c) + c * o) by (nonlinear_arith);
        let d = n * c - a;
        assert(o * d == o * (n * c) - o * a);
        let e = (n + 1) * c - a;
        assert(o * e == o * ((n + 1) * c) - o * a);
        assert(0x40_0000 * (c * h) == c * (0x40_0000 * h));
        assert(o * (0x40_0000 * d) == 0x40_0000 * (o * d));
        assert(o * (0x40_0000 * d) <= o * c);
        if 0x40_0000 * d > c {
            assert(o * (0x40_0000 * d) > o * c);
        }
        assert(o * (0x40_0000 * e) == 0x40_0000 * (o * e));
        assert(o * (0x40_0000 * e) > -(o * c));
        if 0x40_0000 * e <= -c {
            assert(o * (0x40_0000 * e) <= o * (-c));
            assert(o * (-c) == -(o * c));
        }
    }
}

/// What is bought is what the bet's share of the bankroll pays for, and the most that it pays for: one
/// contract more would cost more than the share, or than the position limit, or be beyond the contract
/// limit. The share is off by at most two to the power of minus 22 of a cent, and of the price. The bet
/// is between nothing and the whole bankroll, which is below two to the power of 32 cents, and a
/// contract costs a cent or more.
pub proof fn lemma_contracts_are_the_most(
    bet: Binary64,
    bankroll_cents: u64,
    price: Binary64,
    max_position_cents: u64,
    max_contracts: u64,
)
    requires
        bet.finite(),
        0 <= bet.units() <= binary64::one(),
        bankroll_cents < 0x1_0000_0000,
        price.finite(),
        binary64::one() <= price.units(),
    ensures
        ({
            let n = sizing::contracts(
                bet,
                bankroll_cents as int,
                price,
                max_position_cents as int,
                max_contracts as int,
            );
            let c = price.units();
            let share = 0x40_0000 * (bet.units() * bankroll_cents);
            let slack = binary64::one() + c;
            &&& 0 <= n <= max_contracts
            &&& n * c <= max_position_cents * binary64::one()
            &&& 0x40_0000 * (n * c) <= share + slack
            &&& n == max_contracts || max_position_cents * binary64::one() < (n + 1) * c || share
                < 0x40_0000 * ((n + 1) * c) + slack
        }),
{
    let o = binary64::one();
    let c = price.units();
    let n = sizing::contracts(
        bet,
        bankroll_cents as int,
        price,
        max_position_cents as int,
        max_contracts as int,
    );
    lemma_pow2_pos(1074);
    order::lemma_own_key(price);
    lemma_div_is_ordered(o, c, o);
    lemma_div_by_self(o);
    lemma_wanted(bet, bankroll_cents as int, price);
    sizing::lemma_contracts_within_limits(
        bet,
        bankroll_cents,
        price,
        max_position_cents,
        max_contracts,
    );
    let limit = max_position_cents * o;
    let q = limit / c;
    lemma_fundamental_div_mod(limit, c);
    lemma_mod_bound(limit, c);
    assert(0 <= limit) by (nonlinear_arith)
        requires
            limit == max_position_cents * o,
            0 <= max_position_cents,
            0 < o,
    ;
    lemma_div_pos_is_pos(limit, c);
    assert(limit < (q + 1) * c) by (nonlinear_arith)
        requires
            limit == c * q + limit % c,
            limit % c < c,
    ;
    let w = bet.product(Binary64::whole(bankroll_cents as int)).quotient(price).truncated();
    assert(n * c <= w * c) by (nonlinear_arith)
        requires
            n <= w,
            0 < c,
    ;
    if n == 0 {
        assert(0 * c == 0);
    }
}

} // verus!
