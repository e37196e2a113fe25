//! The listed markets and their computed prices, in exact numbers.

use crate::executor::answer_laws;
use crate::json::JsonTree;
use crate::numeric::accuracy;
use crate::numeric::binary64;
use crate::numeric::binary64::Binary64;
use crate::numeric::laws;
use crate::numeric::order;
use crate::signal::bet_laws;
use crate::signal::bet_laws::{held, places};
use crate::signal::engine;
use crate::signal::kalshi_poller;
use crate::signal::kalshi_poller::MarketView;
use crate::signal::momentum_laws;
use crate::types::{BrtiEstimate, KalshiMarket};
use vstd::arithmetic::power2::*;
use vstd::prelude::*;

verus! {

/// The time that is left for certainty: the seconds to go over 900, and at most one.
proof fn lemma_time_factor(s: Binary64)
    requires
        s.finite(),
        0 <= s.units(),
    ensures
        ({
            let o = binary64::one();
            let x = s.quotient(Binary64::whole(900)).lesser_of(Binary64::whole(1));
            &&& x.finite()
            &&& 0 <= x.units() <= o
            &&& -(900 * pow2(1021)) <= 900 * x.units() - held(s.units(), 0, 900 * o) <= 900 * pow2(
                1021,
            )
        }),
{
    let o = binary64::one();
    let one = Binary64::whole(1);
    let zero = Binary64::whole(0);
    let limit = Binary64::whole(900);
    let x = s.quotient(limit);
    let u = s.units();
    let q = pow2(1021) as int;
    lemma2_to64();
    lemma_pow2_pos(1074);
    lemma_pow2_pos(1021);
    lemma_pow2_adds(1, 1074);
    lemma_pow2_adds(1, 1021);
    laws::lemma_whole_exact(1);
    laws::lemma_whole_exact(900);
    assert(1 * o == o);
    order::lemma_zero(one);
    order::lemma_own_key(zero);
    order::lemma_own_key(one);
    order::lemma_quotient_key(s, limit);
    let d = 900 * o;
    assert(0 * d <= (u * o) * 1) by (nonlinear_arith)
        requires
            0 <= u,
            0 < o,
    ;
    order::lemma_nearest_order(0, 1, u * o, d);
    if u <= 900 * o {
        assert(-(d * (2 * o)) < u * o && u * o < d * (2 * o) && (u * o) * 1 <= o * d)
            by (nonlinear_arith)
            requires
                d == 900 * o,
                0 <= u <= 900 * o,
                0 < o,
        {
            assert(u * o <= (900 * o) * o);
            assert((900 * o) * o == 900 * (o * o));
            assert((900 * o) * (2 * o) == 1800 * (o * o));
            assert(o * (900 * o) == 900 * (o * o));
            assert(0 < o * o);
            assert(0 <= u * o);
        }
        order::lemma_nearest_order(u * o, d, o, 1);
        order::lemma_nearest_error(x, u * o, d, 1022);
        binary64::lemma_order(zero, x);
        binary64::lemma_order(x, one);
        binary64::lemma_order(one, x);
        let w = 900 * x.units() - u;
        assert(d * x.units() - u * o == o * w) by (nonlinear_arith)
            requires
                d == 900 * o,
                w == 900 * x.units() - u,
        ;
        assert(d * pow2(1022) == 2 * (o * (900 * q))) by (nonlinear_arith)
            requires
                d == 900 * o,
                pow2(1022) == 2 * q,
        ;
        bet_laws::lemma_divided(o, w, 900 * q);
    } else {
        assert(o * d <= (u * o) * 1) by (nonlinear_arith)
            requires
                d == 900 * o,
                900 * o <= u,
                0 < o,
        ;
        order::lemma_nearest_order(o, 1, u * o, d);
        assert(x.lesser_of(one).key() == one.key());
        assert(x.lesser_of(one).magnitude() == one.magnitude());
        order::lemma_own_key(x.lesser_of(one));
    }
}

/// The probability at the full time: a half, and four tenths of the tangent.
proof fn lemma_base(t: Binary64)
    requires
        t.finite(),
        -binary64::one() <= t.units() <= binary64::one(),
    ensures
        ({
            let o = binary64::one();
            let b = Binary64::ratio(5, 10).sum(t.product(Binary64::ratio(4, 10)));
            &&& b.finite()
            &&& 0 <= b.units() <= o
            &&& -(20 * pow2(1021)) <= 10 * b.units() - (5 * o + 4 * t.units()) <= 20 * pow2(1021)
        }),
{
    let o = binary64::one();
    let half = Binary64::ratio(5, 10);
    let r = Binary64::ratio(4, 10);
    let u = t.units();
    let q = pow2(1020) as int;
    lemma2_to64();
    lemma2_to64_rest();
    lemma_pow2_pos(1074);
    lemma_pow2_pos(1020);
    lemma_pow2_adds(1, 1020);
    lemma_pow2_adds(2, 1020);
    lemma_pow2_adds(54, 1020);
    lemma_pow2_adds(1, 1074);
    order::lemma_literals();
    accuracy::lemma_ratio_key(4, 10);
    order::lemma_nearest_error(r, 4 * o, 10, 1021);
    let v = r.units();
    assert(-(o * o) < u * v && u * v < o * o) by (nonlinear_arith)
        requires
            -o <= u <= o,
            0 <= v,
            10 * v < 5 * o,
            0 < o,
    {
        assert(u * v <= o * v);
        assert(u * v >= (-o) * v);
        assert((-o) * v == -(o * v));
        assert(o * v < o * o);
    }
    bet_laws::lemma_near_product(t, r, 1021);
    let x = t.product(r).units();
    let d = 10 * v - 4 * o;
    assert(-(o * (10 * q)) <= d * u && d * u <= o * (10 * q)) by (nonlinear_arith)
        requires
            -(10 * q) <= d <= 10 * q,
            -o <= u <= o,
            0 < q,
            0 < o,
    {
        let dd = if d >= 0 {
            d
        } else {
            -d
        };
        let uu = if u >= 0 {
            u
        } else {
            -u
        };
        assert(0 <= dd * uu);
        assert(dd * uu <= (10 * q) * uu);
        assert((10 * q) * uu <= (10 * q) * o);
        assert(d * u == dd * uu || d * u == -(dd * uu));
    }
    let w = 10 * x - 4 * u;
    assert(o * w == 10 * (o * x - u * v) + d * u) by (nonlinear_arith)
        requires
            w == 10 * x - 4 * u,
            d == 10 * v - 4 * o,
    ;
    assert(o * pow2(1021) == 2 * (o * q) && o * (20 * q) == 20 * (o * q) && o * (10 * q) == 10 * (o
        * q)) by (nonlinear_arith)
        requires
            pow2(1021) == 2 * q,
    ;
    bet_laws::lemma_divided(o, w, 20 * q);
    accuracy::lemma_near_sum(half, t.product(r), 1022);
}

/// A product of two numbers of at most two.
proof fn lemma_small_product(x: Binary64, y: Binary64)
    requires
        x.finite(),
        y.finite(),
        -(2 * binary64::one()) <= x.units() <= 2 * binary64::one(),
        -(2 * binary64::one()) <= y.units() <= 2 * binary64::one(),
    ensures
        ({
            let o = binary64::one();
            let p = x.product(y);
            let off = o * p.units() - x.units() * y.units();
            &&& p.finite()
            &&& -(4 * (o * pow2(1021))) <= off <= 4 * (o * pow2(1021))
            &&& -(5 * o) <= p.units() <= 5 * o
        }),
{
    let o = binary64::one();
    let u = x.units();
    let v = y.units();
    let q = pow2(1021) as int;
    lemma2_to64();
    lemma2_to64_rest();
    lemma_pow2_pos(1074);
    lemma_pow2_pos(1021);
    lemma_pow2_adds(3, 1021);
    lemma_pow2_adds(53, 1021);
    lemma_pow2_adds(3, 1074);
    assert(-(4 * (o * o)) <= u * v && u * v <= 4 * (o * o) && o * (8 * o) == 8 * (o * o) && 0 < o * o)
        by (nonlinear_arith)
        requires
            -(2 * o) <= u <= 2 * o,
            -(2 * o) <= v <= 2 * o,
            0 < o,
    {
        let uu = if u >= 0 {
            u
        } else {
            -u
        };
        let vv = if v >= 0 {
            v
        } else {
            -v
        };
        assert(0 <= uu * vv);
        assert(uu * vv <= (2 * o) * vv);
        assert((2 * o) * vv <= (2 * o) * (2 * o));
        assert((2 * o) * (2 * o) == 4 * (o * o));
        assert(u * v == uu * vv || u * v == -(uu * vv));
    }
    bet_laws::lemma_near_product(x, y, 1024);
    assert(o * pow2(1024) == 8 * (o * q)) by (nonlinear_arith)
        requires
            pow2(1024) == 8 * q,
    ;
    let w = x.product(y).units();
    assert(o * (5 * o) == 5 * (o * o)) by (nonlinear_arith);
    assert(4 * (o * q) <= o * o) by (nonlinear_arith)
        requires
            4 * q <= o,
            0 < o,
    ;
    bet_laws::lemma_divided(o, w, 5 * o);
}

/// A hundred times a probability, held between 1 and 99.
proof fn lemma_held_price(y: Binary64)
    requires
        y.finite(),
        -(2 * binary64::one()) <= y.units() <= 2 * binary64::one(),
    ensures
        ({
            let o = binary64::one();
            let v = y.product(Binary64::whole(100)).held_between(
                Binary64::whole(1),
                Binary64::whole(99),
            );
            let off = v.units() - held(100 * y.units(), o, 99 * o);
            &&& v.finite()
            &&& o <= v.units() <= 99 * o
            &&& -(128 * pow2(1021)) <= off <= 128 * pow2(1021)
        }),
{
    let o = binary64::one();
    let hundred = Binary64::whole(100);
    let one = Binary64::whole(1);
    let most = Binary64::whole(99);
    let u = y.units();
    let q = pow2(1021) as int;
    lemma2_to64();
    lemma2_to64_rest();
    lemma_pow2_pos(1074);
    lemma_pow2_pos(1021);
    lemma_pow2_adds(8, 1021);
    lemma_pow2_adds(8, 1074);
    laws::lemma_whole_exact(100);
    laws::lemma_whole_exact(99);
    laws::lemma_whole_exact(1);
    assert(1 * o == o);
    let n = u * (100 * o);
    assert(-(o * (256 * o)) < n && n < o * (256 * o)) by (nonlinear_arith)
        requires
            n == u * (100 * o),
            -(2 * o) <= u <= 2 * o,
            0 < o,
    {
        assert(u * (100 * o) <= (2 * o) * (100 * o));
        assert(u * (100 * o) >= (-(2 * o)) * (100 * o));
        assert((2 * o) * (100 * o) == 200 * (o * o));
        assert((-(2 * o)) * (100 * o) == -(200 * (o * o)));
        assert(o * (256 * o) == 256 * (o * o));
        assert(0 < o * o);
    }
    bet_laws::lemma_near_product(y, hundred, 1029);
    let x = y.product(hundred);
    let w = x.units() - 100 * u;
    assert(o * x.units() - n == o * w) by (nonlinear_arith)
        requires
            n == u * (100 * o),
            w == x.units() - 100 * u,
    ;
    assert(o * pow2(1029) == 2 * (o * (128 * q))) by (nonlinear_arith)
        requires
            pow2(1029) == 256 * q,
    ;
    bet_laws::lemma_divided(o, w, 128 * q);
    binary64::lemma_order(x, one);
    binary64::lemma_order(most, x);
}

/// The computed price of yes where the index is above the strike: with `b` ten times the probability at
/// the full time, that probability and half of what is missing to one, for the time that is gone.
proof fn lemma_price_above(t: Binary64, s: Binary64)
    requires
        t.finite(),
        -binary64::one() <= t.units() <= binary64::one(),
        s.finite(),
        0 <= s.units(),
    ensures
        ({
            let o = binary64::one();
            let one = Binary64::whole(1);
            let half = Binary64::ratio(5, 10);
            let left = s.quotient(Binary64::whole(900)).lesser_of(one);
            let base = half.sum(t.product(Binary64::ratio(4, 10)));
            let y = base.sum(
                one.difference(base).product(one.difference(left)).product(half),
            );
            let b = 5 * o + 4 * t.units();
            let gone = 900 * o - held(s.units(), 0, 900 * o);
            let off = 18_000 * (o * y.units()) - (1800 * (b * o) + (10 * o - b) * gone);
            &&& y.finite()
            &&& -(2 * o) <= y.units() <= 2 * o
            &&& -(300_000 * (o * pow2(1021))) <= off <= 300_000 * (o * pow2(1021))
        }),
{
    let o = binary64::one();
    let one = Binary64::whole(1);
    let half = Binary64::ratio(5, 10);
    let left = s.quotient(Binary64::whole(900)).lesser_of(one);
    let base = half.sum(t.product(Binary64::ratio(4, 10)));
    let q = pow2(1021) as int;
    lemma2_to64();
    lemma2_to64_rest();
    lemma_pow2_pos(1074);
    lemma_pow2_pos(1021);
    lemma_pow2_adds(1, 1021);
    lemma_pow2_adds(3, 1021);
    lemma_pow2_adds(53, 1021);
    lemma_pow2_adds(1, 1074);
    lemma_pow2_adds(3, 1074);
    laws::lemma_whole_exact(1);
    assert(1 * o == o);
    order::lemma_literals();
    lemma_time_factor(s);
    lemma_base(t);
    accuracy::lemma_near_difference(one, base, 1022);
    accuracy::lemma_near_difference(one, left, 1022);
    let u1 = one.difference(base);
    let u2 = one.difference(left);
    lemma_small_product(u1, u2);
    let m = u1.product(u2);
    lemma_tight(o, q, u1.units(), u2.units(), m.units());
    lemma_small_product(m, half);
    let h = m.product(half);
    lemma_halved(o, q, m.units(), half.units(), h.units());
    accuracy::lemma_near_sum(base, h, 1024);
    let y = base.sum(h);
    lemma_above_bounds(
        o,
        q,
        5 * o + 4 * t.units(),
        held(s.units(), 0, 900 * o),
        base.units(),
        left.units(),
        u1.units(),
        u2.units(),
        m.units(),
        h.units(),
        y.units(),
    );
}

/// A product of two numbers of little more than one is of little more than one.
proof fn lemma_tight(o: int, q: int, a: int, b: int, m: int)
    requires
        0 < q,
        o == 0x20_0000_0000_0000 * q,
        -q <= a <= o + q,
        -q <= b <= o + q,
        -(4 * (o * q)) <= o * m - a * b <= 4 * (o * q),
    ensures
        -(8 * q) <= m <= o + 8 * q,
{
    assert(-(3 * (o * q)) <= a * b && a * b <= o * o + 3 * (o * q)) by (nonlinear_arith)
        requires
            -q <= a <= o + q,
            -q <= b <= o + q,
            0 < q,
            o == 0x20_0000_0000_0000 * q,
    {
        let x = a + q;
        let y = b + q;
        assert(0 <= x * y);
        assert(x * y <= (o + 2 * q) * y);
        assert((o + 2 * q) * y <= (o + 2 * q) * (o + 2 * q));
        assert((o + 2 * q) * (o + 2 * q) == o * o + 4 * (o * q) + 4 * (q * q));
        assert(a * b == x * y - q * x - q * y + q * q);
        assert(q * x <= q * (o + 2 * q));
        assert(q * y <= q * (o + 2 * q));
        assert(q * (o + 2 * q) == o * q + 2 * (q * q));
        assert(0 <= q * x && 0 <= q * y);
        assert(100 * (q * q) <= o * q);
        // Upper bound: a, b are at most o + q, and a product of one negative is not positive.
        if a >= 0 && b >= 0 {
            assert(a * b <= (o + q) * b);
            assert((o + q) * b <= (o + q) * (o + q));
            assert((o + q) * (o + q) == o * o + 2 * (o * q) + q * q);
        } else if a < 0 && b < 0 {
            assert(a * b == (-a) * (-b));
            assert((-a) * (-b) <= q * (-b));
            assert(q * (-b) <= q * q);
        } else if a < 0 {
            assert(a * b <= 0);
        } else {
            assert(a * b <= 0);
        }
    }
    assert(-(8 * q) <= m && m <= o + 8 * q) by (nonlinear_arith)
        requires
            -(4 * (o * q)) <= o * m - a * b <= 4 * (o * q),
            -(3 * (o * q)) <= a * b,
            a * b <= o * o + 3 * (o * q),
            0 < o,
            0 < q,
    {
        if m > o + 8 * q {
            assert(o * m > o * (o + 8 * q));
            assert(o * (o + 8 * q) == o * o + 8 * (o * q));
            assert(0 < o * q);
        }
        if m < -(8 * q) {
            assert(o * m < o * (-(8 * q)));
            assert(o * (-(8 * q)) == -(8 * (o * q)));
            assert(0 < o * q);
        }
    }
}

proof fn lemma_halved(o: int, q: int, m: int, half: int, h: int)
    requires
        0 < q,
        0 < o,
        2 * half == o,
        -(4 * (o * q)) <= o * h - m * half <= 4 * (o * q),
    ensures
        -(8 * q) <= 2 * h - m <= 8 * q,
{
    let w = 2 * h - m;
    assert(o * w == 2 * (o * h - m * half)) by (nonlinear_arith)
        requires
            w == 2 * h - m,
            2 * half == o,
    ;
    assert(o * (8 * q) == 8 * (o * q)) by (nonlinear_arith);
    bet_laws::lemma_divided(o, w, 8 * q);
}

proof fn lemma_above_bounds(
    o: int,
    q: int,
    b: int,
    s: int,
    base: int,
    left: int,
    u1: int,
    u2: int,
    m: int,
    h: int,
    y: int,
)
    requires
        0 < q,
        o == 0x20_0000_0000_0000 * q,
        o <= b <= 9 * o,
        0 <= s <= 900 * o,
        0 <= base <= o,
        0 <= left <= o,
        -(20 * q) <= 10 * base - b <= 20 * q,
        -(900 * q) <= 900 * left - s <= 900 * q,
        -q <= u1 - (o - base) <= q,
        -q <= u2 - (o - left) <= q,
        -(4 * (o * q)) <= o * m - u1 * u2 <= 4 * (o * q),
        -(8 * q) <= 2 * h - m <= 8 * q,
        -(4 * q) <= y - (base + h) <= 4 * q,
        -(8 * q) <= m <= o + 8 * q,
    ensures
        -(2 * o) <= y <= 2 * o,
        -(300_000 * (o * q)) <= 18_000 * (o * y) - (1800 * (b * o) + (10 * o - b) * (900 * o - s))
            <= 300_000 * (o * q),
{
    let oq = o * q;
    let e1 = u1 - (o - base);
    let e2 = u2 - (o - left);
    let x1 = o - base;
    let x2 = o - left;
    // u1 * u2 against (o - base) * (o - left).
    assert(u1 * u2 == x1 * x2 + x1 * e2 + x2 * e1 + e1 * e2) by (nonlinear_arith)
        requires
            e1 == u1 - x1,
            e2 == u2 - x2,
    ;
    assert(-oq <= x1 * e2 && x1 * e2 <= oq) by (nonlinear_arith)
        requires
            0 <= x1 <= o,
            -q <= e2 <= q,
            oq == o * q,
            0 < q,
    {
        assert(x1 * e2 <= x1 * q);
        assert(x1 * e2 >= x1 * (-q));
        assert(x1 * (-q) == -(x1 * q));
        assert(x1 * q <= o * q);
    }
    assert(-oq <= x2 * e1 && x2 * e1 <= oq) by (nonlinear_arith)
        requires
            0 <= x2 <= o,
            -q <= e1 <= q,
            oq == o * q,
            0 < q,
    {
        assert(x2 * e1 <= x2 * q);
        assert(x2 * e1 >= x2 * (-q));
        assert(x2 * (-q) == -(x2 * q));
        assert(x2 * q <= o * q);
    }
    assert(-oq <= e1 * e2 && e1 * e2 <= oq) by (nonlinear_arith)
        requires
            -q <= e1 <= q,
            -q <= e2 <= q,
            oq == o * q,
            q <= o,
            0 < q,
    {
        let a = if e1 >= 0 {
            e1
        } else {
            -e1
        };
        let c = if e2 >= 0 {
            e2
        } else {
            -e2
        };
        assert(0 <= a * c);
        assert(a * c <= q * c);
        assert(q * c <= q * q);
        assert(q * q <= o * q);
        assert(e1 * e2 == a * c || e1 * e2 == -(a * c));
    }
    // 9000 * (o - base) * (o - left) against (10 * o - b) * (900 * o - s).
    let g1 = 10 * x1 - (10 * o - b);
    let g2 = 900 * x2 - (900 * o - s);
    let p = 10 * o - b;
    let r = 900 * o - s;
    assert(9000 * (x1 * x2) == p * r + p * g2 + r * g1 + g1 * g2) by (nonlinear_arith)
        requires
            g1 == 10 * x1 - p,
            g2 == 900 * x2 - r,
    ;
    assert(-(8100 * oq) <= p * g2 && p * g2 <= 8100 * oq) by (nonlinear_arith)
        requires
            0 <= p <= 9 * o,
            -(900 * q) <= g2 <= 900 * q,
            oq == o * q,
            0 < q,
    {
        assert(p * g2 <= p * (900 * q));
        assert(p * g2 >= p * (-(900 * q)));
        assert(p * (-(900 * q)) == -(p * (900 * q)));
        assert(p * (900 * q) <= (9 * o) * (900 * q));
        assert((9 * o) * (900 * q) == 8100 * (o * q));
    }
    assert(-(18_000 * oq) <= r * g1 && r * g1 <= 18_000 * oq) by (nonlinear_arith)
        requires
            0 <= r <= 900 * o,
            -(20 * q) <= g1 <= 20 * q,
            oq == o * q,
            0 < q,
    {
        assert(r * g1 <= r * (20 * q));
        assert(r * g1 >= r * (-(20 * q)));
        assert(r * (-(20 * q)) == -(r * (20 * q)));
        assert(r * (20 * q) <= (900 * o) * (20 * q));
        assert((900 * o) * (20 * q) == 18_000 * (o * q));
    }
    assert(-oq <= g1 * g2 && g1 * g2 <= oq) by (nonlinear_arith)
        requires
            -(20 * q) <= g1 <= 20 * q,
            -(900 * q) <= g2 <= 900 * q,
            oq == o * q,
            18_000 * q <= o,
            0 < q,
    {
        let a = if g1 >= 0 {
            g1
        } else {
            -g1
        };
        let c = if g2 >= 0 {
            g2
        } else {
            -g2
        };
        assert(0 <= a * c);
        assert(a * c <= (20 * q) * c);
        assert((20 * q) * c <= (20 * q) * (900 * q));
        assert((20 * q) * (900 * q) == (18_000 * q) * q);
        assert((18_000 * q) * q <= o * q);
        assert(g1 * g2 == a * c || g1 * g2 == -(a * c));
    }
    // The sum.
    let z = y - (base + h);
    let w = 2 * h - m;
    assert(18_000 * (o * y) == 18_000 * (o * base) + 9000 * (o * m) + 9000 * (o * w) + 18_000 * (o
        * z)) by (nonlinear_arith)
        requires
            z == y - (base + h),
            w == 2 * h - m,
    ;
    bet_laws::lemma_scaled_bound(o, w, 8 * q);
    bet_laws::lemma_scaled_bound(o, z, 4 * q);
    let v = 10 * base - b;
    assert(18_000 * (o * base) == 1800 * (b * o) + 1800 * (o * v)) by (nonlinear_arith)
        requires
            v == 10 * base - b,
    ;
    bet_laws::lemma_scaled_bound(o, v, 20 * q);
    assert(o * (8 * q) == 8 * oq && o * (4 * q) == 4 * oq && o * (20 * q) == 20 * oq)
        by (nonlinear_arith)
        requires
            oq == o * q,
    ;
}

/// The computed price of yes where the index is not above the strike: the probability at the full time,
/// for the time that is left.
proof fn lemma_price_below(t: Binary64, s: Binary64)
    requires
        t.finite(),
        -binary64::one() <= t.units() <= binary64::one(),
        s.finite(),
        0 <= s.units(),
    ensures
        ({
            let o = binary64::one();
            let left = s.quotient(Binary64::whole(900)).lesser_of(Binary64::whole(1));
            let base = Binary64::ratio(5, 10).sum(t.product(Binary64::ratio(4, 10)));
            let y = base.product(left);
            let b = 5 * o + 4 * t.units();
            let off = 9_000 * (o * y.units()) - b * held(s.units(), 0, 900 * o);
            &&& y.finite()
            &&& -(2 * o) <= y.units() <= 2 * o
            &&& -(80_000 * (o * pow2(1021))) <= off <= 80_000 * (o * pow2(1021))
        }),
{
    let o = binary64::one();
    let left = s.quotient(Binary64::whole(900)).lesser_of(Binary64::whole(1));
    let base = Binary64::ratio(5, 10).sum(t.product(Binary64::ratio(4, 10)));
    let y = base.product(left);
    let q = pow2(1021) as int;
    lemma2_to64();
    lemma2_to64_rest();
    lemma_pow2_pos(1074);
    lemma_pow2_pos(1021);
    lemma_pow2_adds(53, 1021);
    lemma_time_factor(s);
    lemma_base(t);
    lemma_small_product(base, left);
    lemma_tight(o, q, base.units(), left.units(), y.units());
    lemma_below_bounds(
        o,
        q,
        5 * o + 4 * t.units(),
        held(s.units(), 0, 900 * o),
        base.units(),
        left.units(),
        y.units(),
    );
}

proof fn lemma_below_bounds(o: int, q: int, b: int, s: int, base: int, left: int, y: int)
    requires
        0 < q,
        o == 0x20_0000_0000_0000 * q,
        o <= b <= 9 * o,
        0 <= s <= 900 * o,
        -(20 * q) <= 10 * base - b <= 20 * q,
        -(900 * q) <= 900 * left - s <= 900 * q,
        -(4 * (o * q)) <= o * y - base * left <= 4 * (o * q),
    ensures
        -(80_000 * (o * q)) <= 9_000 * (o * y) - b * s <= 80_000 * (o * q),
{
    let oq = o * q;
    let g1 = 10 * base - b;
    let g2 = 900 * left - s;
    assert(9000 * (base * left) == b * s + b * g2 + s * g1 + g1 * g2) by (nonlinear_arith)
        requires
            g1 == 10 * base - b,
            g2 == 900 * left - s,
    ;
    assert(-(8100 * oq) <= b * g2 && b * g2 <= 8100 * oq) by (nonlinear_arith)
        requires
            0 <= b <= 9 * o,
            -(900 * q) <= g2 <= 900 * q,
            oq == o * q,
            0 < q,
    {
        assert(b * g2 <= b * (900 * q));
        assert(b * g2 >= b * (-(900 * q)));
        assert(b * (-(900 * q)) == -(b * (900 * q)));
        assert(b * (900 * q) <= (9 * o) * (900 * q));
        assert((9 * o) * (900 * q) == 8100 * (o * q));
    }
    assert(-(18_000 * oq) <= s * g1 && s * g1 <= 18_000 * oq) by (nonlinear_arith)
        requires
            0 <= s <= 900 * o,
            -(20 * q) <= g1 <= 20 * q,
            oq == o * q,
            0 < q,
    {
        assert(s * g1 <= s * (20 * q));
        assert(s * g1 >= s * (-(20 * q)));
        assert(s * (-(20 * q)) == -(s * (20 * q)));
        assert(s * (20 * q) <= (900 * o) * (20 * q));
        assert((900 * o) * (20 * q) == 18_000 * (o * q));
    }
    assert(-oq <= g1 * g2 && g1 * g2 <= oq) by (nonlinear_arith)
        requires
            -(20 * q) <= g1 <= 20 * q,
            -(900 * q) <= g2 <= 900 * q,
            oq == o * q,
            18_000 * q <= o,
            0 < q,
    {
        let a = if g1 >= 0 {
            g1
        } else {
            -g1
        };
        let c = if g2 >= 0 {
            g2
        } else {
            -g2
        };
        assert(0 <= a * c);
        assert(a * c <= (20 * q) * c);
        assert((20 * q) * c <= (20 * q) * (900 * q));
        assert((20 * q) * (900 * q) == (18_000 * q) * q);
        assert((18_000 * q) * q <= o * q);
        assert(g1 * g2 == a * c || g1 * g2 == -(a * c));
    }
}

/// The computed prices, given the hyperbolic tangent `t` of the distance. With the seconds to go, at
/// most 900, the probability of yes at the full time is `0.5 + 0.4 * t`; above the strike half of what
/// is missing to one is added for the part of the time that is gone, and else only the part of the time
/// that is left counts. The price is a hundred times that, between 1 and 99 cents, up to two to the
/// power of minus 33 of a cent.
pub proof fn lemma_computed_prices(
    brti_est: Binary64,
    strike: Binary64,
    seconds_to_close: Binary64,
    tanh_distance: Binary64,
)
    requires
        tanh_distance.finite(),
        -binary64::one() <= tanh_distance.units() <= binary64::one(),
        seconds_to_close.finite(),
        0 <= seconds_to_close.units(),
    ensures
        ({
            let o = binary64::one();
            let yes = kalshi_poller::computed_prices(
                brti_est,
                strike,
                seconds_to_close,
                tanh_distance,
            ).0;
            let b = 5 * o + 4 * tanh_distance.units();
            let left = held(seconds_to_close.units(), 0, 900 * o);
            let above = 1800 * (b * o) + (10 * o - b) * (900 * o - left);
            let off = if strike.less(brti_est) {
                180 * (o * yes.units()) - held(above, 180 * (o * o), 99 * (180 * (o * o)))
            } else {
                90 * (o * yes.units()) - held(b * left, 90 * (o * o), 99 * (90 * (o * o)))
            };
            &&& yes.finite()
            &&& o <= yes.units() <= 99 * o
            &&& -(o * pow2(1041)) <= off <= o * pow2(1041)
        }),
{
    let o = binary64::one();
    let one = Binary64::whole(1);
    let half = Binary64::ratio(5, 10);
    let left = seconds_to_close.quotient(Binary64::whole(900)).lesser_of(one);
    let base = half.sum(tanh_distance.product(Binary64::ratio(4, 10)));
    let q = pow2(1021) as int;
    let oq = o * q;
    let oo = o * o;
    lemma2_to64();
    lemma_pow2_pos(1074);
    lemma_pow2_pos(1021);
    lemma_pow2_adds(20, 1021);
    assert(o * pow2(1041) == 0x10_0000 * oq) by (nonlinear_arith)
        requires
            pow2(1041) == 0x10_0000 * q,
            oq == o * q,
    ;
    assert(0 < oo) by (nonlinear_arith)
        requires
            oo == o * o,
            0 < o,
    ;
    if strike.less(brti_est) {
        lemma_price_above(tanh_distance, seconds_to_close);
        let y = base.sum(one.difference(base).product(one.difference(left)).product(half));
        lemma_held_price(y);
        lemma_price_scaled(o, q, y.units(), kalshi_poller::computed_prices(
            brti_est,
            strike,
            seconds_to_close,
            tanh_distance,
        ).0.units(), 180);
    } else {
        lemma_price_below(tanh_distance, seconds_to_close);
        let y = base.product(left);
        lemma_held_price(y);
        lemma_price_scaled(o, q, y.units(), kalshi_poller::computed_prices(
            brti_est,
            strike,
            seconds_to_close,
            tanh_distance,
        ).0.units(), 90);
    }
}

proof fn lemma_price_scaled(o: int, q: int, y: int, v: int, k: int)
    requires
        0 < o,
        0 < q,
        0 < k <= 180,
        -(128 * q) <= v - held(100 * y, o, 99 * o) <= 128 * q,
    ensures
        ({
            let exact = held((100 * k) * (o * y), k * (o * o), 99 * (k * (o * o)));
            -(23_040 * (o * q)) <= k * (o * v) - exact <= 23_040 * (o * q)
        }),
{
    let oo = o * o;
    let oy = o * y;
    let h = held(100 * y, o, 99 * o);
    let exact = held((100 * k) * oy, k * oo, 99 * (k * oo));
    assert((100 * k) * oy == k * (o * (100 * y)) && k * oo == k * (o * o) && 99 * (k * oo) == k * (o
        * (99 * o))) by (nonlinear_arith)
        requires
            oy == o * y,
            oo == o * o,
    ;
    assert(100 * y < o ==> k * (o * (100 * y)) < k * (o * o)) by (nonlinear_arith)
        requires
            0 < o,
            0 < k,
    {
        if 100 * y < o {
            assert(o * (100 * y) < o * o);
        }
    }
    assert(100 * y >= o ==> k * (o * (100 * y)) >= k * (o * o)) by (nonlinear_arith)
        requires
            0 < o,
            0 < k,
    {
        if 100 * y >= o {
            assert(o * (100 * y) >= o * o);
        }
    }
    assert(100 * y > 99 * o ==> k * (o * (100 * y)) > k * (o * (99 * o))) by (nonlinear_arith)
        requires
            0 < o,
            0 < k,
    {
        if 100 * y > 99 * o {
            assert(o * (100 * y) > o * (99 * o));
        }
    }
    assert(100 * y <= 99 * o ==> k * (o * (100 * y)) <= k * (o * (99 * o))) by (nonlinear_arith)
        requires
            0 < o,
            0 < k,
    {
        if 100 * y <= 99 * o {
            assert(o * (100 * y) <= o * (99 * o));
        }
    }
    assert(exact == k * (o * h));
    let w = v - h;
    assert(k * (o * v) - k * (o * h) == k * (o * w)) by (nonlinear_arith)
        requires
            w == v - h,
    ;
    assert(-(23_040 * (o * q)) <= k * (o * w) && k * (o * w) <= 23_040 * (o * q))
        by (nonlinear_arith)
        requires
            -(128 * q) <= w <= 128 * q,
            0 < k <= 180,
            0 < o,
            0 < q,
    {
        let oq = o * q;
        assert(0 < oq);
        assert(o * w <= o * (128 * q));
        assert(o * w >= o * (-(128 * q)));
        assert(o * (128 * q) == 128 * oq);
        assert(o * (-(128 * q)) == -(128 * oq));
        assert(k * (o * w) <= k * (128 * oq));
        assert(k * (o * w) >= k * (-(128 * oq)));
        assert(k * (-(128 * oq)) == -(k * (128 * oq)));
        assert(k * (128 * oq) <= 180 * (128 * oq));
    }
}

/// The computed price of no is what the price of yes leaves of a hundred cents.
pub proof fn lemma_no_is_the_rest(
    brti_est: Binary64,
    strike: Binary64,
    seconds_to_close: Binary64,
    tanh_distance: Binary64,
)
    requires
        tanh_distance.finite(),
        -binary64::one() <= tanh_distance.units() <= binary64::one(),
        seconds_to_close.finite(),
        0 <= seconds_to_close.units(),
    ensures
        ({
            let o = binary64::one();
            let (yes, no) = kalshi_poller::computed_prices(
                brti_est,
                strike,
                seconds_to_close,
                tanh_distance,
            );
            &&& no.finite()
            &&& o <= no.units() <= 99 * o
            &&& -pow2(1027) <= yes.units() + no.units() - 100 * o <= pow2(1027)
        }),
{
    let o = binary64::one();
    let one = Binary64::whole(1);
    let most = Binary64::whole(99);
    let hundred = Binary64::whole(100);
    let yes = kalshi_poller::computed_prices(
        brti_est,
        strike,
        seconds_to_close,
        tanh_distance,
    ).0;
    lemma_computed_prices(brti_est, strike, seconds_to_close, tanh_distance);
    lemma2_to64();
    lemma_pow2_pos(1074);
    lemma_pow2_adds(7, 1074);
    lemma_pow2_adds(1, 1027);
    laws::lemma_whole_exact(1);
    laws::lemma_whole_exact(99);
    laws::lemma_whole_exact(100);
    assert(1 * o == o);
    accuracy::lemma_near_difference(hundred, yes, 1028);
    let rest = hundred.difference(yes);
    binary64::lemma_order(rest, one);
    binary64::lemma_order(most, rest);
}

/// How far the index is from the strike, in percent of the strike: a hundred times the distance over the
/// strike, up to a few millionths of a millionth, where they are within a sixty-fourth of each other.
pub proof fn lemma_distance_in_percent(brti_est: Binary64, strike: Binary64)
    requires
        brti_est.finite(),
        strike.finite(),
        binary64::one() <= strike.units() < pow2(64) * binary64::one(),
        -strike.units() <= 64 * (brti_est.units() - strike.units()) <= strike.units(),
    ensures
        ({
            let p = kalshi_poller::distance_percent(brti_est, strike);
            let off = strike.units() * p.units() - 100 * ((brti_est.units() - strike.units())
                * binary64::one());
            &&& p.finite()
            &&& -(328 * (strike.units() * pow2(1015))) <= off <= 328 * (strike.units() * pow2(1015))
        }),
{
    momentum_laws::lemma_percent_change(brti_est, strike);
}

/// Milliseconds in seconds, up to a quarter of an hour; more than 900 from there on.
proof fn lemma_seconds(n: int)
    requires
        0 <= n < 0x20_0000_0000_0000,
    ensures
        ({
            let o = binary64::one();
            let s = Binary64::whole(n).quotient(Binary64::whole(1000));
            &&& s.finite()
            &&& 0 <= s.units()
            &&& n <= 900_000 ==> -(1000 * pow2(1031)) <= 1000 * s.units() - n * o <= 1000 * pow2(
                1031,
            )
            &&& n >= 900_000 ==> s.units() >= 900 * o
        }),
{
    let o = binary64::one();
    let x = Binary64::whole(n);
    let thousand = Binary64::whole(1000);
    let limit = Binary64::whole(900);
    let zero = Binary64::whole(0);
    let s = x.quotient(thousand);
    let d = 1000 * o;
    let u = n * o;
    lemma2_to64();
    lemma2_to64_rest();
    lemma_pow2_pos(1074);
    lemma_pow2_pos(1031);
    lemma_pow2_adds(53, 1074);
    lemma_pow2_adds(10, 1074);
    lemma_pow2_adds(53, 1031);
    laws::lemma_whole_exact(n);
    laws::lemma_whole_exact(1000);
    laws::lemma_whole_exact(900);
    order::lemma_zero(thousand);
    order::lemma_own_key(zero);
    order::lemma_own_key(limit);
    order::lemma_quotient_key(x, thousand);
    let c = o * o;
    assert(u * o == n * c && d * (0x20_0000_0000_0000 * o) == 1000 * (0x20_0000_0000_0000 * c) && d * (
    1024 * o) == 1000 * (1024 * c) && 0 < c) by (nonlinear_arith)
        requires
            u == n * o,
            d == 1000 * o,
            c == o * o,
            0 < o,
    ;
    assert(0 <= n * c && n * c < 1000 * (0x20_0000_0000_0000 * c)) by (nonlinear_arith)
        requires
            0 <= n < 0x20_0000_0000_0000,
            0 < c,
    ;
    order::lemma_nearest_error(s, u * o, d, 1074);
    assert(0 * d <= (u * o) * 1) by (nonlinear_arith)
        requires
            0 <= u * o,
    ;
    order::lemma_nearest_order(0, 1, u * o, d);
    binary64::lemma_order(zero, s);
    if n >= 900_000 {
        assert((900 * o) * d <= (u * o) * 1) by (nonlinear_arith)
            requires
                u * o == n * c,
                d == 1000 * o,
                c == o * o,
                0 < c,
                n >= 900_000,
        {
            assert((900 * o) * (1000 * o) == 900_000 * (o * o));
            assert(900_000 * c <= n * c);
        }
        order::lemma_nearest_order(900 * o, 1, u * o, d);
        binary64::lemma_order(limit, s);
    }
    if n <= 900_000 {
        assert(n * c < 1000 * (1024 * c)) by (nonlinear_arith)
            requires
                n <= 900_000,
                0 < c,
        ;
        order::lemma_nearest_error(s, u * o, d, 1031);
        let w = 1000 * s.units() - u;
        assert(d * s.units() - u * o == o * w) by (nonlinear_arith)
            requires
                d == 1000 * o,
                w == 1000 * s.units() - u,
        ;
        assert(d * pow2(1031) == o * (1000 * pow2(1031))) by (nonlinear_arith)
            requires
                d == 1000 * o,
        ;
        assert(0 <= o * (1000 * pow2(1031))) by (nonlinear_arith)
            requires
                0 < o,
        ;
        bet_laws::lemma_divided(o, w, 1000 * (pow2(1031) as int));
    }
}

/// The seconds to go of a market are a thousandth of the milliseconds from now to its close; at least
/// 900 where that is a quarter of an hour or more.
pub proof fn lemma_seconds_to_go(m: JsonTree, now_ms: u64)
    requires
        now_ms <= kalshi_poller::time_field(m, "close_time"@) < now_ms + 0x20_0000_0000_0000,
    ensures
        ({
            let o = binary64::one();
            let n = kalshi_poller::time_field(m, "close_time"@) - now_ms;
            let s = kalshi_poller::seconds_to_go(m, now_ms);
            &&& s.finite()
            &&& 0 <= s.units()
            &&& n <= 900_000 ==> -(1000 * pow2(1031)) <= 1000 * s.units() - n * o <= 1000 * pow2(
                1031,
            )
            &&& n >= 900_000 ==> s.units() >= 900 * o
        }),
{
    lemma_seconds(kalshi_poller::time_field(m, "close_time"@) - now_ms);
}

/// The logit of a market comes from the distance of the index above its strike, the time from now to its
/// close, at most a quarter of an hour, and the size of the move: in millionths 1261386, 82579 for each
/// dollar above the strike, minus 1716 for each second and 98562 for each dollar of the move; up to two to
/// the power of minus 24.
pub proof fn lemma_logit_of_a_market(
    market: KalshiMarket,
    estimate: BrtiEstimate,
    velocity: Binary64,
    now_ms: u64,
)
    requires
        estimate.value.finite(),
        market.strike.finite(),
        velocity.finite(),
        -(0xf_ffff * binary64::one()) <= estimate.value.units() - market.strike.units() <= 0xf_ffff
            * binary64::one(),
        -(0x10_0000 * binary64::one()) <= velocity.units() <= 0x10_0000 * binary64::one(),
        now_ms <= market.closes_at < now_ms + 0x20_0000_0000_0000,
    ensures
        ({
            let o = binary64::one();
            let z = engine::market_logit(market, estimate, velocity, now_ms);
            let moved = if velocity.units() < 0 {
                -velocity.units()
            } else {
                velocity.units()
            };
            let left = held(market.closes_at - now_ms, 0, 900_000);
            let exact = 1000 * (1_261_386 * o + 82_579 * (estimate.value.units()
                - market.strike.units()) + 98_562 * moved) - 1_716 * (left * o);
            &&& z.finite()
            &&& -(1_000_000_000 * pow2(1050)) <= 1_000_000_000 * z.units() - exact <= 1_000_000_000
                * pow2(1050)
        }),
{
    let o = binary64::one();
    let n = market.closes_at - now_ms;
    let s = Binary64::whole(n).quotient(Binary64::whole(1000));
    lemma_seconds(n);
    lemma2_to64();
    lemma_pow2_pos(1074);
    lemma_pow2_pos(1031);
    lemma_pow2_adds(18, 1031);
    lemma_pow2_adds(1, 1049);
    bet_laws::lemma_logit_in_exact_numbers(estimate.value, market.strike, s, velocity);
    let left = held(n, 0, 900_000);
    let secs = held(s.units(), 0, 900 * o);
    if n <= 900_000 {
        assert(n * o <= 900_000 * o) by (nonlinear_arith)
            requires
                n <= 900_000,
                0 < o,
        ;
        assert(0 <= n * o) by (nonlinear_arith)
            requires
                0 <= n,
                0 < o,
        ;
    }
    assert(-(1000 * pow2(1031)) <= 1000 * secs - left * o <= 1000 * pow2(1031));
}

/// Whether a time is that of a field: the milliseconds of its text, where that is a time, and else
/// zero.
pub open spec fn is_time_of(time: u64, m: JsonTree, key: Seq<char>) -> bool {
    match m.text_field(key) {
        Some(s) => match kalshi_poller::chrono_millis(s) {
            Some(n) => n >= 0 ==> time == n,
            None => time == 0,
        },
        None => time == 0,
    }
}

/// Whether a price is the bid of an entry: the number of cents that it gives, else a hundred times the
/// dollars, up to two to the power of minus 36 of a cent, else zero.
pub open spec fn is_bid_of(
    price: Binary64,
    m: JsonTree,
    cents: Seq<char>,
    dollars: Seq<char>,
) -> bool {
    match m.number_field(cents) {
        Some(x) => price == x,
        None => match m.decimal_field(dollars) {
            Some(x) => x.finite() && 0 <= x.units() <= 1024 * binary64::one() ==> price.finite() && (
            -pow2(1038) <= price.units() - 100 * x.units() <= pow2(1038)),
            None => price.finite() && price.units() == 0,
        },
    }
}

/// Whether an entry gives no bid for yes: none at all, or zero cents.
pub open spec fn has_no_bid(m: JsonTree) -> bool {
    match m.number_field("yes_bid"@) {
        Some(x) => x.finite() && x.units() == 0,
        None => m.decimal_field("yes_bid_dollars"@) is None,
    }
}

/// Whether an entry gives a bid for yes, of at least a thousandth of a dollar where it is in dollars.
pub open spec fn has_a_bid(m: JsonTree) -> bool {
    match m.number_field("yes_bid"@) {
        Some(x) => x.finite() && x.units() != 0,
        None => match m.decimal_field("yes_bid_dollars"@) {
            Some(x) => x.finite() && binary64::one() <= 1024 * x.units() <= 1024 * (1024
                * binary64::one()),
            None => false,
        },
    }
}

/// Whether a market is the one of an entry.
pub open spec fn is_market_of(
    market: MarketView,
    m: JsonTree,
    brti: Binary64,
    now_ms: u64,
    tanh_distance: Binary64,
) -> bool {
    &&& m.text_field("ticker"@) == Some(market.ticker)
    &&& match m.number_field("floor_strike"@) {
        Some(strike) => market.strike == strike,
        None => market.strike.finite() && market.strike.units() == 0,
    }
    &&& is_time_of(market.open_time, m, "open_time"@)
    &&& is_time_of(market.closes_at, m, "close_time"@)
    &&& brti.finite() && market.strike.finite() && has_no_bid(m) ==> (market.synthetic
        <==> brti.units() != 0 && market.strike.units() != 0 && now_ms < market.closes_at)
    &&& has_a_bid(m) ==> !market.synthetic
    &&& !market.synthetic ==> is_bid_of(market.yes_price, m, "yes_bid"@, "yes_bid_dollars"@)
    &&& !market.synthetic ==> is_bid_of(market.no_price, m, "no_bid"@, "no_bid_dollars"@)
    &&& market.synthetic ==> (market.yes_price, market.no_price) == kalshi_poller::computed_prices(
        brti,
        market.strike,
        kalshi_poller::seconds_to_go(m, now_ms),
        tanh_distance,
    )
}

/// A bid is taken in cents.
proof fn lemma_bid(m: JsonTree, cents: Seq<char>, dollars: Seq<char>)
    ensures
        is_bid_of(kalshi_poller::price_field(m, cents, dollars), m, cents, dollars),
{
    order::lemma_zero(Binary64::whole(1));
    if m.number_field(cents) is None && m.decimal_field(dollars) is Some {
        let x = m.decimal_field(dollars)->0;
        if x.finite() && 0 <= x.units() <= 1024 * binary64::one() {
            answer_laws::lemma_hundredfold(x);
        }
    }
}

/// A finite number is the same as zero where it has no units.
proof fn lemma_nothing(x: Binary64)
    ensures
        x.finite() ==> (x.same(Binary64::whole(0)) <==> x.units() == 0),
        Binary64::whole(0).finite(),
        Binary64::whole(0).units() == 0,
{
    order::lemma_zero(x);
    if x.finite() {
        binary64::lemma_order(x, Binary64::whole(0));
    }
}

/// Whether there is a bid for yes.
proof fn lemma_bid_for_yes(m: JsonTree)
    ensures
        ({
            let bid = kalshi_poller::price_field(m, "yes_bid"@, "yes_bid_dollars"@);
            &&& has_no_bid(m) ==> bid.same(Binary64::whole(0))
            &&& has_a_bid(m) ==> !bid.same(Binary64::whole(0))
        }),
{
    let bid = kalshi_poller::price_field(m, "yes_bid"@, "yes_bid_dollars"@);
    lemma2_to64();
    lemma2_to64_rest();
    lemma_pow2_pos(1038);
    lemma_pow2_adds(36, 1038);
    lemma_nothing(bid);
    lemma_bid(m, "yes_bid"@, "yes_bid_dollars"@);
}

/// The times of an entry.
proof fn lemma_time(m: JsonTree, key: Seq<char>)
    ensures
        is_time_of(kalshi_poller::time_field(m, key), m, key),
{
}

/// An entry with a ticker gives its market, and one without gives none. Its strike and times are those
/// under their keys. Where it has no bid for yes, the index and the strike are there and the market is
/// still open, the prices are computed; else they are the bids.
pub proof fn lemma_market_of_an_entry(
    m: JsonTree,
    brti: Binary64,
    now_ms: u64,
    tanh_distance: Binary64,
)
    ensures
        ({
            let market = kalshi_poller::listed_market(m, brti, now_ms, tanh_distance);
            &&& market is Some <==> m.text_field("ticker"@) is Some
            &&& market is Some ==> is_market_of(market->0, m, brti, now_ms, tanh_distance)
        }),
{
    let strike = kalshi_poller::listed_strike(m);
    lemma_nothing(brti);
    lemma_nothing(strike);
    lemma_bid_for_yes(m);
    lemma_bid(m, "yes_bid"@, "yes_bid_dollars"@);
    lemma_bid(m, "no_bid"@, "no_bid_dollars"@);
    lemma_time(m, "open_time"@);
    lemma_time(m, "close_time"@);
}

/// Whether the entry at a place has a ticker.
pub open spec fn naming(entries: Seq<JsonTree>) -> spec_fn(int) -> bool {
    |i: int| entries[i].text_field("ticker"@) is Some
}

/// The markets of a list are those of its entries with a ticker, each and in their order.
pub proof fn lemma_every_market_is_listed(
    entries: Seq<JsonTree>,
    brti: Binary64,
    now_ms: u64,
    tanhs: Seq<Binary64>,
)
    ensures
        ({
            let found = kalshi_poller::listed_markets(entries, brti, now_ms, tanhs);
            let at = places(entries.len()).filter(naming(entries));
            &&& found.len() == at.len()
            &&& forall|k: int|
                #![trigger found[k]]
                #![trigger at[k]]
                0 <= k < found.len() ==> 0 <= at[k] && at[k] < entries.len() && is_market_of(
                    found[k],
                    entries[at[k]],
                    brti,
                    now_ms,
                    tanhs[at[k]],
                )
        }),
{
    lemma_listed(entries, brti, now_ms, tanhs, entries.len());
    assert(entries.take(entries.len() as int) == entries);
}

proof fn lemma_listed(
    entries: Seq<JsonTree>,
    brti: Binary64,
    now_ms: u64,
    tanhs: Seq<Binary64>,
    n: nat,
)
    requires
        n <= entries.len(),
    ensures
        ({
            let found = kalshi_poller::listed_markets(
                entries.take(n as int),
                brti,
                now_ms,
                tanhs,
            );
            let at = places(n).filter(naming(entries));
            &&& found.len() == at.len()
            &&& forall|k: int|
                #![trigger found[k]]
                #![trigger at[k]]
                0 <= k < found.len() ==> 0 <= at[k] && at[k] < n && is_market_of(
                    found[k],
                    entries[at[k]],
                    brti,
                    now_ms,
                    tanhs[at[k]],
                )
        }),
    decreases n,
{
    reveal(Seq::filter);
    if n > 0 {
        let m = (n - 1) as nat;
        let row = entries.take(n as int);
        let rest = entries.take(m as int);
        let names = naming(entries);
        lemma_listed(entries, brti, now_ms, tanhs, m);
        assert(row.drop_last() =~= rest);
        assert(row.last() == entries[m as int]);
        assert(places(n).drop_last() =~= places(m));
        assert(places(n).last() == m as int);
        lemma_market_of_an_entry(entries[m as int], brti, now_ms, tanhs[m as int]);
        let before = kalshi_poller::listed_markets(rest, brti, now_ms, tanhs);
        let found = kalshi_poller::listed_markets(row, brti, now_ms, tanhs);
        let at_before = places(m).filter(names);
        let at = places(n).filter(names);
        assert(at == (if names(m as int) {
            at_before.push(m as int)
        } else {
            at_before
        }));
        assert forall|k: int|
            #![trigger found[k]]
            #![trigger at[k]]
            0 <= k < found.len() implies 0 <= at[k] && at[k] < n && is_market_of(
            found[k],
            entries[at[k]],
            brti,
            now_ms,
            tanhs[at[k]],
        ) by {
            if k < before.len() {
                assert(found[k] == before[k]);
                assert(at[k] == at_before[k]);
            } else {
                assert(k == before.len());
                assert(at[k] == m as int);
            }
        }
    }
}

} // verus!
