//! What rounding keeps: the numbers that are exact, and the order.

use crate::numeric::binary64;
use crate::numeric::binary64::Binary64;
use crate::numeric::rounding;
use crate::numeric::rounding::{BINADE, INFINITE};
use vstd::arithmetic::div_mod::*;
use vstd::arithmetic::power2::*;
use vstd::prelude::*;

verus! {

/// A significand of at most 53 bits, scaled by a power of two in range, is its own nearest
/// magnitude.
pub proof fn lemma_round_exact(s: int, e: nat)
    requires
        0 <= s < 2 * BINADE,
        e <= 2045,
    ensures
        0 <= rounding::round_ratio(s * pow2(e), 1) < INFINITE,
        binary64::magnitude_units(rounding::round_ratio(s * pow2(e), 1)) == s * pow2(e),
    decreases e,
{
    rounding::lemma_pow2_consts();
    lemma_pow2_pos(e);
    if s == 0 {
        assert(0 * pow2(e) == 0);
        rounding::lemma_excess(0, 0);
        binary64::lemma_small_units(0);
    } else if s < BINADE && e > 0 {
        let e1 = (e - 1) as nat;
        lemma_pow2_unfold(e);
        assert(s * pow2(e) == (2 * s) * pow2(e1)) by (nonlinear_arith)
            requires
                pow2(e) == 2 * pow2(e1),
        ;
        lemma_round_exact(2 * s, e1);
    } else {
        let p = pow2(e) as int;
        let n = s * p;
        lemma_pow2_adds(52, e);
        lemma_pow2_adds(53, e);
        assert(n < (2 * BINADE) * p) by (nonlinear_arith)
            requires
                n == s * p,
                s < 2 * BINADE,
                0 < p,
        ;
        if e > 0 {
            assert(BINADE * p <= n) by (nonlinear_arith)
                requires
                    n == s * p,
                    BINADE <= s,
                    0 < p,
            ;
        }
        assert(0 <= n) by (nonlinear_arith)
            requires
                n == s * p,
                0 <= s,
                0 < p,
        ;
        lemma_div_basics_2(n);
        assert(n / 1 == n);
        rounding::lemma_excess(n, e);
        lemma_div_multiples_vanish(s, p);
        lemma_mod_multiples_basic(s, p);
        assert(p * s == n && s * p == n) by (nonlinear_arith)
            requires
                n == s * p,
        ;
        assert(1 * p == p);
        assert(rounding::nearest_even(n, 1 * p) == s);
        let pattern = e * BINADE + s;
        assert(rounding::round_ratio(n, 1) == pattern);
        if e == 0 {
            binary64::lemma_small_units(s);
        } else {
            lemma_fundamental_div_mod_converse(pattern, BINADE as int, e as int + 1, s - BINADE);
        }
    }
}

/// A finite magnitude is the one nearest to its own units.
pub proof fn lemma_round_units(x: int)
    requires
        0 <= x < INFINITE,
    ensures
        rounding::round_ratio(binary64::magnitude_units(x), 1) == x,
{
    let s = binary64::significand(x);
    let e = binary64::exponent(x);
    lemma_round_exact(s, e);
    let y = rounding::round_ratio(binary64::magnitude_units(x), 1);
    if x < y {
        binary64::lemma_units_increase(x, y);
    }
    if y < x {
        binary64::lemma_units_increase(y, x);
    }
}

/// A whole number of at most 53 bits is exact.
pub proof fn lemma_whole_exact(n: int)
    requires
        0 <= n < 2 * BINADE,
    ensures
        Binary64::whole(n).finite(),
        !Binary64::whole(n).negative(),
        Binary64::whole(n).units() == n * binary64::one(),
        binary64::magnitude_units(Binary64::whole(n).magnitude()) == n * binary64::one(),
{
    lemma_round_exact(n, 1074);
}

proof fn lemma_nearest_monotone(n1: int, n2: int, d: int)
    requires
        0 <= n1 <= n2,
        0 < d,
    ensures
        rounding::nearest_even(n1, d) <= rounding::nearest_even(n2, d),
{
    let q1 = n1 / d;
    let q2 = n2 / d;
    lemma_fundamental_div_mod(n1, d);
    lemma_fundamental_div_mod(n2, d);
    lemma_mod_bound(n1, d);
    lemma_mod_bound(n2, d);
    let r1 = n1 % d;
    let r2 = n2 % d;
    if q1 > q2 {
        assert(false) by (nonlinear_arith)
            requires
                n1 == d * q1 + r1,
                n2 == d * q2 + r2,
                n1 <= n2,
                0 <= r1,
                r2 < d,
                q1 >= q2 + 1,
                0 < d,
        ;
    }
    if q1 == q2 {
        assert(d * q1 == d * q2);
        assert(r1 <= r2);
    }
}

proof fn lemma_excess_monotone(q1: int, q2: int)
    requires
        0 <= q1 <= q2,
    ensures
        rounding::excess(q1) <= rounding::excess(q2),
    decreases q2,
{
    if q1 >= 2 * BINADE {
        lemma_excess_monotone(q1 / 2, q2 / 2);
    }
}

/// Below the next binade the nearest point on a grid is at most a full significand and one.
pub proof fn lemma_nearest_below(n: int, d: int, k: nat)
    requires
        0 <= n,
        0 < d,
        n / d < pow2(53 + k),
    ensures
        rounding::nearest_even(n, d * pow2(k)) <= 2 * BINADE,
{
    rounding::lemma_pow2_consts();
    lemma_pow2_adds(53, k);
    lemma_pow2_pos(k);
    let p = pow2(k) as int;
    let g = d * p;
    assert(0 < g) by (nonlinear_arith)
        requires
            0 < d,
            0 < p,
            g == d * p,
    ;
    lemma_fundamental_div_mod(n, d);
    lemma_mod_bound(n, d);
    let q = n / d;
    let top = (2 * BINADE) * p;
    assert(d * q + d <= d * top) by (nonlinear_arith)
        requires
            q + 1 <= top,
            0 < d,
    ;
    assert(d * top == g * (2 * BINADE)) by (nonlinear_arith)
        requires
            top == (2 * BINADE) * p,
            g == d * p,
    ;
    lemma_fundamental_div_mod(n, g);
    lemma_mod_bound(n, g);
    let j = n / g;
    assert(j < 2 * BINADE) by (nonlinear_arith)
        requires
            n == g * j + n % g,
            0 <= n % g,
            n < g * (2 * BINADE),
            0 < g,
    ;
}

/// Rounding keeps the order.
pub proof fn lemma_round_monotone(n1: int, n2: int, d: int)
    requires
        0 <= n1 <= n2,
        0 < d,
    ensures
        0 <= rounding::round_ratio(n1, d) <= rounding::round_ratio(n2, d) <= INFINITE,
{
    let q1 = n1 / d;
    let q2 = n2 / d;
    lemma_div_is_ordered(n1, n2, d);
    lemma_div_pos_is_pos(n1, d);
    lemma_excess_monotone(q1, q2);
    let k1 = rounding::excess(q1);
    let k2 = rounding::excess(q2);
    rounding::lemma_excess_bounds(q1);
    rounding::lemma_excess_bounds(q2);
    lemma_pow2_pos(k1);
    lemma_pow2_pos(k2);
    let g1 = d * pow2(k1);
    let g2 = d * pow2(k2);
    assert(0 < g1) by (nonlinear_arith)
        requires
            0 < d,
            0 < pow2(k1),
            g1 == d * pow2(k1),
    ;
    assert(0 < g2) by (nonlinear_arith)
        requires
            0 < d,
            0 < pow2(k2),
            g2 == d * pow2(k2),
    ;
    lemma_div_pos_is_pos(n1, g1);
    lemma_div_pos_is_pos(n2, g2);
    if k1 == k2 {
        lemma_nearest_monotone(n1, n2, g1);
    } else {
        lemma_nearest_below(n1, d, k1);
        rounding::lemma_nearest_full(n2, d, k2);
    }
}

/// A number that is at most a whole number of at most 53 bits has a whole part that is at most it.
pub proof fn lemma_truncated_at_most(x: Binary64, n: int)
    requires
        0 <= n < 2 * BINADE,
        x.at_most(Binary64::whole(n)),
    ensures
        x.truncated() <= n,
{
    lemma_whole_exact(n);
    let w = Binary64::whole(n);
    let o = binary64::one();
    lemma_pow2_pos(1074);
    if !x.negative() {
        let u = binary64::magnitude_units(x.magnitude());
        if x.magnitude() < w.magnitude() {
            binary64::lemma_units_increase(x.magnitude(), w.magnitude());
        }
        lemma_div_is_ordered(u, n * o, o);
        lemma_div_multiples_vanish(n, o);
        assert(o * n == n * o) by (nonlinear_arith);
    }
}

/// A number that is at least a whole number of at most 53 bits has a whole part that is at least
/// it.
pub proof fn lemma_truncated_at_least(x: Binary64, n: int)
    requires
        0 <= n < 2 * BINADE,
        Binary64::whole(n).at_most(x),
    ensures
        x.truncated() >= n,
{
    lemma_whole_exact(n);
    let w = Binary64::whole(n);
    let o = binary64::one();
    lemma_pow2_pos(1074);
    if n > 0 {
        assert(n * o > 0) by (nonlinear_arith)
            requires
                n > 0,
                o > 0,
        ;
        if w.magnitude() == 0 {
            binary64::lemma_small_units(0);
        }
        if !x.infinite() {
            let u = binary64::magnitude_units(x.magnitude());
            if w.magnitude() < x.magnitude() {
                binary64::lemma_units_increase(w.magnitude(), x.magnitude());
            }
            lemma_div_is_ordered(n * o, u, o);
            lemma_div_multiples_vanish(n, o);
            assert(o * n == n * o) by (nonlinear_arith);
        }
    }
}

/// Ratios with one denominator are in the order of their numerators, and are finite.
pub proof fn lemma_ratio_order(a: int, b: int, d: int)
    requires
        0 <= a <= b < 2 * BINADE,
        0 < d,
    ensures
        Binary64::ratio(a, d).finite(),
        Binary64::ratio(b, d).finite(),
        Binary64::ratio(a, d).at_most(Binary64::ratio(b, d)),
{
    let o = binary64::one();
    lemma_pow2_pos(1074);
    assert(0 <= a * o <= b * o <= (b * o) * d) by (nonlinear_arith)
        requires
            0 <= a <= b,
            0 < o,
            0 < d,
    ;
    lemma_round_monotone(a * o, b * o, d);
    lemma_round_monotone(b * o, (b * o) * d, d);
    rounding::lemma_round_scale(b * o, 1, d);
    assert(1 * d == d);
    lemma_whole_exact(b);
}

/// A whole part fits in 64 bits.
pub proof fn lemma_truncated_range(x: Binary64)
    ensures
        0 <= x.truncated() <= u64::MAX,
{
    lemma_pow2_pos(1074);
    binary64::lemma_small_units(0);
    if x.magnitude() > 0 {
        binary64::lemma_units_increase(0, x.magnitude());
    }
    lemma_div_pos_is_pos(binary64::magnitude_units(x.magnitude()), binary64::one());
}

} // verus!
