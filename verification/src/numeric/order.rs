//! What the arithmetic keeps of the order of numbers, and how far it is from the exact result.

use crate::numeric::binary64;
use crate::numeric::binary64::Binary64;
use crate::numeric::laws;
use crate::numeric::rounding;
use crate::numeric::rounding::{BINADE, INFINITE};
use vstd::arithmetic::div_mod::*;
use vstd::arithmetic::power2::*;
use vstd::prelude::*;

verus! {

/// The key of the number nearest to `n / d` units.
pub open spec fn nearest_key(n: int, d: int) -> int {
    if n < 0 {
        -rounding::round_ratio(-n, d)
    } else {
        rounding::round_ratio(n, d)
    }
}

/// Nearest numbers are in the order of the fractions.
pub proof fn lemma_nearest_order(n1: int, d1: int, n2: int, d2: int)
    requires
        0 < d1,
        0 < d2,
        n1 * d2 <= n2 * d1,
    ensures
        -INFINITE <= nearest_key(n1, d1) <= nearest_key(n2, d2) <= INFINITE,
{
    let d = d1 * d2;
    assert(0 < d && d == d2 * d1) by (nonlinear_arith)
        requires
            0 < d1,
            0 < d2,
            d == d1 * d2,
    ;
    if n1 >= 0 {
        assert(n2 >= 0 && 0 <= n1 * d2) by (nonlinear_arith)
            requires
                0 <= n1,
                n1 * d2 <= n2 * d1,
                0 < d1,
                0 < d2,
        ;
        rounding::lemma_round_scale(n1, d1, d2);
        rounding::lemma_round_scale(n2, d2, d1);
        laws::lemma_round_monotone(n1 * d2, n2 * d1, d);
    } else if n2 < 0 {
        let a = (-n2) * d1;
        let b = (-n1) * d2;
        assert(0 <= a <= b) by (nonlinear_arith)
            requires
                a == (-n2) * d1,
                b == (-n1) * d2,
                n1 * d2 <= n2 * d1,
                n2 < 0,
                0 < d1,
        ;
        rounding::lemma_round_scale(-n1, d1, d2);
        rounding::lemma_round_scale(-n2, d2, d1);
        laws::lemma_round_monotone(a, b, d);
    } else {
        laws::lemma_round_monotone(-n1, -n1, d1);
        laws::lemma_round_monotone(n2, n2, d2);
    }
}

/// A finite number is the one nearest to its own units.
pub proof fn lemma_own_key(x: Binary64)
    requires
        x.finite(),
    ensures
        nearest_key(x.units(), 1) == x.key(),
        x.negative() ==> x.units() <= 0,
        !x.negative() ==> x.units() >= 0,
        x.units() == 0 <==> x.magnitude() == 0,
{
    let m = x.magnitude();
    binary64::lemma_small_units(0);
    if m > 0 {
        binary64::lemma_units_increase(0, m);
    }
    laws::lemma_round_units(m);
}

/// The sum of two finite numbers is the number nearest to the exact sum.
pub proof fn lemma_sum_key(x: Binary64, y: Binary64)
    requires
        x.finite(),
        y.finite(),
    ensures
        !x.sum(y).nan(),
        x.sum(y).key() == nearest_key(x.units() + y.units(), 1),
{
    let s = x.units() + y.units();
    if s < 0 {
        laws::lemma_round_monotone(-s, -s, 1);
    } else {
        laws::lemma_round_monotone(s, s, 1);
        if s == 0 {
            binary64::lemma_small_units(0);
            laws::lemma_round_units(0);
        }
    }
}

/// The difference of two finite numbers is the number nearest to the exact difference.
pub proof fn lemma_difference_key(x: Binary64, y: Binary64)
    requires
        x.finite(),
        y.finite(),
    ensures
        !x.difference(y).nan(),
        x.difference(y).key() == nearest_key(x.units() - y.units(), 1),
{
    lemma_negated(y);
    lemma_sum_key(x, y.negated());
}

/// The other sign turns the key, and the units of a finite number, round.
pub proof fn lemma_negated(x: Binary64)
    ensures
        x.negated().key() == -x.key(),
        x.negated().magnitude() == x.magnitude(),
        x.negated().units() == -x.units(),
{
}

/// The product of two finite numbers is the number nearest to the exact product.
pub proof fn lemma_product_key(x: Binary64, y: Binary64)
    requires
        x.finite(),
        y.finite(),
    ensures
        !x.product(y).nan(),
        x.product(y).key() == nearest_key(x.units() * y.units(), binary64::one()),
{
    let a = binary64::magnitude_units(x.magnitude());
    let b = binary64::magnitude_units(y.magnitude());
    let o = binary64::one();
    lemma_pow2_pos(1074);
    lemma_own_key(x);
    lemma_own_key(y);
    assert(0 <= a * b) by (nonlinear_arith)
        requires
            0 <= a,
            0 <= b,
    ;
    assert((-a) * b == -(a * b) && a * (-b) == -(a * b) && (-a) * (-b) == a * b) by (nonlinear_arith);
    laws::lemma_round_monotone(a * b, a * b, o);
    if a * b == 0 {
        laws::lemma_round_units(0);
        binary64::lemma_small_units(0);
        rounding::lemma_round_scale(0, 1, o);
        assert(0 * o == 0 && 1 * o == o);
    }
}

/// The quotient of a finite number by a positive one is the number nearest to the exact quotient.
pub proof fn lemma_quotient_key(x: Binary64, y: Binary64)
    requires
        x.finite(),
        y.finite(),
        0 < y.units(),
    ensures
        !x.quotient(y).nan(),
        x.quotient(y).key() == nearest_key(x.units() * binary64::one(), y.units()),
{
    let a = binary64::magnitude_units(x.magnitude());
    let b = binary64::magnitude_units(y.magnitude());
    let o = binary64::one();
    lemma_pow2_pos(1074);
    lemma_own_key(x);
    lemma_own_key(y);
    assert(0 <= a * o && (-a) * o == -(a * o)) by (nonlinear_arith)
        requires
            0 <= a,
            0 < o,
    ;
    laws::lemma_round_monotone(a * o, a * o, b);
    if a == 0 {
        laws::lemma_round_units(0);
        binary64::lemma_small_units(0);
        rounding::lemma_round_scale(0, 1, b);
        assert(0 * b == 0 && 1 * b == b && 0 * o == 0);
    }
    if a > 0 {
        assert(a * o > 0) by (nonlinear_arith)
            requires
                a > 0,
                o > 0,
        ;
    }
}

/// A sum grows with what is added, as long as neither sum is a NaN.
pub proof fn lemma_sum_monotone(a: Binary64, x: Binary64, b: Binary64, y: Binary64)
    requires
        a.at_most(b),
        x.at_most(y),
        !a.sum(x).nan(),
        !b.sum(y).nan(),
    ensures
        a.sum(x).at_most(b.sum(y)),
{
    if a.finite() && x.finite() {
        lemma_sum_key(a, x);
        lemma_nearest_order(a.units() + x.units(), 1, a.units() + x.units(), 1);
    }
    if b.finite() && y.finite() {
        lemma_sum_key(b, y);
        lemma_nearest_order(b.units() + y.units(), 1, b.units() + y.units(), 1);
    }
    if a.finite() && x.finite() && b.finite() && y.finite() {
        binary64::lemma_order(a, b);
        binary64::lemma_order(x, y);
        lemma_nearest_order(a.units() + x.units(), 1, b.units() + y.units(), 1);
    }
}

/// A difference grows with what is taken from, and falls with what is taken, as long as neither is
/// a NaN.
pub proof fn lemma_difference_monotone(a: Binary64, x: Binary64, b: Binary64, y: Binary64)
    requires
        a.at_most(b),
        y.at_most(x),
        !a.difference(x).nan(),
        !b.difference(y).nan(),
    ensures
        a.difference(x).at_most(b.difference(y)),
{
    lemma_negated(x);
    lemma_negated(y);
    lemma_sum_monotone(a, x.negated(), b, y.negated());
}

/// The factors of a product may change places.
pub proof fn lemma_product_commutes(x: Binary64, y: Binary64)
    ensures
        x.product(y) == y.product(x),
{
    let a = binary64::magnitude_units(x.magnitude());
    let b = binary64::magnitude_units(y.magnitude());
    assert(a * b == b * a) by (nonlinear_arith);
}

/// The other sign of a factor turns a product of finite numbers round.
pub proof fn lemma_product_negated(x: Binary64, y: Binary64)
    requires
        x.finite(),
        y.finite(),
    ensures
        x.negated().product(y) == x.product(y).negated(),
        x.product(y).magnitude() == x.absolute().product(y.absolute()).magnitude(),
{
    let a = binary64::magnitude_units(x.magnitude());
    let b = binary64::magnitude_units(y.magnitude());
    lemma_pow2_pos(1074);
    lemma_own_key(x);
    lemma_own_key(y);
    assert(0 <= a * b) by (nonlinear_arith)
        requires
            0 <= a,
            0 <= b,
    ;
    laws::lemma_round_monotone(a * b, a * b, binary64::one());
}

/// A product with a finite factor that is not negative grows with the other factor, as long as
/// neither product is a NaN.
pub proof fn lemma_product_monotone(a: Binary64, b: Binary64, c: Binary64)
    requires
        a.at_most(b),
        c.finite(),
        0 <= c.units(),
        !a.product(c).nan(),
        !b.product(c).nan(),
    ensures
        a.product(c).at_most(b.product(c)),
{
    let o = binary64::one();
    lemma_pow2_pos(1074);
    lemma_own_key(c);
    if a.finite() {
        lemma_product_key(a, c);
        lemma_nearest_order(a.units() * c.units(), o, a.units() * c.units(), o);
    }
    if b.finite() {
        lemma_product_key(b, c);
        lemma_nearest_order(b.units() * c.units(), o, b.units() * c.units(), o);
    }
    if a.finite() && b.finite() {
        binary64::lemma_order(a, b);
        let p = a.units() * c.units();
        let q = b.units() * c.units();
        assert(p * o <= q * o) by (nonlinear_arith)
            requires
                p == a.units() * c.units(),
                q == b.units() * c.units(),
                a.units() <= b.units(),
                0 <= c.units(),
                0 < o,
        ;
        lemma_nearest_order(p, o, q, o);
    }
}

/// A quotient by a finite positive number grows with what is divided.
pub proof fn lemma_quotient_monotone(a: Binary64, b: Binary64, c: Binary64)
    requires
        a.at_most(b),
        c.finite(),
        !c.negative(),
        c.magnitude() > 0,
    ensures
        a.quotient(c).at_most(b.quotient(c)),
{
    let o = binary64::one();
    lemma_pow2_pos(1074);
    lemma_own_key(c);
    let d = c.units();
    if a.finite() {
        lemma_quotient_key(a, c);
        lemma_nearest_order(a.units() * o, d, a.units() * o, d);
    }
    if b.finite() {
        lemma_quotient_key(b, c);
        lemma_nearest_order(b.units() * o, d, b.units() * o, d);
    }
    if a.finite() && b.finite() {
        binary64::lemma_order(a, b);
        let p = a.units() * o;
        let q = b.units() * o;
        assert(p * d <= q * d) by (nonlinear_arith)
            requires
                p == a.units() * o,
                q == b.units() * o,
                a.units() <= b.units(),
                0 < d,
                0 < o,
        ;
        lemma_nearest_order(p, d, q, d);
    }
}

/// A finite positive number over a greater divisor is no more.
pub proof fn lemma_quotient_antitone(a: Binary64, c: Binary64, d: Binary64)
    requires
        a.finite(),
        !a.negative(),
        a.magnitude() > 0,
        c.at_most(d),
        !c.negative(),
        c.magnitude() > 0,
    ensures
        a.quotient(d).at_most(a.quotient(c)),
        !a.quotient(d).negative(),
        !a.quotient(c).negative(),
{
    let o = binary64::one();
    lemma_pow2_pos(1074);
    lemma_own_key(a);
    assert(!d.negative());
    if c.finite() {
        lemma_own_key(c);
        lemma_quotient_key(a, c);
        lemma_nearest_order(a.units() * o, c.units(), a.units() * o, c.units());
    }
    assert(0 <= a.units() * o) by (nonlinear_arith)
        requires
            0 <= a.units(),
            0 < o,
    ;
    if c.finite() {
        assert(0 * c.units() <= a.units() * o * 1) by (nonlinear_arith)
            requires
                0 <= a.units() * o,
        ;
        lemma_nearest_order(0, 1, a.units() * o, c.units());
        laws::lemma_round_units(0);
        binary64::lemma_small_units(0);
        laws::lemma_round_monotone(a.units() * o, a.units() * o, c.units());
    }
    if d.finite() {
        lemma_own_key(d);
        lemma_quotient_key(a, d);
        binary64::lemma_order(c, d);
        let p = a.units() * o;
        assert(p * c.units() <= p * d.units()) by (nonlinear_arith)
            requires
                0 <= p,
                c.units() <= d.units(),
        ;
        lemma_nearest_order(p, d.units(), p, c.units());
        laws::lemma_round_monotone(p, p, d.units());
    }
}

/// Holding numbers between the same limits keeps their order.
pub proof fn lemma_held_monotone(a: Binary64, b: Binary64, low: Binary64, high: Binary64)
    requires
        a.at_most(b),
        low.at_most(high),
    ensures
        a.held_between(low, high).at_most(b.held_between(low, high)),
        low.at_most(a.held_between(low, high)),
        a.held_between(low, high).at_most(high),
{
}

/// What a pattern with a full significand stands for.
proof fn lemma_pattern_units(e: nat, s: int)
    requires
        0 <= s <= 2 * BINADE,
        e > 0 ==> BINADE <= s,
    ensures
        binary64::magnitude_units(e * BINADE + s) == s * pow2(e),
{
    rounding::lemma_pow2_consts();
    let pattern = e * BINADE + s;
    if e == 0 {
        binary64::lemma_small_units(s);
        assert(s * 1 == s);
    } else if s < 2 * BINADE {
        lemma_fundamental_div_mod_converse(pattern, BINADE as int, e as int + 1, s - BINADE);
    } else {
        lemma_fundamental_div_mod_converse(pattern, BINADE as int, e as int + 2, 0);
        lemma_pow2_unfold((e + 1) as nat);
        assert(BINADE * pow2((e + 1) as nat) == s * pow2(e)) by (nonlinear_arith)
            requires
                pow2((e + 1) as nat) == 2 * pow2(e),
                s == 2 * BINADE,
        ;
    }
}

/// A number is within half a step of what it is nearest to: below two to the power of `53 + k`
/// units a step is at most two to the power of `k`. The number is finite, or `k` small enough for
/// that.
pub proof fn lemma_nearest_error(x: Binary64, n: int, d: int, k: nat)
    requires
        0 < d,
        k <= 2043 || x.finite(),
        -(d * pow2(53 + k)) < n < d * pow2(53 + k),
        x.key() == nearest_key(n, d),
    ensures
        x.finite(),
        -(d * pow2(k)) <= 2 * (d * x.units() - n) <= d * pow2(k),
{
    let m = if n < 0 {
        -n
    } else {
        n
    };
    let top = pow2(53 + k) as int;
    let q = m / d;
    lemma_fundamental_div_mod(m, d);
    lemma_mod_bound(m, d);
    lemma_div_pos_is_pos(m, d);
    assert(q < top) by (nonlinear_arith)
        requires
            m == d * q + m % d,
            0 <= m % d,
            m < d * top,
            0 < d,
    ;
    let e = rounding::excess(q);
    rounding::lemma_excess_bounds(q);
    if e > k {
        rounding::lemma_pow2_monotone(53 + k, (52 + e) as nat);
    }
    let p = pow2(e) as int;
    lemma_pow2_pos(e);
    rounding::lemma_pow2_monotone(e, k);
    let g = d * p;
    assert(0 < g && g <= d * pow2(k)) by (nonlinear_arith)
        requires
            g == d * p,
            0 < d,
            0 < p <= pow2(k),
    ;
    let s = rounding::nearest_even(m, g);
    laws::lemma_nearest_below(m, d, e);
    if e > 0 {
        rounding::lemma_nearest_full(m, d, e);
    }
    lemma_div_pos_is_pos(m, g);
    lemma_fundamental_div_mod(m, g);
    lemma_mod_bound(m, g);
    assert(-g <= 2 * (g * s - m) <= g) by (nonlinear_arith)
        requires
            m == g * (m / g) + m % g,
            0 <= m % g < g,
            (s == m / g && 2 * (m % g) <= g) || (s == m / g + 1 && 2 * (m % g) >= g),
    ;
    let pattern = e * BINADE + s;
    assert(0 <= pattern < INFINITE);
    lemma_pattern_units(e, s);
    assert(g * s == d * (s * p)) by (nonlinear_arith)
        requires
            g == d * p,
    ;
    let u = binary64::magnitude_units(x.magnitude());
    if pattern == 0 {
        binary64::lemma_small_units(0);
    }
    assert(x.magnitude() == pattern);
    assert(d * (-u) == -(d * u)) by (nonlinear_arith);
}

/// The number nearest to a ratio, where the ratio, scaled by two to the power of `j`, has the length
/// of a significand.
pub proof fn lemma_ratio_units(n: int, d: int, j: nat)
    requires
        0 < d,
        j <= 1074,
        BINADE * d <= n * pow2(j) < 2 * BINADE * d,
    ensures
        Binary64::ratio(n, d).finite(),
        !Binary64::ratio(n, d).negative(),
        Binary64::ratio(n, d).units() == rounding::nearest_even(n * pow2(j), d) * pow2(
            (1074 - j) as nat,
        ),
{
    let e = (1074 - j) as nat;
    let p = pow2(e) as int;
    let big = n * pow2(j);
    let o = binary64::one();
    rounding::lemma_pow2_consts();
    lemma_pow2_pos(e);
    lemma_pow2_adds(j, e);
    lemma_pow2_adds(52, e);
    lemma_pow2_adds(53, e);
    assert(n * o == big * p) by (nonlinear_arith)
        requires
            o == pow2(j) * p,
            big == n * pow2(j),
    ;
    let m = big * p;
    let q = m / d;
    assert(0 <= big) by (nonlinear_arith)
        requires
            BINADE * d <= big,
            0 < d,
    ;
    assert(0 <= m && (BINADE * p) * d <= m && m < (2 * BINADE * p) * d) by (nonlinear_arith)
        requires
            m == big * p,
            BINADE * d <= big < 2 * BINADE * d,
            0 <= big,
            0 < p,
    ;
    lemma_fundamental_div_mod(m, d);
    lemma_mod_bound(m, d);
    assert(BINADE * p <= q < 2 * BINADE * p) by (nonlinear_arith)
        requires
            m == d * q + m % d,
            0 <= m % d < d,
            (BINADE * p) * d <= m,
            m < (2 * BINADE * p) * d,
            0 < d,
    ;
    assert((2 * BINADE) * p == 2 * BINADE * p);
    rounding::lemma_excess(q, e);
    rounding::lemma_nearest_scale(big, d, p);
    let s = rounding::nearest_even(big, d);
    lemma_fundamental_div_mod(big, d);
    lemma_mod_bound(big, d);
    assert(BINADE <= big / d < 2 * BINADE) by (nonlinear_arith)
        requires
            big == d * (big / d) + big % d,
            0 <= big % d < d,
            BINADE * d <= big < 2 * BINADE * d,
            0 < d,
    ;
    lemma_pattern_units(e, s);
}

/// The literals 0.8, 1.2, 0.5 and 0.4: the first and the last are a little more than their digits,
/// the second a little less, and the third is exact.
pub proof fn lemma_literals()
    ensures
        Binary64::ratio(8, 10).finite() && !Binary64::ratio(8, 10).negative(),
        8 * binary64::one() <= 10 * Binary64::ratio(8, 10).units() < 9 * binary64::one(),
        Binary64::ratio(12, 10).finite() && !Binary64::ratio(12, 10).negative(),
        11 * binary64::one() < 10 * Binary64::ratio(12, 10).units() <= 12 * binary64::one(),
        Binary64::ratio(5, 10).finite() && !Binary64::ratio(5, 10).negative(),
        2 * Binary64::ratio(5, 10).units() == binary64::one(),
        Binary64::ratio(4, 10).finite() && !Binary64::ratio(4, 10).negative(),
        4 * binary64::one() <= 10 * Binary64::ratio(4, 10).units() < 5 * binary64::one(),
{
    rounding::lemma_pow2_consts();
    let o = binary64::one();
    let a = pow2(1021) as int;
    let b = pow2(1022) as int;
    let c = pow2(1020) as int;
    lemma_pow2_pos(1020);
    lemma_pow2_pos(1021);
    lemma_pow2_pos(1022);
    lemma_pow2_adds(53, 1021);
    lemma_pow2_adds(52, 1022);
    lemma_pow2_adds(54, 1020);
    assert(o == 0x20_0000_0000_0000 * a && o == 0x10_0000_0000_0000 * b && o
        == 0x40_0000_0000_0000 * c);
    lemma_ratio_units(8, 10, 53);
    assert(rounding::nearest_even(8int * pow2(53), 10) == 7205759403792794);
    assert(Binary64::ratio(8, 10).units() == 7205759403792794 * a);
    lemma_ratio_units(12, 10, 52);
    assert(rounding::nearest_even(12int * pow2(52), 10) == 5404319552844595);
    assert(Binary64::ratio(12, 10).units() == 5404319552844595 * b);
    lemma_ratio_units(5, 10, 53);
    assert(rounding::nearest_even(5int * pow2(53), 10) == 4503599627370496);
    assert(Binary64::ratio(5, 10).units() == 4503599627370496 * a);
    lemma_ratio_units(4, 10, 54);
    assert(rounding::nearest_even(4int * pow2(54), 10) == 7205759403792794);
    assert(Binary64::ratio(4, 10).units() == 7205759403792794 * c);
}

/// Zero has the key zero, and so have its products and quotients.
pub proof fn lemma_zero(c: Binary64)
    ensures
        Binary64::whole(0).finite(),
        Binary64::whole(0).units() == 0,
        Binary64::whole(0).key() == 0,
        !Binary64::whole(0).negative(),
        c.finite() ==> Binary64::whole(0).product(c).key() == 0,
        c.finite() && c.units() > 0 ==> Binary64::whole(0).quotient(c).key() == 0,
{
    let zero = Binary64::whole(0);
    let o = binary64::one();
    lemma_pow2_pos(1074);
    laws::lemma_whole_exact(0);
    lemma_own_key(zero);
    laws::lemma_round_units(0);
    binary64::lemma_small_units(0);
    assert(0 * o == 0);
    if c.finite() {
        lemma_product_key(zero, c);
        assert(0 * c.units() == 0);
        rounding::lemma_round_scale(0, 1, o);
        assert(1 * o == o);
        if c.units() > 0 {
            lemma_quotient_key(zero, c);
            rounding::lemma_round_scale(0, 1, c.units());
            assert(0 * c.units() == 0 && 1 * c.units() == c.units());
        }
    }
}

/// A finite number times one is itself, and so is one over one.
pub proof fn lemma_times_one(x: Binary64)
    requires
        x.finite(),
    ensures
        Binary64::whole(1).finite(),
        Binary64::whole(1).units() == binary64::one(),
        !Binary64::whole(1).negative(),
        x.product(Binary64::whole(1)).key() == x.key(),
{
    let o = binary64::one();
    lemma_pow2_pos(1074);
    laws::lemma_whole_exact(1);
    assert(1 * o == o);
    lemma_own_key(x);
    lemma_product_key(x, Binary64::whole(1));
    let u = x.units();
    assert((u * o) * 1 == u * o);
    lemma_nearest_order(u * o, o, u, 1);
    lemma_nearest_order(u, 1, u * o, o);
}

} // verus!
