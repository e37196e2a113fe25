//! How far the arithmetic is from the exact one, and where it is exact.

use crate::numeric::binary64;
use crate::numeric::binary64::Binary64;
use crate::numeric::laws;
use crate::numeric::order;
use crate::numeric::rounding;
use crate::numeric::rounding::BINADE;
use vstd::arithmetic::div_mod::*;
use vstd::arithmetic::power2::*;
use vstd::prelude::*;

verus! {

/// The unit in the last place of a finite number: the step to the next number in size.
pub open spec fn last_place(x: Binary64) -> int {
    pow2(binary64::exponent(x.magnitude())) as int
}

/// Whether a number is a given whole number, of less than 53 bits.
pub open spec fn is_whole(x: Binary64, n: int) -> bool {
    &&& x.finite()
    &&& x.units() == n * binary64::one()
    &&& -(2 * BINADE) < n < 2 * BINADE
}

/// A number that is nearest to what another one is exactly equals it.
pub proof fn lemma_exact(x: Binary64, y: Binary64, n: int, d: int)
    requires
        0 < d,
        y.finite(),
        n == d * y.units(),
        x.key() == order::nearest_key(n, d),
    ensures
        x.finite(),
        x.units() == y.units(),
        x.key() == y.key(),
{
    order::lemma_own_key(y);
    assert(n * 1 == y.units() * d) by (nonlinear_arith)
        requires
            n == d * y.units(),
    ;
    order::lemma_nearest_order(n, d, y.units(), 1);
    order::lemma_nearest_order(y.units(), 1, n, d);
    binary64::lemma_small_units(0);
}

/// A whole number with a sign is exact.
pub proof fn lemma_signed_exact(n: int)
    requires
        -(2 * BINADE) < n < 2 * BINADE,
    ensures
        is_whole(Binary64::signed(n), n),
{
    let o = binary64::one();
    if n < 0 {
        laws::lemma_whole_exact(-n);
        order::lemma_negated(Binary64::whole(-n));
        assert((-n) * o == -(n * o)) by (nonlinear_arith);
    } else {
        laws::lemma_whole_exact(n);
    }
}

/// Whole numbers are compared as they are.
pub proof fn lemma_whole_order(x: Binary64, y: Binary64, a: int, b: int)
    requires
        is_whole(x, a),
        is_whole(y, b),
    ensures
        x.less(y) <==> a < b,
        x.at_most(y) <==> a <= b,
        x.same(y) <==> a == b,
{
    let o = binary64::one();
    lemma_pow2_pos(1074);
    binary64::lemma_order(x, y);
    assert(a < b ==> a * o < b * o) by (nonlinear_arith)
        requires
            0 < o,
    ;
    assert(b < a ==> b * o < a * o) by (nonlinear_arith)
        requires
            0 < o,
    ;
}

/// A sum of whole numbers is exact.
pub proof fn lemma_whole_sum(x: Binary64, y: Binary64, a: int, b: int)
    requires
        is_whole(x, a),
        is_whole(y, b),
        -(2 * BINADE) < a + b < 2 * BINADE,
    ensures
        is_whole(x.sum(y), a + b),
{
    let o = binary64::one();
    lemma_signed_exact(a + b);
    order::lemma_sum_key(x, y);
    assert(a * o + b * o == 1 * ((a + b) * o)) by (nonlinear_arith);
    lemma_exact(x.sum(y), Binary64::signed(a + b), x.units() + y.units(), 1);
}

/// A difference of whole numbers is exact.
pub proof fn lemma_whole_difference(x: Binary64, y: Binary64, a: int, b: int)
    requires
        is_whole(x, a),
        is_whole(y, b),
        -(2 * BINADE) < a - b < 2 * BINADE,
    ensures
        is_whole(x.difference(y), a - b),
{
    let o = binary64::one();
    lemma_signed_exact(a - b);
    order::lemma_difference_key(x, y);
    assert(a * o - b * o == 1 * ((a - b) * o)) by (nonlinear_arith);
    lemma_exact(x.difference(y), Binary64::signed(a - b), x.units() - y.units(), 1);
}

/// A product of whole numbers is exact.
pub proof fn lemma_whole_product(x: Binary64, y: Binary64, a: int, b: int)
    requires
        is_whole(x, a),
        is_whole(y, b),
        -(2 * BINADE) < a * b < 2 * BINADE,
    ensures
        is_whole(x.product(y), a * b),
{
    let o = binary64::one();
    lemma_pow2_pos(1074);
    lemma_signed_exact(a * b);
    order::lemma_product_key(x, y);
    assert((a * o) * (b * o) == o * ((a * b) * o)) by (nonlinear_arith);
    lemma_exact(x.product(y), Binary64::signed(a * b), x.units() * y.units(), o);
}

/// The nearest integer of a whole number is that number.
pub proof fn lemma_whole_rounded(x: Binary64, n: int)
    requires
        is_whole(x, n),
    ensures
        x.rounded_integer() == n,
{
    let o = binary64::one();
    lemma_pow2_pos(1074);
    order::lemma_own_key(x);
    let m = if x.negative() {
        -n
    } else {
        n
    };
    assert(binary64::magnitude_units(x.magnitude()) == m * o) by (nonlinear_arith)
        requires
            x.units() == n * o,
            x.negative() ==> m == -n && x.units() == -binary64::magnitude_units(x.magnitude()),
            !x.negative() ==> m == n && x.units() == binary64::magnitude_units(x.magnitude()),
    ;
    assert(2 * (m * o) + o == (2 * o) * m + o) by (nonlinear_arith);
    lemma_fundamental_div_mod_converse(2 * (m * o) + o, 2 * o, m, o);
}

/// The whole part of a whole number that is not negative is that number.
pub proof fn lemma_whole_truncated(x: Binary64, n: int)
    requires
        is_whole(x, n),
        0 <= n,
    ensures
        x.truncated() == n,
{
    let o = binary64::one();
    lemma_pow2_pos(1074);
    order::lemma_own_key(x);
    if x.negative() {
        assert(n == 0) by (nonlinear_arith)
            requires
                n * o <= 0,
                0 <= n,
                0 < o,
        ;
    } else {
        assert(n * o == o * n + 0) by (nonlinear_arith);
        lemma_fundamental_div_mod_converse(n * o, o, n, 0);
    }
}

/// The digits of a whole number: its size lies between two powers of two that its unit in the last
/// place gives.
pub proof fn lemma_whole_digits(v: int)
    requires
        1 <= v < 2 * BINADE,
    ensures
        ({
            let e = binary64::exponent(Binary64::whole(v).magnitude());
            &&& v * binary64::one() + pow2(e) <= pow2(53 + e)
            &&& pow2(52 + e) <= v * binary64::one()
            &&& v * pow2(1021) < pow2(e)
            &&& e <= 1075
        }),
{
    let y = Binary64::whole(v);
    let o = binary64::one();
    let m = y.magnitude();
    let e = binary64::exponent(m);
    let s = binary64::significand(m);
    let g = pow2(e) as int;
    laws::lemma_whole_exact(v);
    lemma_pow2_pos(1074);
    lemma_pow2_pos(1021);
    lemma_pow2_pos(e);
    lemma2_to64();
    lemma2_to64_rest();
    lemma_pow2_adds(53, e);
    lemma_pow2_adds(52, e);
    lemma_pow2_adds(53, 1021);
    lemma_mod_bound(m, BINADE as int);
    assert(o <= v * o) by (nonlinear_arith)
        requires
            1 <= v,
            0 < o,
    ;
    if m < BINADE {
        binary64::lemma_small_units(m);
        lemma_pow2_adds(64, 1010);
        lemma_pow2_pos(1010);
        assert(o >= 0x1_0000_0000_0000_0000) by (nonlinear_arith)
            requires
                o == 0x1_0000_0000_0000_0000 * pow2(1010),
                1 <= pow2(1010),
        ;
    }
    assert(s * g + g <= (2 * BINADE) * g) by (nonlinear_arith)
        requires
            s + 1 <= 2 * BINADE,
            0 < g,
    ;
    assert(BINADE * g <= s * g) by (nonlinear_arith)
        requires
            BINADE <= s,
            0 < g,
    ;
    let q = pow2(1021) as int;
    assert(v * q < g) by (nonlinear_arith)
        requires
            v * (0x20_0000_0000_0000 * q) < 0x20_0000_0000_0000 * g,
    ;
    if e > 1075 {
        rounding::lemma_pow2_monotone(1076, e);
        lemma_pow2_adds(53, 1021);
        lemma_pow2_adds(54, 1074);
        assert(v * o < (2 * BINADE) * o) by (nonlinear_arith)
            requires
                v < 2 * BINADE,
                0 < o,
        ;
        lemma_pow2_adds(2, 1074);
        assert(false) by (nonlinear_arith)
            requires
                BINADE * g <= v * o,
                v * o < (2 * BINADE) * o,
                g >= 4 * o,
                0 < o,
        ;
    }
}

/// Numbers that are at least as large as another one are whole steps of that one apart from it.
proof fn lemma_steps(x: Binary64, y: Binary64)
    requires
        x.finite(),
        y.finite(),
        !x.negative(),
        !y.negative(),
        y.magnitude() <= x.magnitude(),
        x.units() < y.units() + last_place(y),
    ensures
        x.units() == y.units(),
{
    let e = binary64::exponent(y.magnitude());
    let f = binary64::exponent(x.magnitude());
    if y.magnitude() < x.magnitude() {
        binary64::lemma_units_increase(y.magnitude(), x.magnitude());
        let g = pow2(e) as int;
        let s = binary64::significand(y.magnitude());
        let t = binary64::significand(x.magnitude());
        let h = pow2((f - e) as nat) as int;
        lemma_pow2_adds(e, (f - e) as nat);
        lemma_pow2_pos(e);
        assert(t * pow2(f) == (t * h) * g) by (nonlinear_arith)
            requires
                pow2(f) == g * h,
        ;
        assert(false) by (nonlinear_arith)
            requires
                s * g < (t * h) * g,
                (t * h) * g < s * g + g,
                0 < g,
        ;
    }
}

/// A number nearest to a fraction that is less than half a step above a whole number is that whole
/// number.
pub proof fn lemma_just_above(x: Binary64, n: int, d: int, v: int)
    requires
        1 <= v < 2 * BINADE,
        0 < d,
        x.key() == order::nearest_key(n, d),
        d * (v * binary64::one()) <= n,
        2 * (n - d * (v * binary64::one())) <= d * (v * pow2(1021)),
    ensures
        is_whole(x, v),
{
    let y = Binary64::whole(v);
    let o = binary64::one();
    let e = binary64::exponent(y.magnitude());
    let g = pow2(e) as int;
    let w = v * o;
    laws::lemma_whole_exact(v);
    lemma_pow2_pos(1074);
    lemma_whole_digits(v);
    lemma_pow2_pos(e);
    order::lemma_own_key(y);
    assert(w * d <= n * 1) by (nonlinear_arith)
        requires
            d * w <= n,
    ;
    order::lemma_nearest_order(w, 1, n, d);
    let c = v * pow2(1021);
    let top = pow2(53 + e) as int;
    assert(n < d * top && 2 * (n - d * w) < d * g && -(d * top) < n) by (nonlinear_arith)
        requires
            2 * (n - d * w) <= d * c,
            c < g,
            w + g <= top,
            0 < d,
            0 < g,
            d * w <= n,
            0 <= w,
    {
        assert(d * c < d * g);
        assert(d * (w + g) <= d * top);
        assert(0 <= d * w);
        assert(0 < d * top);
    }
    order::lemma_nearest_error(x, n, d, e);
    let u = x.units();
    assert(u < w + g) by (nonlinear_arith)
        requires
            2 * (d * u - n) <= d * g,
            2 * (n - d * w) < d * g,
            0 < d,
    ;
    assert(0 < w) by (nonlinear_arith)
        requires
            w == v * o,
            1 <= v,
            0 < o,
    ;
    order::lemma_own_key(x);
    lemma_steps(x, y);
}

/// A number nearest to a fraction that is less than half a step below a whole number, and has as
/// many digits, is that whole number.
pub proof fn lemma_just_below(x: Binary64, n: int, d: int, v: int)
    requires
        1 <= v < 2 * BINADE,
        0 < d,
        x.key() == order::nearest_key(n, d),
        n <= d * (v * binary64::one()),
        2 * (d * (v * binary64::one()) - n) <= d * (v * pow2(1021)),
        d * pow2(52 + binary64::exponent(Binary64::whole(v).magnitude())) <= n,
    ensures
        is_whole(x, v),
{
    let y = Binary64::whole(v);
    let o = binary64::one();
    let e = binary64::exponent(y.magnitude());
    let g = pow2(e) as int;
    let w = v * o;
    laws::lemma_whole_exact(v);
    lemma_whole_digits(v);
    lemma_pow2_pos(e);
    order::lemma_own_key(y);
    assert(n * 1 <= w * d) by (nonlinear_arith)
        requires
            n <= d * w,
    ;
    order::lemma_nearest_order(n, d, w, 1);
    let c = v * pow2(1021);
    let top = pow2(53 + e) as int;
    let low = pow2(52 + e) as int;
    lemma_pow2_pos(52 + e);
    assert(n < d * top && 2 * (d * w - n) < d * g && -(d * top) < n) by (nonlinear_arith)
        requires
            2 * (d * w - n) <= d * c,
            c < g,
            w + g <= top,
            0 < d,
            0 < g,
            n <= d * w,
            d * low <= n,
            0 < low,
            0 <= w,
    {
        assert(d * c < d * g);
        assert(d * (w + g) <= d * top);
        assert(0 < d * low);
        assert(0 < d * top);
        assert(0 < d * g);
        assert(d * (w + g) == d * w + d * g);
    }
    order::lemma_nearest_error(x, n, d, e);
    let u = x.units();
    assert(w < u + g) by (nonlinear_arith)
        requires
            2 * (d * u - n) >= -(d * g),
            2 * (d * w - n) < d * g,
            0 < d,
    ;
    // The least number of as many digits, which the fraction is not below.
    let z = Binary64::make(false, rounding::round_ratio(BINADE * pow2(e), 1));
    lemma_pow2_adds(52, e);
    lemma2_to64_rest();
    laws::lemma_round_exact(BINADE as int, e);
    order::lemma_own_key(z);
    assert(low * d <= n * 1) by (nonlinear_arith)
        requires
            d * low <= n,
    ;
    order::lemma_nearest_order(low, 1, n, d);
    order::lemma_own_key(x);
    if x.magnitude() < y.magnitude() {
        binary64::lemma_units_increase(x.magnitude(), y.magnitude());
        lemma_binade(e, x.magnitude(), z.magnitude());
        lemma_steps(y, x);
    }
}

/// A number that is at least the least one of an exponent has at least that exponent.
proof fn lemma_binade(e: nat, x: int, z: int)
    requires
        0 <= z <= x,
        binary64::magnitude_units(z) == BINADE * pow2(e),
    ensures
        binary64::exponent(z) >= e,
        binary64::exponent(x) >= e,
{
    let f = binary64::exponent(z);
    let s = binary64::significand(z);
    if f < e {
        lemma_pow2_adds(1, f);
        lemma2_to64();
        rounding::lemma_pow2_monotone((f + 1) as nat, e);
        lemma_pow2_pos(f);
        lemma_mod_bound(z, BINADE as int);
        assert(false) by (nonlinear_arith)
            requires
                s * pow2(f) == BINADE * pow2(e),
                s < 2 * BINADE,
                pow2(e) >= 2 * pow2(f),
                0 < pow2(f),
        ;
    }
    if z < x {
        binary64::lemma_units_increase(z, x);
    }
}

/// A whole number is the least of as many digits, or at least a step above that.
pub proof fn lemma_whole_binade(v: int)
    requires
        1 <= v < 2 * BINADE,
    ensures
        ({
            let e = binary64::exponent(Binary64::whole(v).magnitude());
            &&& 1022 <= e
            &&& v * binary64::one() == pow2(52 + e) || v * binary64::one() >= pow2(52 + e) + pow2(e)
        }),
{
    let y = Binary64::whole(v);
    let o = binary64::one();
    let m = y.magnitude();
    let e = binary64::exponent(m);
    let s = binary64::significand(m);
    let g = pow2(e) as int;
    laws::lemma_whole_exact(v);
    lemma_whole_digits(v);
    lemma_pow2_pos(e);
    lemma_pow2_pos(1074);
    lemma2_to64_rest();
    lemma_pow2_adds(52, e);
    lemma_mod_bound(m, BINADE as int);
    if s < BINADE {
        binary64::lemma_small_units(m);
        lemma_pow2_adds(52, 0);
        assert(s * g < BINADE * g) by (nonlinear_arith)
            requires
                s < BINADE,
                0 < g,
        ;
    }
    if s > BINADE {
        assert(BINADE * g + g <= s * g) by (nonlinear_arith)
            requires
                BINADE + 1 <= s,
                0 < g,
        ;
    }
    if e < 1022 {
        lemma_pow2_adds(53, e);
        rounding::lemma_pow2_monotone(53 + e, 1074);
        assert(o <= v * o) by (nonlinear_arith)
            requires
                1 <= v,
                0 < o,
        ;
    }
}

/// How near a sum is to the exact one.
pub proof fn lemma_near_sum(x: Binary64, y: Binary64, k: nat)
    requires
        x.finite(),
        y.finite(),
        -pow2(53 + k) < x.units() + y.units() < pow2(53 + k),
        k <= 2043,
    ensures
        x.sum(y).finite(),
        -pow2(k) <= 2 * (x.sum(y).units() - x.units() - y.units()) <= pow2(k),
{
    order::lemma_sum_key(x, y);
    assert(1 * pow2(53 + k) == pow2(53 + k) && 1 * pow2(k) == pow2(k));
    order::lemma_nearest_error(x.sum(y), x.units() + y.units(), 1, k);
    assert(1 * x.sum(y).units() == x.sum(y).units());
}

/// How near a difference is to the exact one.
pub proof fn lemma_near_difference(x: Binary64, y: Binary64, k: nat)
    requires
        x.finite(),
        y.finite(),
        -pow2(53 + k) < x.units() - y.units() < pow2(53 + k),
        k <= 2043,
    ensures
        x.difference(y).finite(),
        -pow2(k) <= 2 * (x.difference(y).units() - x.units() + y.units()) <= pow2(k),
{
    order::lemma_difference_key(x, y);
    assert(1 * pow2(53 + k) == pow2(53 + k) && 1 * pow2(k) == pow2(k));
    order::lemma_nearest_error(x.difference(y), x.units() - y.units(), 1, k);
    assert(1 * x.difference(y).units() == x.difference(y).units());
}

/// A difference is beyond a whole number up to 30 where the exact one is, up to two to the power of
/// minus 48, and only there.
pub proof fn lemma_moved(x: Binary64, y: Binary64, w: int)
    requires
        x.finite(),
        y.finite(),
        0 <= w <= 30,
    ensures
        ({
            let d = x.units() - y.units();
            let limit = w * binary64::one();
            let above = Binary64::whole(w).less(x.difference(y));
            let below = x.difference(y).less(Binary64::whole(w).negated());
            &&& limit + pow2(1026) < d ==> above
            &&& above ==> limit < d
            &&& d < -limit - pow2(1026) ==> below
            &&& below ==> d < -limit
        }),
{
    let o = binary64::one();
    let high = Binary64::whole(w);
    let low = high.negated();
    let more = Binary64::whole(w + 1);
    let less = more.negated();
    let z = x.difference(y);
    let d = x.units() - y.units();
    let limit = w * o;
    laws::lemma_whole_exact(w);
    laws::lemma_whole_exact(w + 1);
    order::lemma_negated(high);
    order::lemma_negated(more);
    order::lemma_own_key(high);
    order::lemma_own_key(low);
    order::lemma_own_key(more);
    order::lemma_own_key(less);
    order::lemma_difference_key(x, y);
    lemma_pow2_pos(1026);
    lemma_pow2_pos(1074);
    lemma2_to64();
    lemma_pow2_adds(5, 1074);
    lemma_pow2_adds(48, 1026);
    assert((w + 1) * o == limit + o && 0 <= limit <= 30 * o) by (nonlinear_arith)
        requires
            limit == w * o,
            0 <= w <= 30,
            0 < o,
    ;
    if -limit <= d {
        order::lemma_nearest_order(-limit, 1, d, 1);
    }
    if d <= limit {
        order::lemma_nearest_order(d, 1, limit, 1);
    }
    binary64::lemma_order(less, low);
    binary64::lemma_order(high, more);
    if d <= -(limit + o) {
        order::lemma_nearest_order(d, 1, -(limit + o), 1);
    } else if limit + o <= d {
        order::lemma_nearest_order(limit + o, 1, d, 1);
    } else {
        lemma_near_difference(x, y, 1026);
        binary64::lemma_order(z, low);
        binary64::lemma_order(high, z);
    }
}

/// A literal is the number nearest to its fraction.
pub proof fn lemma_ratio_key(n: int, d: int)
    requires
        0 <= n,
        0 < d,
    ensures
        Binary64::ratio(n, d).key() == order::nearest_key(n * binary64::one(), d),
        !Binary64::ratio(n, d).nan(),
        !Binary64::ratio(n, d).negative(),
{
    let o = binary64::one();
    lemma_pow2_pos(1074);
    assert(0 <= n * o) by (nonlinear_arith)
        requires
            0 <= n,
            0 < o,
    ;
    laws::lemma_round_monotone(n * o, n * o, d);
}

/// A product with a positive number is a number.
pub proof fn lemma_product_is_a_number(x: Binary64, y: Binary64)
    requires
        !x.nan(),
        y.finite(),
        y.units() > 0,
    ensures
        !x.product(y).nan(),
{
    order::lemma_own_key(y);
    if x.finite() {
        order::lemma_product_key(x, y);
    }
}

} // verus!
