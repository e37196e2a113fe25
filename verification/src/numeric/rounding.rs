//! Rounding of an exact ratio to the binary64 grid.
//!
//! Magnitudes are counted in units of two to the power of minus 1074, the smallest positive
//! binary64 value, so every finite magnitude is a whole number of units.

use vstd::arithmetic::div_mod::*;
use vstd::arithmetic::mul::*;
use vstd::arithmetic::power2::*;
use vstd::prelude::*;

verus! {

/// Two to the power of 52: the number of magnitudes in one binade.
pub const BINADE: u64 = 0x10_0000_0000_0000;

/// The pattern of infinity, without its sign bit.
pub const INFINITE: u64 = 0x7FF0_0000_0000_0000;

/// The whole number nearest to `n / d`; of two that are equally near, the even one.
pub open spec fn nearest_even(n: int, d: int) -> int {
    let q = n / d;
    let r = n % d;
    if 2 * r < d || (2 * r == d && q % 2 == 0) {
        q
    } else {
        q + 1
    }
}

/// By how many bits `q` is longer than a 53-bit significand.
pub open spec fn excess(q: int) -> nat
    decreases q,
{
    if q < 2 * BINADE {
        0
    } else {
        1 + excess(q / 2)
    }
}

/// The pattern of the binary64 magnitude nearest to `n / d` units, ties to even; infinity where
/// that is out of range.
pub open spec fn round_ratio(n: int, d: int) -> int {
    let k = excess(n / d);
    let pattern = k * BINADE + nearest_even(n, d * pow2(k));
    if pattern < INFINITE {
        pattern
    } else {
        INFINITE as int
    }
}

/// The powers of two that the format is made of.
pub proof fn lemma_pow2_consts()
    ensures
        pow2(0) == 1,
        pow2(1) == 2,
        pow2(52) == BINADE,
        pow2(53) == 2 * BINADE,
        pow2(54) == 4 * BINADE,
        pow2(64) == 0x1_0000_0000_0000_0000,
{
    lemma2_to64();
    lemma2_to64_rest();
}

/// Scaling numerator and denominator alike keeps quotient and scales the remainder.
pub proof fn lemma_div_mod_scale(n: int, d: int, c: int)
    requires
        0 <= n,
        0 < d,
        0 < c,
    ensures
        0 < d * c,
        (n * c) / (d * c) == n / d,
        (n * c) % (d * c) == (n % d) * c,
{
    let q = n / d;
    let r = n % d;
    lemma_fundamental_div_mod(n, d);
    lemma_mod_bound(n, d);
    assert(0 < d * c) by (nonlinear_arith)
        requires
            0 < d,
            0 < c,
    ;
    assert(n * c == q * (d * c) + r * c) by (nonlinear_arith)
        requires
            n == d * q + r,
    ;
    assert(0 <= r * c < d * c) by (nonlinear_arith)
        requires
            0 <= r < d,
            0 < c,
    ;
    lemma_fundamental_div_mod_converse(n * c, d * c, q, r * c);
}

/// A common factor does not change the nearest whole number.
pub proof fn lemma_nearest_scale(n: int, d: int, c: int)
    requires
        0 <= n,
        0 < d,
        0 < c,
    ensures
        nearest_even(n * c, d * c) == nearest_even(n, d),
{
    lemma_div_mod_scale(n, d, c);
    let r = n % d;
    lemma_mod_bound(n, d);
    assert((2 * (r * c) < d * c) == (2 * r < d)) by (nonlinear_arith)
        requires
            0 < c,
    ;
    assert((2 * (r * c) == d * c) == (2 * r == d)) by (nonlinear_arith)
        requires
            0 < c,
    ;
}

/// `excess` is fixed by the binade that its argument lies in.
pub proof fn lemma_excess(q: int, k: nat)
    requires
        0 <= q < pow2(53 + k),
        k > 0 ==> pow2((52 + k) as nat) <= q,
    ensures
        excess(q) == k,
    decreases k,
{
    lemma_pow2_consts();
    if k > 0 {
        lemma_pow2_unfold((53 + k) as nat);
        lemma_pow2_unfold((52 + k) as nat);
        let k1 = (k - 1) as nat;
        if k1 > 0 {
            lemma_pow2_unfold((52 + k1 + 1) as nat);
        }
        if k > 1 {
            lemma_pow2_strictly_increases(53, (52 + k) as nat);
        }
        assert(q >= 2 * BINADE);
        assert(0 <= q / 2 < pow2(53 + k1));
        lemma_excess(q / 2, k1);
    }
}

/// The converse: what `excess` says of its argument.
pub proof fn lemma_excess_bounds(q: int)
    requires
        0 <= q,
    ensures
        q < pow2(53 + excess(q)),
        excess(q) > 0 ==> pow2((52 + excess(q)) as nat) <= q,
    decreases q,
{
    lemma_pow2_consts();
    if q >= 2 * BINADE {
        lemma_excess_bounds(q / 2);
        let k = excess(q / 2);
        assert(excess(q) == k + 1);
        lemma_pow2_unfold((53 + k + 1) as nat);
        assert(pow2(53 + excess(q)) == 2 * pow2(53 + k));
        if k > 0 {
            lemma_pow2_unfold((52 + k + 1) as nat);
        }
    }
}

/// A common factor does not change what a fraction rounds to.
pub proof fn lemma_round_scale(n: int, d: int, c: int)
    requires
        0 <= n,
        0 < d,
        0 < c,
    ensures
        0 < d * c,
        round_ratio(n * c, d * c) == round_ratio(n, d),
{
    lemma_div_mod_scale(n, d, c);
    let k = excess(n / d);
    let p = pow2(k) as int;
    lemma_pow2_pos(k);
    assert(0 < d * p) by (nonlinear_arith)
        requires
            0 < d,
            0 < p,
    ;
    lemma_nearest_scale(n, d * p, c);
    assert((d * p) * c == (d * c) * p) by (nonlinear_arith);
}

/// Two numerators between the same multiples `m * u` and `(m + 1) * u` of a unit lie on the same
/// side of every multiple of it.
proof fn lemma_same_side(n1: int, n2: int, m: int, u: int, t: int)
    requires
        0 < u,
        m * u < n1 < (m + 1) * u,
        m * u < n2 < (m + 1) * u,
    ensures
        (n1 < t * u) == (n2 < t * u),
        n1 != t * u,
        n2 != t * u,
{
    if t <= m {
        assert(t * u <= m * u) by (nonlinear_arith)
            requires
                t <= m,
                0 < u,
        ;
    } else {
        assert((m + 1) * u <= t * u) by (nonlinear_arith)
            requires
                m + 1 <= t,
                0 < u,
        ;
    }
}

/// On a grid whose half step is a multiple `w * u` of the unit, the nearest grid point of every
/// number strictly between `m * u` and `(m + 1) * u` is the same.
proof fn lemma_nearest_between(n: int, m: int, u: int, w: int)
    requires
        0 < u,
        0 < w,
        0 <= m,
        m * u < n < (m + 1) * u,
    ensures
        nearest_even(n, 2 * w * u) == (if m % (2 * w) < w {
            m / (2 * w)
        } else {
            m / (2 * w) + 1
        }),
{
    let g = 2 * w * u;
    let j = m / (2 * w);
    let s = m % (2 * w);
    lemma_fundamental_div_mod(m, 2 * w);
    lemma_mod_bound(m, 2 * w);
    assert(0 < g) by (nonlinear_arith)
        requires
            0 < u,
            0 < w,
            g == 2 * w * u,
    ;
    let r = n - j * g;
    assert(m * u == j * g + s * u) by (nonlinear_arith)
        requires
            m == (2 * w) * j + s,
            g == 2 * w * u,
    ;
    assert((m + 1) * u == m * u + u) by (nonlinear_arith);
    assert((s + 1) * u == s * u + u) by (nonlinear_arith);
    assert(s * u < r < (s + 1) * u);
    assert(0 <= s * u) by (nonlinear_arith)
        requires
            0 <= s,
            0 < u,
    ;
    assert((s + 1) * u <= g) by (nonlinear_arith)
        requires
            s + 1 <= 2 * w,
            0 < u,
            g == 2 * w * u,
    ;
    lemma_fundamental_div_mod_converse(n, g, j, r);
    if s < w {
        assert(2 * ((s + 1) * u) <= g) by (nonlinear_arith)
            requires
                s + 1 <= w,
                0 < u,
                g == 2 * w * u,
        ;
    } else {
        assert(2 * (s * u) >= g) by (nonlinear_arith)
            requires
                s >= w,
                0 < u,
                g == 2 * w * u,
        ;
    }
}

/// A power of two times the denominator, as a multiple of the unit `pow2(a + 1) * d`.
proof fn lemma_unit(x: nat, a: nat, b: nat, d: int)
    requires
        0 < d,
    ensures
        x + b >= a ==> pow2(x) * (d * pow2(b + 1)) == pow2((x + b - a) as nat) * (pow2(a + 1) * d),
        x + b < a ==> pow2(x) * (d * pow2(b + 1)) < pow2(a + 1) * d,
{
    lemma_pow2_adds(x, b + 1);
    let px = pow2(x) as int;
    let pb = pow2(b + 1) as int;
    let pa = pow2(a + 1) as int;
    assert(px * (d * pb) == (px * pb) * d) by (nonlinear_arith);
    if x + b >= a {
        let y = (x + b - a) as nat;
        lemma_pow2_adds(y, a + 1);
        let py = pow2(y) as int;
        assert(py * (pa * d) == (py * pa) * d) by (nonlinear_arith);
    } else {
        lemma_pow2_strictly_increases((x + b + 1) as nat, (a + 1) as nat);
        let pxb = pow2((x + b + 1) as nat) as int;
        assert(pxb * d < pa * d) by (nonlinear_arith)
            requires
                pxb < pa,
                0 < d,
        ;
    }
}

/// Two numerators strictly between the same neighbouring multiples of a unit that is fine enough
/// round alike.
proof fn lemma_round_alike(n1: int, n2: int, m: int, d: int, a: nat, b: nat)
    requires
        0 < d,
        4 * BINADE <= m,
        m * (pow2(a + 1) * d) < n1 < (m + 1) * (pow2(a + 1) * d),
        m * (pow2(a + 1) * d) < n2 < (m + 1) * (pow2(a + 1) * d),
    ensures
        round_ratio(n1, d * pow2(b + 1)) == round_ratio(n2, d * pow2(b + 1)),
{
    let u = pow2(a + 1) * d;
    let dd = d * pow2(b + 1);
    lemma_pow2_pos(a + 1);
    lemma_pow2_pos(b + 1);
    assert(0 < u) by (nonlinear_arith)
        requires
            0 < d,
            0 < pow2(a + 1),
            u == pow2(a + 1) * d,
    ;
    assert(0 < dd) by (nonlinear_arith)
        requires
            0 < d,
            0 < pow2(b + 1),
            dd == d * pow2(b + 1),
    ;
    assert(u <= m * u) by (nonlinear_arith)
        requires
            1 <= m,
            0 < u,
    ;
    let q1 = n1 / dd;
    let q2 = n2 / dd;
    lemma_div_pos_is_pos(n1, dd);
    lemma_div_pos_is_pos(n2, dd);
    lemma_fundamental_div_mod(n1, dd);
    lemma_fundamental_div_mod(n2, dd);
    lemma_mod_bound(n1, dd);
    lemma_mod_bound(n2, dd);
    let k = excess(q2);
    lemma_excess_bounds(q2);
    // The upper end of the binade of `q2`.
    let hi = pow2(53 + k) as int;
    lemma_unit(53 + k, a, b, d);
    assert(n2 < hi * dd) by (nonlinear_arith)
        requires
            n2 == dd * q2 + n2 % dd,
            n2 % dd < dd,
            q2 + 1 <= hi,
            0 < dd,
    ;
    assert(53 + k + b >= a);
    let th = pow2((53 + k + b - a) as nat) as int;
    lemma_same_side(n1, n2, m, u, th);
    assert(n1 < hi * dd);
    assert(q1 < hi) by (nonlinear_arith)
        requires
            n1 == dd * q1 + n1 % dd,
            0 <= n1 % dd,
            n1 < hi * dd,
            0 < dd,
    ;
    // The lower end, above the first binade.
    if k > 0 {
        let lo = pow2((52 + k) as nat) as int;
        lemma_unit((52 + k) as nat, a, b, d);
        assert(lo * dd <= n2) by (nonlinear_arith)
            requires
                n2 == dd * q2 + n2 % dd,
                0 <= n2 % dd,
                lo <= q2,
                0 < dd,
        ;
        if 52 + k + b >= a {
            lemma_same_side(n1, n2, m, u, pow2((52 + k + b - a) as nat) as int);
        }
        assert(lo * dd <= n1);
        assert(lo <= q1) by (nonlinear_arith)
            requires
                n1 == dd * q1 + n1 % dd,
                n1 % dd < dd,
                lo * dd <= n1,
                0 < dd,
        ;
    }
    lemma_excess(q1, k);
    // Half a step of the grid is a multiple of the unit, since `m` is long.
    lemma_pow2_consts();
    if 53 + k + b - a < 55 {
        if 53 + k + b - a < 54 {
            lemma_pow2_strictly_increases((53 + k + b - a) as nat, 54);
        }
        assert(th <= m);
        assert(th * u <= m * u) by (nonlinear_arith)
            requires
                th <= m,
                0 < u,
        ;
        assert(false);
    }
    let h = (k + b - a - 1) as nat;
    let w = pow2(h) as int;
    lemma_pow2_pos(h);
    lemma_unit(k, a, b, d);
    lemma_pow2_unfold((h + 1) as nat);
    assert(pow2(k) * dd == (2 * w) * u);
    assert(dd * pow2(k) == 2 * w * u) by (nonlinear_arith)
        requires
            pow2(k) * dd == (2 * w) * u,
    ;
    lemma_nearest_between(n1, m, u, w);
    lemma_nearest_between(n2, m, u, w);
}

/// A ratio strictly between `m` and `m + 1` times a power of two rounds as the middle between them
/// does, if `m` is at least 55 bits long.
pub proof fn lemma_sticky(n: int, d: int, m: int, a: nat, b: nat)
    requires
        0 <= n,
        0 < d,
        4 * BINADE <= m,
        m * pow2(a) * d < n * pow2(b) < (m + 1) * pow2(a) * d,
    ensures
        round_ratio(n, d) == round_ratio((2 * m + 1) * pow2(a), pow2(b + 1) as int),
{
    let pa = pow2(a) as int;
    let pb = pow2(b) as int;
    let pb1 = pow2(b + 1) as int;
    lemma_pow2_pos(a);
    lemma_pow2_pos(b + 1);
    lemma_pow2_unfold(b + 1);
    lemma_pow2_unfold(a + 1);
    let n1 = n * pb1;
    let n2 = ((2 * m + 1) * pa) * d;
    let u = pow2(a + 1) * d;
    assert(n1 == 2 * (n * pb)) by (nonlinear_arith)
        requires
            n1 == n * pb1,
            pb1 == 2 * pb,
    ;
    assert(m * u == 2 * (m * pa * d)) by (nonlinear_arith)
        requires
            u == (2 * pa) * d,
    ;
    assert((m + 1) * u == 2 * ((m + 1) * pa * d)) by (nonlinear_arith)
        requires
            u == (2 * pa) * d,
    ;
    assert(n2 == m * u + pa * d) by (nonlinear_arith)
        requires
            u == (2 * pa) * d,
            n2 == ((2 * m + 1) * pa) * d,
    ;
    assert(0 < pa * d) by (nonlinear_arith)
        requires
            0 < pa,
            0 < d,
    ;
    assert((m + 1) * u == m * u + 2 * (pa * d)) by (nonlinear_arith)
        requires
            u == (2 * pa) * d,
    ;
    lemma_round_alike(n1, n2, m, d, a, b);
    lemma_round_scale(n, d, pb1);
    assert(0 <= (2 * m + 1) * pa) by (nonlinear_arith)
        requires
            0 <= m,
            0 < pa,
    ;
    lemma_round_scale((2 * m + 1) * pa, pb1, d);
    assert(pb1 * d == d * pb1) by (nonlinear_arith);
}

/// Two to the power of `e`, or one where `e` is negative.
pub open spec fn scale(e: int) -> int {
    if e >= 0 {
        pow2(e as nat) as int
    } else {
        1
    }
}

/// A greater exponent gives a power that is no less.
pub proof fn lemma_pow2_monotone(e1: nat, e2: nat)
    requires
        e1 <= e2,
    ensures
        pow2(e1) <= pow2(e2),
{
    if e1 < e2 {
        lemma_pow2_strictly_increases(e1, e2);
    }
}

/// The powers of two at the end of 128 bits.
pub proof fn lemma_pow2_128()
    ensures
        pow2(128) == u128::MAX + 1,
        pow2(127) == 0x8000_0000_0000_0000_0000_0000_0000_0000,
{
    lemma_pow2_consts();
    lemma_pow2_adds(64, 64);
    lemma_pow2_unfold(128);
}

/// The length of `m` in bits: zero for zero.
pub fn bit_length(m: u128) -> (len: u32)
    ensures
        len <= 128,
        m < pow2(len as nat),
        m == 0 <==> len == 0,
        len > 0 ==> pow2((len - 1) as nat) <= m,
{
    let mut rest: u128 = m;
    let mut len: u32 = 0;
    proof {
        lemma_pow2_consts();
    }
    while rest > 0
        invariant
            len <= 128,
            rest * pow2(len as nat) <= m < (rest + 1) * pow2(len as nat),
            m == 0 ==> len == 0,
            len > 0 ==> pow2((len - 1) as nat) <= m,
        decreases rest,
    {
        proof {
            let p = pow2(len as nat) as int;
            let half = (rest / 2) as int;
            lemma_pow2_unfold((len + 1) as nat);
            lemma_pow2_pos(len as nat);
            assert(half * (2 * p) <= m) by (nonlinear_arith)
                requires
                    2 * half <= rest,
                    rest * p <= m,
                    0 < p,
            ;
            assert(m < (half + 1) * (2 * p)) by (nonlinear_arith)
                requires
                    rest + 1 <= 2 * half + 2,
                    m < (rest + 1) * p,
                    0 < p,
            ;
            assert(p <= m) by (nonlinear_arith)
                requires
                    rest * p <= m,
                    1 <= rest,
                    0 < p,
            ;
            if len == 128 {
                lemma_pow2_128();
            }
        }
        rest = rest / 2;
        len = len + 1;
    }
    proof {
        assert((rest + 1) * pow2(len as nat) == pow2(len as nat)) by (nonlinear_arith)
            requires
                rest == 0,
        ;
    }
    len
}

/// Two to the power of `t`.
pub fn power_of_two(t: u32) -> (p: u128)
    requires
        t < 128,
    ensures
        p == pow2(t as nat),
{
    let mut p: u128 = 1;
    let mut i: u32 = 0;
    proof {
        lemma_pow2_consts();
    }
    while i < t
        invariant
            i <= t < 128,
            p == pow2(i as nat),
        decreases t - i,
    {
        proof {
            lemma_pow2_unfold((i + 1) as nat);
            lemma_pow2_128();
            lemma_pow2_monotone((i + 1) as nat, 127);
        }
        p = p * 2;
        i = i + 1;
    }
    p
}

/// `m` divided by two to the power of `t`, rounded to the nearest whole number, ties to even.
fn shift_nearest(m: u128, t: u32) -> (r: u128)
    requires
        1 <= t <= 128,
    ensures
        r == nearest_even(m as int, pow2(t as nat) as int),
        r <= m / 2 + 1,
{
    let half: u128 = power_of_two(t - 1);
    proof {
        lemma_pow2_pos((t - 1) as nat);
    }
    let q2: u128 = m / half;
    let low: u128 = m % half;
    let q: u128 = q2 / 2;
    proof {
        lemma_pow2_unfold(t as nat);
        let h = half as int;
        lemma_fundamental_div_mod(m as int, h);
        let odd = (q2 % 2) as int;
        let r = odd * h + low;
        assert(m == q * (2 * h) + r) by (nonlinear_arith)
            requires
                m == h * q2 + low,
                q2 == 2 * q + odd,
                r == odd * h + low,
        ;
        assert(0 <= r < 2 * h) by (nonlinear_arith)
            requires
                r == odd * h + low,
                0 <= odd <= 1,
                0 <= low < h,
        ;
        lemma_fundamental_div_mod_converse(m as int, 2 * h, q as int, r);
        assert(odd == 0 ==> r == low) by (nonlinear_arith)
            requires
                r == odd * h + low,
        ;
        assert(odd == 1 ==> r == h + low) by (nonlinear_arith)
            requires
                r == odd * h + low,
        ;
        assert(q2 <= m) by (nonlinear_arith)
            requires
                m == h * q2 + low,
                0 <= low,
                1 <= h,
                0 <= q2,
        ;
    }
    if q2 % 2 == 1 && (low != 0 || q % 2 == 1) {
        q + 1
    } else {
        q
    }
}

/// Bounds of `m * scale(e) / scale(-e)`, rounded down, by the length of `m`.
proof fn lemma_scaled_bounds(m: int, len: nat, e: int, x: nat)
    requires
        0 <= m,
        len + e >= 0,
    ensures
        m < pow2(len) && len + e <= x ==> (m * scale(e)) / scale(-e) < pow2(x),
        pow2(len) <= m && len + e >= x ==> pow2(x) <= (m * scale(e)) / scale(-e),
{
    let top = (len + e) as nat;
    if e >= 0 {
        lemma_pow2_adds(len, e as nat);
        lemma_pow2_pos(e as nat);
        let p = pow2(e as nat) as int;
        assert(scale(-e) == 1) by {
            lemma_pow2_consts();
        }
        if m < pow2(len) && len + e <= x {
            lemma_pow2_monotone(top, x);
            assert(m * p < pow2(len) * p) by (nonlinear_arith)
                requires
                    m < pow2(len),
                    0 < p,
            ;
        }
        if pow2(len) <= m && len + e >= x {
            lemma_pow2_monotone(x, top);
            assert(pow2(len) * p <= m * p) by (nonlinear_arith)
                requires
                    pow2(len) <= m,
                    0 < p,
            ;
        }
        lemma_div_basics_2(m * p);
    } else {
        let s = (-e) as nat;
        lemma_pow2_adds(top, s);
        lemma_pow2_pos(s);
        let p = pow2(s) as int;
        let t = pow2(top) as int;
        lemma_fundamental_div_mod(m, p);
        lemma_mod_bound(m, p);
        let q = m / p;
        assert(m * scale(e) == m);
        if m < pow2(len) && len + e <= x {
            lemma_pow2_monotone(top, x);
            assert(q < t) by (nonlinear_arith)
                requires
                    m == p * q + m % p,
                    0 <= m % p,
                    m < t * p,
                    0 < p,
            ;
        }
        if pow2(len) <= m && len + e >= x {
            lemma_pow2_monotone(x, top);
            assert(t <= q) by (nonlinear_arith)
                requires
                    m == p * q + m % p,
                    m % p < p,
                    t * p <= m,
                    0 < p,
            ;
        }
    }
}

proof fn lemma_nearest_whole(n: int)
    requires
        0 <= n,
    ensures
        nearest_even(n, 1) == n,
{
    lemma_div_basics_2(n);
    lemma_mod_bound(n, 1);
}

/// The nearest point of a coarse grid to `m` scaled by a power of two: a rounded shift to the
/// right, or an exact shift to the left.
proof fn lemma_scaled_nearest(m: int, e: int, k: nat)
    requires
        0 <= m,
    ensures
        k > e ==> nearest_even(m * scale(e), scale(-e) * pow2(k)) == nearest_even(
            m,
            pow2((k - e) as nat) as int,
        ),
        k <= e ==> nearest_even(m * scale(e), scale(-e) * pow2(k)) == m * pow2((e - k) as nat),
{
    lemma_pow2_consts();
    if e < 0 {
        lemma_pow2_adds((-e) as nat, k);
    } else if k > e {
        let t = (k - e) as nat;
        lemma_pow2_adds(t, e as nat);
        lemma_pow2_pos(t);
        lemma_pow2_pos(e as nat);
        lemma_nearest_scale(m, pow2(t) as int, pow2(e as nat) as int);
    } else {
        let x = (e - k) as nat;
        lemma_pow2_adds(x, k);
        lemma_pow2_pos(x);
        lemma_pow2_pos(k);
        let px = pow2(x) as int;
        let pk = pow2(k) as int;
        assert(m * (px * pk) == (m * px) * pk) by (nonlinear_arith);
        assert(0 <= m * px) by (nonlinear_arith)
            requires
                0 <= m,
                0 < px,
        ;
        lemma_nearest_scale(m * px, 1, pk);
        lemma_nearest_whole(m * px);
    }
}

/// Where a ratio lies in the binade of `k` or above, its nearest point on the grid of that binade
/// is a full significand.
pub proof fn lemma_nearest_full(n: int, d: int, k: nat)
    requires
        0 <= n,
        0 < d,
        pow2((52 + k) as nat) <= n / d,
    ensures
        BINADE <= nearest_even(n, d * pow2(k)),
{
    lemma_pow2_consts();
    lemma_pow2_adds(52, k);
    lemma_pow2_pos(k);
    let p = pow2(k) as int;
    let g = d * p;
    assert(0 < g) by (nonlinear_arith)
        requires
            0 < d,
            0 < p,
            g == d * p,
    ;
    lemma_fundamental_div_mod(n, d);
    lemma_mod_bound(n, d);
    let q = n / d;
    assert(BINADE * g <= n) by (nonlinear_arith)
        requires
            n == d * q + n % d,
            0 <= n % d,
            BINADE * p <= q,
            g == d * p,
            0 < d,
    ;
    lemma_fundamental_div_mod(n, g);
    lemma_mod_bound(n, g);
    let j = n / g;
    assert(BINADE <= j) by (nonlinear_arith)
        requires
            n == g * j + n % g,
            n % g < g,
            BINADE * g <= n,
            0 < g,
    ;
}

/// The pattern of the magnitude nearest to `m` times two to the power of `e` units.
pub fn round_scaled(m: u128, e: i64) -> (pattern: u64)
    requires
        -4000 <= e <= 4000,
    ensures
        pattern == round_ratio(m * scale(e as int), scale(-e)),
        pattern <= INFINITE,
{
    proof {
        lemma_pow2_consts();
        if e >= 0 {
            lemma_pow2_pos(e as nat);
        } else {
            lemma_pow2_pos((-e) as nat);
        }
    }
    if m == 0 {
        proof {
            let d = scale(-e);
            lemma_div_basics_1(d);
            lemma_excess(0, 0);
            lemma_small_mod(0, d as nat);
            assert(0 * scale(e as int) == 0);
            assert(d * pow2(0) == d);
        }
        return 0;
    }
    let len: u32 = bit_length(m);
    let top: i64 = len as i64 + e;
    let k: i64 = if top > 53 {
        top - 53
    } else {
        0
    };
    let ghost n = m * scale(e as int);
    let ghost d = scale(-e);
    proof {
        assert(0 <= n) by (nonlinear_arith)
            requires
                0 <= m,
                0 < scale(e as int),
                n == m * scale(e as int),
        ;
        if top >= 0 {
            lemma_scaled_bounds(m as int, len as nat, e as int, (53 + k) as nat);
        } else {
            lemma_pow2_monotone(len as nat, (-e) as nat);
            lemma_basic_div(m as int, d);
            lemma_pow2_pos(53);
        }
        if k > 0 {
            lemma_scaled_bounds(m as int, (len - 1) as nat, e as int, (52 + k) as nat);
        }
        lemma_div_pos_is_pos(n, d);
        lemma_excess(n / d, k as nat);
        lemma_scaled_nearest(m as int, e as int, k as nat);
    }
    if k >= 2046 {
        proof {
            lemma_nearest_full(n, d, k as nat);
            assert(k * BINADE >= 2046 * BINADE);
        }
        return INFINITE;
    }
    let significand: u128;
    if k <= e {
        let x: u32 = (e - k) as u32;
        proof {
            lemma_pow2_adds(len as nat, x as nat);
            lemma_pow2_monotone((len + x) as nat, 53);
            let p = pow2(x as nat) as int;
            lemma_pow2_pos(x as nat);
            assert(m * p < pow2(len as nat) * p) by (nonlinear_arith)
                requires
                    m < pow2(len as nat),
                    0 < p,
            ;
        }
        significand = m * power_of_two(x);
    } else {
        let t: i64 = k - e;
        if t > len as i64 {
            proof {
                lemma_pow2_monotone((len + 1) as nat, t as nat);
                lemma_pow2_unfold((len + 1) as nat);
                lemma_basic_div(m as int, pow2(t as nat) as int);
                lemma_small_mod(m as nat, pow2(t as nat));
            }
            significand = 0;
        } else {
            significand = shift_nearest(m, t as u32);
            proof {
                lemma_significand_bound(m as int, len as nat, t as nat);
            }
        }
    }
    let pattern: u64 = (k as u64) * BINADE + significand as u64;
    if pattern < INFINITE {
        pattern
    } else {
        INFINITE
    }
}

/// A rounded shift that leaves 53 bits gives at most the next power of two.
proof fn lemma_significand_bound(m: int, len: nat, t: nat)
    requires
        0 <= m < pow2(len),
        t <= len,
        len <= t + 53,
    ensures
        nearest_even(m, pow2(t) as int) <= 2 * BINADE,
{
    lemma_pow2_consts();
    lemma_pow2_pos(t);
    let p = pow2(t) as int;
    lemma_pow2_adds(53, t);
    lemma_pow2_monotone(len, 53 + t);
    lemma_fundamental_div_mod(m, p);
    lemma_mod_bound(m, p);
    let q = m / p;
    assert(q < 2 * BINADE) by (nonlinear_arith)
        requires
            m == p * q + m % p,
            0 <= m % p,
            m < (2 * BINADE) * p,
            0 < p,
    ;
}

/// Only the difference of the two exponents counts.
pub proof fn lemma_round_exponents(n: int, d: int, a: nat, b: nat)
    requires
        0 <= n,
        0 < d,
    ensures
        round_ratio(n * pow2(a), d * pow2(b)) == round_ratio(n * scale(a - b), d * scale(b - a)),
{
    lemma_pow2_consts();
    if a >= b {
        let x = (a - b) as nat;
        lemma_pow2_adds(x, b);
        lemma_pow2_pos(x);
        lemma_pow2_pos(b);
        let px = pow2(x) as int;
        let pb = pow2(b) as int;
        assert(n * (px * pb) == (n * px) * pb) by (nonlinear_arith);
        assert(0 <= n * px) by (nonlinear_arith)
            requires
                0 <= n,
                0 < px,
        ;
        assert(d * scale(b - a) == d);
        lemma_round_scale(n * px, d, pb);
    } else {
        let x = (b - a) as nat;
        lemma_pow2_adds(x, a);
        lemma_pow2_pos(x);
        lemma_pow2_pos(a);
        let px = pow2(x) as int;
        let pa = pow2(a) as int;
        assert(d * (px * pa) == (d * px) * pa) by (nonlinear_arith);
        assert(0 < d * px) by (nonlinear_arith)
            requires
                0 < d,
                0 < px,
        ;
        assert(n * scale(a - b) == n);
        lemma_round_scale(n, d * px, pa);
    }
}

/// The pattern of the magnitude nearest to `n / d` times two to the power of `z` units.
pub fn round_quotient(n: u64, d: u64, z: i64) -> (pattern: u64)
    requires
        0 < d,
        -3800 <= z <= 3800,
    ensures
        pattern == round_ratio(n * scale(z as int), d * scale(-z)),
        pattern <= INFINITE,
{
    let len: u32 = bit_length(n as u128);
    proof {
        lemma_pow2_consts();
        lemma_pow2_128();
        if len > 64 {
            lemma_pow2_monotone(64, (len - 1) as nat);
        }
    }
    let s: u32 = 126 - len;
    let p: u128 = power_of_two(s);
    let ghost pi = p as int;
    proof {
        lemma_pow2_adds(len as nat, s as nat);
        lemma_pow2_unfold(127);
        lemma_pow2_pos(s as nat);
        assert(n * pi < pow2(len as nat) * pi) by (nonlinear_arith)
            requires
                n < pow2(len as nat),
                0 < pi,
        ;
    }
    let num: u128 = n as u128 * p;
    let q: u128 = num / d as u128;
    let rem: u128 = num % d as u128;
    proof {
        lemma_fundamental_div_mod(num as int, d as int);
        assert(q <= num) by (nonlinear_arith)
            requires
                num == d * q + rem,
                0 <= rem,
                1 <= d,
                0 <= q,
        ;
    }
    let ghost a = if z >= 0 {
        z as nat
    } else {
        0nat
    };
    let ghost b = (s + (if z >= 0 {
        0int
    } else {
        -z
    })) as nat;
    let e: i64 = z - s as i64 - 1;
    proof {
        let pa = pow2(a) as int;
        let pb = pow2(b) as int;
        let nn = n * scale(z as int);
        let dd = d * scale(-z);
        lemma_pow2_pos(a);
        lemma_pow2_pos(b + 1);
        lemma_pow2_unfold(b + 1);
        let dz = scale(-z);
        if z >= 0 {
            lemma_pow2_pos(z as nat);
        } else {
            lemma_pow2_pos((-z) as nat);
            lemma_pow2_adds(s as nat, (-z) as nat);
        }
        assert(0 <= nn) by (nonlinear_arith)
            requires
                nn == n * scale(z as int),
                0 <= n,
                0 < scale(z as int),
        ;
        assert(0 < dd) by (nonlinear_arith)
            requires
                dd == d * dz,
                0 < d,
                0 < dz,
        ;
        assert(pa == scale(z as int));
        assert(pb == pi * dz) by (nonlinear_arith)
            requires
                z >= 0 ==> pb == pi && dz == 1,
                z < 0 ==> pb == pi * dz,
        ;
        assert(nn * pb == (num * pa) * dz) by (nonlinear_arith)
            requires
                nn == n * pa,
                pb == pi * dz,
                num == n * pi,
        ;
        assert(q * pa * dd == ((q * d) * pa) * dz) by (nonlinear_arith)
            requires
                dd == d * dz,
        ;
        assert((q + 1) * pa * dd == ((q * d + d) * pa) * dz) by (nonlinear_arith)
            requires
                dd == d * dz,
        ;
        assert(q * d == d * q) by (nonlinear_arith);
        if rem != 0 {
            assert(((q * d) * pa) * dz < (num * pa) * dz) by (nonlinear_arith)
                requires
                    q * d < num,
                    0 < pa,
                    0 < dz,
            ;
            assert((num * pa) * dz < ((q * d + d) * pa) * dz) by (nonlinear_arith)
                requires
                    num < q * d + d,
                    0 < pa,
                    0 < dz,
            ;
            // `n` is not zero here, so the quotient is long.
            assert(n != 0) by {
                if n == 0 {
                    assert(num == 0) by (nonlinear_arith)
                        requires
                            num == n * pi,
                            n == 0,
                    ;
                    lemma_small_mod(0, d as nat);
                }
            }
            lemma_pow2_adds((len - 1) as nat, s as nat);
            lemma_pow2_adds(61, 64);
            let p61 = pow2(61) as int;
            lemma_pow2_monotone(54, 61);
            assert(pow2((len - 1) as nat) * pi <= num) by (nonlinear_arith)
                requires
                    pow2((len - 1) as nat) <= n,
                    0 < pi,
                    num == n * pi,
            ;
            assert(p61 <= q) by (nonlinear_arith)
                requires
                    p61 * 0x1_0000_0000_0000_0000 <= num,
                    num < q * d + d,
                    d < 0x1_0000_0000_0000_0000,
                    0 < d,
                    0 < p61,
            ;
            lemma_sticky(nn, dd, q as int, a, b);
            lemma_round_exponents(2 * q + 1, 1, a, b + 1);
        } else {
            lemma_round_scale(nn, dd, pow2(b + 1) as int);
            assert(nn * pow2(b + 1) == ((2 * q) * pa) * dd) by (nonlinear_arith)
                requires
                    pow2(b + 1) == 2 * pb,
                    nn * pb == (num * pa) * dz,
                    q * pa * dd == ((q * d) * pa) * dz,
                    num == q * d,
            ;
            assert(dd * pow2(b + 1) == pow2(b + 1) * dd) by (nonlinear_arith);
            assert(0 <= (2 * q) * pa) by (nonlinear_arith)
                requires
                    0 <= q,
                    0 < pa,
            ;
            lemma_round_scale((2 * q) * pa, pow2(b + 1) as int, dd);
            lemma_round_exponents(2 * q, 1, a, b + 1);
        }
    }
    let m: u128 = if rem != 0 {
        2 * q + 1
    } else {
        2 * q
    };
    round_scaled(m, e)
}

} // verus!
