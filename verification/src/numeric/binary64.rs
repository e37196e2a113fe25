//! The binary64 number and its arithmetic.

use crate::numeric::rounding;
use crate::numeric::rounding::{BINADE, INFINITE};
use vstd::arithmetic::div_mod::*;
use vstd::arithmetic::mul::*;
use vstd::arithmetic::power2::*;
use vstd::prelude::*;

verus! {

/// The sign bit of a pattern.
pub const SIGN: u64 = 0x8000_0000_0000_0000;

/// An IEEE 754 binary64 number, held as its bit pattern.
///
/// The `==` of this type compares patterns; the comparison of the numbers is [`Binary64::same`].
#[derive(Clone, Copy, Debug, PartialEq, Eq, Structural)]
pub struct Binary64 {
    pub bits: u64,
}

/// The digits of a finite magnitude, as a whole number below two to the power of 53.
pub open spec fn significand(magnitude: int) -> int {
    if magnitude < BINADE {
        magnitude
    } else {
        BINADE + magnitude % (BINADE as int)
    }
}

/// The power of two that the digits of a finite magnitude are scaled by.
pub open spec fn exponent(magnitude: int) -> nat {
    if magnitude < BINADE {
        0
    } else {
        (magnitude / (BINADE as int) - 1) as nat
    }
}

/// A finite magnitude in units of two to the power of minus 1074.
pub open spec fn magnitude_units(magnitude: int) -> int {
    significand(magnitude) * pow2(exponent(magnitude))
}

/// How many units the number one is.
pub open spec fn one() -> int {
    pow2(1074) as int
}

/// A number of units as the nearest whole number, halves away from zero.
pub open spec fn whole_half_up(units: int) -> int {
    (2 * units + one()) / (2 * one())
}

impl Binary64 {
    /// The bits without the sign.
    pub open spec fn magnitude(self) -> int {
        if self.bits < SIGN {
            self.bits as int
        } else {
            self.bits - SIGN
        }
    }

    /// Whether the sign is set.
    pub open spec fn negative(self) -> bool {
        self.bits >= SIGN
    }

    /// Whether this is no number.
    pub open spec fn nan(self) -> bool {
        self.magnitude() > INFINITE
    }

    /// Whether this is an infinity.
    pub open spec fn infinite(self) -> bool {
        self.magnitude() == INFINITE
    }

    /// Whether this is neither an infinity nor a NaN.
    pub open spec fn finite(self) -> bool {
        self.magnitude() < INFINITE
    }

    /// The value of a finite number, in units of two to the power of minus 1074.
    pub open spec fn units(self) -> int {
        if self.negative() {
            -magnitude_units(self.magnitude())
        } else {
            magnitude_units(self.magnitude())
        }
    }

    /// A whole number that orders the numbers other than the NaNs as their values do.
    pub open spec fn key(self) -> int {
        if self.negative() {
            -self.magnitude()
        } else {
            self.magnitude()
        }
    }

    /// The number with a given sign and magnitude.
    pub open spec fn make(negative: bool, magnitude: int) -> Binary64 {
        Binary64 {
            bits: if negative {
                (SIGN + magnitude) as u64
            } else {
                magnitude as u64
            },
        }
    }

    /// What an operation without a value gives.
    pub open spec fn not_a_number() -> Binary64 {
        Binary64 { bits: 0x7FF8_0000_0000_0000 }
    }

    /// The number nearest to `n / d`: what the decimal literal of that value stands for.
    pub open spec fn ratio(n: int, d: int) -> Binary64 {
        Binary64::make(false, rounding::round_ratio(n * one(), d))
    }

    /// The number nearest to the whole number `n`.
    pub open spec fn whole(n: int) -> Binary64 {
        Binary64::ratio(n, 1)
    }

    /// The number nearest to a whole number with a sign.
    pub open spec fn signed(n: int) -> Binary64 {
        if n < 0 {
            Binary64::whole(-n).negated()
        } else {
            Binary64::whole(n)
        }
    }

    /// The number with the other sign.
    pub open spec fn negated(self) -> Binary64 {
        Binary64::make(!self.negative(), self.magnitude())
    }

    /// The number without its sign.
    pub open spec fn absolute(self) -> Binary64 {
        Binary64::make(false, self.magnitude())
    }

    /// The rounded sum.
    pub open spec fn sum(self, other: Binary64) -> Binary64 {
        if self.nan() || other.nan() {
            Binary64::not_a_number()
        } else if self.infinite() {
            if other.infinite() && self.negative() != other.negative() {
                Binary64::not_a_number()
            } else {
                self
            }
        } else if other.infinite() {
            other
        } else {
            let s = self.units() + other.units();
            if s == 0 {
                Binary64::make(self.negative() && other.negative(), 0)
            } else if s < 0 {
                Binary64::make(true, rounding::round_ratio(-s, 1))
            } else {
                Binary64::make(false, rounding::round_ratio(s, 1))
            }
        }
    }

    /// The rounded difference.
    pub open spec fn difference(self, other: Binary64) -> Binary64 {
        self.sum(other.negated())
    }

    /// The rounded product.
    pub open spec fn product(self, other: Binary64) -> Binary64 {
        let negative = self.negative() != other.negative();
        if self.nan() || other.nan() {
            Binary64::not_a_number()
        } else if self.infinite() || other.infinite() {
            if self.magnitude() == 0 || other.magnitude() == 0 {
                Binary64::not_a_number()
            } else {
                Binary64::make(negative, INFINITE as int)
            }
        } else {
            Binary64::make(
                negative,
                rounding::round_ratio(
                    magnitude_units(self.magnitude()) * magnitude_units(other.magnitude()),
                    one(),
                ),
            )
        }
    }

    /// The rounded quotient.
    pub open spec fn quotient(self, other: Binary64) -> Binary64 {
        let negative = self.negative() != other.negative();
        if self.nan() || other.nan() {
            Binary64::not_a_number()
        } else if self.infinite() {
            if other.infinite() {
                Binary64::not_a_number()
            } else {
                Binary64::make(negative, INFINITE as int)
            }
        } else if other.infinite() {
            Binary64::make(negative, 0)
        } else if other.magnitude() == 0 {
            if self.magnitude() == 0 {
                Binary64::not_a_number()
            } else {
                Binary64::make(negative, INFINITE as int)
            }
        } else {
            Binary64::make(
                negative,
                rounding::round_ratio(
                    magnitude_units(self.magnitude()) * one(),
                    magnitude_units(other.magnitude()),
                ),
            )
        }
    }

    /// Whether this number is less than the other: never where one is a NaN.
    pub open spec fn less(self, other: Binary64) -> bool {
        !self.nan() && !other.nan() && self.key() < other.key()
    }

    /// Whether this number is at most the other: never where one is a NaN.
    pub open spec fn at_most(self, other: Binary64) -> bool {
        !self.nan() && !other.nan() && self.key() <= other.key()
    }

    /// Whether the two numbers are equal: the two zeros are, a NaN is equal to none.
    pub open spec fn same(self, other: Binary64) -> bool {
        !self.nan() && !other.nan() && self.key() == other.key()
    }

    /// The greater of two numbers; the other one where one is a NaN.
    pub open spec fn greater_of(self, other: Binary64) -> Binary64 {
        if self.nan() || self.less(other) {
            other
        } else {
            self
        }
    }

    /// The lesser of two numbers; the other one where one is a NaN.
    pub open spec fn lesser_of(self, other: Binary64) -> Binary64 {
        if self.nan() || other.less(self) {
            other
        } else {
            self
        }
    }

    /// The number held between two limits; a NaN stays one.
    pub open spec fn held_between(self, low: Binary64, high: Binary64) -> Binary64 {
        if self.less(low) {
            low
        } else if high.less(self) {
            high
        } else {
            self
        }
    }

    /// The nearest whole number, halves away from zero, as a number again.
    pub open spec fn rounded(self) -> Binary64 {
        if self.finite() {
            Binary64::make(
                self.negative(),
                rounding::round_ratio(
                    whole_half_up(magnitude_units(self.magnitude())) * one(),
                    1,
                ),
            )
        } else {
            self
        }
    }

    /// The whole part as an unsigned integer: zero for a NaN and below zero, the greatest integer
    /// where the number is greater than that.
    pub open spec fn truncated(self) -> int {
        if self.nan() || self.negative() {
            0
        } else if self.infinite() || magnitude_units(self.magnitude()) / one() > u64::MAX {
            u64::MAX as int
        } else {
            magnitude_units(self.magnitude()) / one()
        }
    }

    /// How often a positive finite number goes into a whole number.
    pub open spec fn goes_into(self, limit: int) -> int {
        (limit * one()) / magnitude_units(self.magnitude())
    }

    /// The nearest whole number, halves away from zero, as a signed integer: zero for a NaN, the
    /// nearest limit where the number is out of range.
    pub open spec fn rounded_integer(self) -> int {
        let w = whole_half_up(magnitude_units(self.magnitude()));
        if self.nan() {
            0
        } else if self.negative() {
            if self.infinite() || -w < i64::MIN {
                i64::MIN as int
            } else {
                -w
            }
        } else {
            if self.infinite() || w > i64::MAX {
                i64::MAX as int
            } else {
                w
            }
        }
    }
}

/// The digits and the exponent of a finite magnitude.
fn decode(magnitude: u64) -> (r: (u64, i64))
    requires
        magnitude < INFINITE,
    ensures
        r.0 == significand(magnitude as int),
        r.1 == exponent(magnitude as int),
        r.0 < 2 * BINADE,
        0 <= r.1 <= 2045,
        r.1 > 0 ==> r.0 >= BINADE,
{
    if magnitude < BINADE {
        (magnitude, 0)
    } else {
        (BINADE + magnitude % BINADE, (magnitude / BINADE) as i64 - 1)
    }
}

/// Up to the end of the first binade a magnitude is its number of units.
pub proof fn lemma_small_units(x: int)
    requires
        0 <= x <= 2 * BINADE,
    ensures
        magnitude_units(x) == x,
{
    rounding::lemma_pow2_consts();
    if x == 2 * BINADE {
        assert(significand(x) == BINADE);
        assert(exponent(x) == 1);
    } else {
        assert(exponent(x) == 0);
        assert(significand(x) * 1 == significand(x));
    }
}

/// A greater finite magnitude has more units.
pub proof fn lemma_units_increase(x: int, y: int)
    requires
        0 <= x < y,
    ensures
        magnitude_units(x) < magnitude_units(y),
        exponent(x) <= exponent(y),
{
    let ex = exponent(x);
    let ey = exponent(y);
    let sx = significand(x);
    let sy = significand(y);
    lemma_pow2_pos(ex);
    lemma_pow2_pos(ey);
    let px = pow2(ex) as int;
    let py = pow2(ey) as int;
    if ex == ey {
        assert(sx < sy);
        assert(sx * px < sy * py) by (nonlinear_arith)
            requires
                sx < sy,
                px == py,
                0 < px,
        ;
    } else {
        assert(ex < ey);
        lemma_pow2_unfold((ex + 1) as nat);
        rounding::lemma_pow2_monotone((ex + 1) as nat, ey);
        assert(sx * px < (2 * BINADE) * px) by (nonlinear_arith)
            requires
                sx < 2 * BINADE,
                0 < px,
        ;
        assert((2 * BINADE) * px <= sy * py) by (nonlinear_arith)
            requires
                2 * px <= py,
                BINADE <= sy,
                0 < px,
        ;
    }
}

/// The order by keys is the order by values.
pub proof fn lemma_order(a: Binary64, b: Binary64)
    requires
        a.finite(),
        b.finite(),
    ensures
        a.less(b) <==> a.units() < b.units(),
        a.at_most(b) <==> a.units() <= b.units(),
        a.same(b) <==> a.units() == b.units(),
{
    let x = a.magnitude();
    let y = b.magnitude();
    lemma_small_units(0);
    if x < y {
        lemma_units_increase(x, y);
    }
    if y < x {
        lemma_units_increase(y, x);
    }
    if 0 < x {
        lemma_units_increase(0, x);
    }
    if 0 < y {
        lemma_units_increase(0, y);
    }
}

/// The sum, or the difference, of two finite magnitudes of which the first is not the lesser.
fn combine(x: u64, y: u64, subtract: bool) -> (pattern: u64)
    requires
        y <= x < INFINITE,
    ensures
        pattern == rounding::round_ratio(
            if subtract {
                magnitude_units(x as int) - magnitude_units(y as int)
            } else {
                magnitude_units(x as int) + magnitude_units(y as int)
            },
            1,
        ),
        pattern <= INFINITE,
{
    let (sx, ex) = decode(x);
    let (sy, ey) = decode(y);
    proof {
        if y < x {
            lemma_units_increase(y as int, x as int);
        }
        rounding::lemma_pow2_consts();
        lemma_pow2_pos(ex as nat);
        lemma_pow2_pos(ey as nat);
    }
    let gap: i64 = ex - ey;
    let ghost ux = magnitude_units(x as int);
    let ghost uy = magnitude_units(y as int);
    let ghost py = pow2(ey as nat) as int;
    if gap <= 74 {
        let p: u128 = rounding::power_of_two(gap as u32);
        proof {
            lemma_pow2_adds(gap as nat, ey as nat);
            lemma_pow2_adds(53, 74);
            rounding::lemma_pow2_monotone(gap as nat, 74);
            rounding::lemma_pow2_128();
            assert(sx * p <= (2 * BINADE - 1) * pow2(74)) by (nonlinear_arith)
                requires
                    sx <= 2 * BINADE - 1,
                    p <= pow2(74),
                    0 <= sx,
                    0 <= p,
            ;
            lemma2_to64();
            assert(pow2(74) >= 2 * BINADE) by {
                rounding::lemma_pow2_monotone(53, 74);
            }
            assert(ux == (sx * p) * py) by (nonlinear_arith)
                requires
                    ux == sx * pow2(ex as nat),
                    pow2(ex as nat) == p * py,
            ;
            assert(uy == sy * py);
            if subtract {
                assert(sy <= sx * p) by (nonlinear_arith)
                    requires
                        sy * py <= (sx * p) * py,
                        0 < py,
                ;
            }
        }
        let wide: u128 = sx as u128 * p;
        let m: u128 = if subtract {
            wide - sy as u128
        } else {
            wide + sy as u128
        };
        proof {
            assert((wide - sy) * py == wide * py - sy * py) by (nonlinear_arith);
            assert((wide + sy) * py == wide * py + sy * py) by (nonlinear_arith);
        }
        rounding::round_scaled(m, ey)
    } else if sy == 0 {
        proof {
            assert(uy == 0) by (nonlinear_arith)
                requires
                    uy == sy * py,
                    sy == 0,
            ;
        }
        rounding::round_scaled(sx as u128, ex)
    } else {
        let m: u128 = if subtract {
            sx as u128 * 1024 - 1
        } else {
            sx as u128 * 1024
        };
        proof {
            let a = (ex - 10) as nat;
            let pa = pow2(a) as int;
            let n = if subtract {
                ux - uy
            } else {
                ux + uy
            };
            lemma_pow2_adds(10, a);
            lemma2_to64();
            assert(ux == (sx * 1024) * pa) by (nonlinear_arith)
                requires
                    ux == sx * pow2(ex as nat),
                    pow2(ex as nat) == 1024 * pa,
            ;
            lemma_pow2_adds(53, ey as nat);
            rounding::lemma_pow2_monotone((53 + ey) as nat, a);
            assert(0 < uy < pa) by (nonlinear_arith)
                requires
                    uy == sy * py,
                    0 < sy < 2 * BINADE,
                    (2 * BINADE) * py <= pa,
                    0 < py,
            ;
            assert(m * pa < n < (m + 1) * pa) by (nonlinear_arith)
                requires
                    0 < uy < pa,
                    ux == (sx * 1024) * pa,
                    subtract ==> n == ux - uy && m == sx * 1024 - 1,
                    !subtract ==> n == ux + uy && m == sx * 1024,
            ;
            assert(m * pa * 1 == m * pa && (m + 1) * pa * 1 == (m + 1) * pa && n * pow2(0) == n);
            rounding::lemma_sticky(n, 1, m as int, a, 0);
            rounding::lemma_round_exponents(2 * m + 1, 1, a, 1);
        }
        rounding::round_scaled(2 * m + 1, ex - 11)
    }
}

/// The product of two finite magnitudes.
fn multiply(x: u64, y: u64) -> (pattern: u64)
    requires
        x < INFINITE,
        y < INFINITE,
    ensures
        pattern == rounding::round_ratio(
            magnitude_units(x as int) * magnitude_units(y as int),
            one(),
        ),
        pattern <= INFINITE,
{
    let (sx, ex) = decode(x);
    let (sy, ey) = decode(y);
    proof {
        assert(sx * sy <= (2 * BINADE) * (2 * BINADE)) by (nonlinear_arith)
            requires
                0 <= sx <= 2 * BINADE,
                0 <= sy <= 2 * BINADE,
        ;
        let px = pow2(ex as nat) as int;
        let py = pow2(ey as nat) as int;
        lemma_pow2_adds(ex as nat, ey as nat);
        assert((sx * px) * (sy * py) == (sx * sy) * (px * py)) by (nonlinear_arith);
        assert(0 <= sx * sy) by (nonlinear_arith)
            requires
                0 <= sx,
                0 <= sy,
        ;
        rounding::lemma_round_exponents(sx * sy, 1, (ex + ey) as nat, 1074);
    }
    rounding::round_scaled(sx as u128 * sy as u128, ex + ey - 1074)
}

/// The quotient of two finite magnitudes.
fn divide(x: u64, y: u64) -> (pattern: u64)
    requires
        x < INFINITE,
        0 < y < INFINITE,
    ensures
        pattern == rounding::round_ratio(
            magnitude_units(x as int) * one(),
            magnitude_units(y as int),
        ),
        pattern <= INFINITE,
{
    let (sx, ex) = decode(x);
    let (sy, ey) = decode(y);
    proof {
        lemma_pow2_adds(ex as nat, 1074);
        assert((sx * pow2(ex as nat)) * one() == sx * pow2((ex + 1074) as nat))
            by (nonlinear_arith)
            requires
                pow2((ex + 1074) as nat) == pow2(ex as nat) * one(),
        ;
        rounding::lemma_round_exponents(sx as int, sy as int, (ex + 1074) as nat, ey as nat);
    }
    rounding::round_quotient(sx, sy, ex + 1074 - ey)
}

/// The whole part of a finite magnitude, at most the greatest `u64`.
fn whole_part(x: u64) -> (w: u64)
    requires
        x < INFINITE,
    ensures
        w == (if magnitude_units(x as int) / one() > u64::MAX {
            u64::MAX as int
        } else {
            magnitude_units(x as int) / one()
        }),
{
    let (s, e) = decode(x);
    proof {
        lemma_pow2_pos(1074);
        rounding::lemma_pow2_consts();
        lemma_pow2_pos(e as nat);
    }
    let ghost pe = pow2(e as nat) as int;
    if e >= 1074 {
        let up: i64 = e - 1074;
        proof {
            lemma_whole_units(s as int, e as nat);
            lemma_pow2_pos(up as nat);
        }
        if up >= 12 {
            proof {
                lemma_pow2_adds(52, 12);
                rounding::lemma_pow2_monotone(12, up as nat);
                let pu = pow2(up as nat) as int;
                assert(s * pu >= BINADE * pow2(12)) by (nonlinear_arith)
                    requires
                        s >= BINADE,
                        pu >= pow2(12),
                ;
            }
            return u64::MAX;
        }
        let p: u128 = rounding::power_of_two(up as u32);
        proof {
            rounding::lemma_pow2_monotone(up as nat, 12);
            lemma2_to64();
            assert(s * p <= (2 * BINADE) * 4096) by (nonlinear_arith)
                requires
                    0 <= s <= 2 * BINADE,
                    0 <= p <= 4096,
            ;
        }
        let w: u128 = s as u128 * p;
        if w > u64::MAX as u128 {
            u64::MAX
        } else {
            w as u64
        }
    } else {
        let down: i64 = 1074 - e;
        proof {
            lemma_pow2_adds(down as nat, e as nat);
            lemma_pow2_pos(down as nat);
            lemma_div_mod_scale_pair(s as int, down as nat, e as nat);
        }
        if down >= 54 {
            proof {
                rounding::lemma_pow2_monotone(54, down as nat);
                lemma_basic_div(s as int, pow2(down as nat) as int);
            }
            return 0;
        }
        let p: u128 = rounding::power_of_two(down as u32);
        proof {
            lemma_div_nonincreasing(s as int, p as int);
        }
        (s as u128 / p) as u64
    }
}

/// Digits with an exponent of at least 1074 are a whole number.
pub proof fn lemma_whole_units(s: int, e: nat)
    requires
        0 <= s,
        e >= 1074,
    ensures
        s * pow2(e) == (s * pow2((e - 1074) as nat)) * one(),
        (s * pow2(e)) / one() == s * pow2((e - 1074) as nat),
        whole_half_up(s * pow2(e)) == s * pow2((e - 1074) as nat),
{
    let up = (e - 1074) as nat;
    lemma_pow2_adds(up, 1074);
    lemma_pow2_pos(1074);
    let p = pow2(up) as int;
    let o = one();
    let w = s * p;
    assert(s * (p * o) == w * o) by (nonlinear_arith)
        requires
            w == s * p,
    ;
    lemma_div_multiples_vanish(w, o);
    assert(o * w == w * o) by (nonlinear_arith);
    assert(2 * (w * o) + o == w * (2 * o) + o) by (nonlinear_arith);
    lemma_fundamental_div_mod_converse(2 * (w * o) + o, 2 * o, w, o);
}

proof fn lemma_div_mod_scale_pair(s: int, down: nat, e: nat)
    requires
        0 <= s,
        down + e == 1074,
    ensures
        (s * pow2(e)) / one() == s / (pow2(down) as int),
        whole_half_up(s * pow2(e)) == (2 * s + pow2(down)) / (2 * pow2(down) as int),
{
    lemma_pow2_adds(down, e);
    lemma_pow2_pos(e);
    lemma_pow2_pos(down);
    let pe = pow2(e) as int;
    let pd = pow2(down) as int;
    rounding::lemma_div_mod_scale(s, pd, pe);
    rounding::lemma_div_mod_scale(2 * s + pd, 2 * pd, pe);
    assert((2 * s + pd) * pe == 2 * (s * pe) + pd * pe) by (nonlinear_arith);
    assert((2 * pd) * pe == 2 * (pd * pe)) by (nonlinear_arith);
}

/// The nearest whole number to a finite magnitude, halves up, at most the greatest `u64`.
fn nearest_whole(x: u64) -> (w: u64)
    requires
        x < INFINITE,
    ensures
        w == (if whole_half_up(magnitude_units(x as int)) > u64::MAX {
            u64::MAX as int
        } else {
            whole_half_up(magnitude_units(x as int))
        }),
{
    let (s, e) = decode(x);
    proof {
        rounding::lemma_pow2_consts();
    }
    if e >= 1074 {
        proof {
            lemma_whole_units(s as int, e as nat);
        }
        whole_part(x)
    } else {
        let down: i64 = 1074 - e;
        proof {
            lemma_div_mod_scale_pair(s as int, down as nat, e as nat);
            lemma_pow2_pos(down as nat);
            lemma_pow2_unfold((down + 1) as nat);
        }
        if down >= 55 {
            proof {
                rounding::lemma_pow2_monotone(55, down as nat);
                lemma_pow2_unfold(55);
                lemma_basic_div(2 * s + pow2(down as nat), 2 * pow2(down as nat) as int);
            }
            return 0;
        }
        let p: u128 = rounding::power_of_two(down as u32);
        proof {
            rounding::lemma_pow2_monotone(down as nat, 55);
            rounding::lemma_pow2_monotone(55, 64);
            let n = 2 * s + p;
            let d = 2 * p;
            lemma_fundamental_div_mod(n, d);
            lemma_mod_bound(n, d);
            lemma_div_pos_is_pos(n, d);
            let q = n / d;
            assert(q <= n) by (nonlinear_arith)
                requires
                    n == d * q + n % d,
                    0 <= n % d,
                    1 <= d,
                    0 <= q,
            ;
            assert(q < 2 * BINADE + 1) by (nonlinear_arith)
                requires
                    n == d * q + n % d,
                    0 <= n % d,
                    n == 2 * s + p,
                    d == 2 * p,
                    s < 2 * BINADE,
                    1 <= p,
                    0 <= q,
            ;
        }
        ((2 * s as u128 + p) / (2 * p)) as u64
    }
}

proof fn lemma_round_zero()
    ensures
        rounding::round_ratio(0, 1) == 0,
{
    rounding::lemma_pow2_consts();
    rounding::lemma_excess(0, 0);
}

/// The number with a given sign and magnitude.
fn build(negative: bool, magnitude: u64) -> (r: Binary64)
    requires
        magnitude < SIGN,
    ensures
        r == Binary64::make(negative, magnitude as int),
        r.magnitude() == magnitude,
        r.negative() == negative,
{
    if negative {
        Binary64 { bits: SIGN + magnitude }
    } else {
        Binary64 { bits: magnitude }
    }
}

impl Binary64 {
    /// The number with a given bit pattern.
    pub fn from_bits(bits: u64) -> (r: Self)
        ensures
            r.bits == bits,
    {
        Binary64 { bits }
    }

    /// The number with a given sign and magnitude.
    pub fn from_sign_and_magnitude(negative: bool, magnitude: u64) -> (r: Self)
        requires
            magnitude < SIGN,
        ensures
            r == Binary64::make(negative, magnitude as int),
    {
        build(negative, magnitude)
    }

    /// The bit pattern.
    pub fn to_bits(self) -> (bits: u64)
        ensures
            bits == self.bits,
    {
        self.bits
    }

    /// The number nearest to a whole number.
    pub fn from_u64(n: u64) -> (r: Self)
        ensures
            r == Binary64::whole(n as int),
    {
        let pattern: u64 = rounding::round_scaled(n as u128, 1074);
        build(false, pattern)
    }

    /// The number nearest to a whole number with a sign.
    pub fn from_i64(n: i64) -> (r: Self)
        ensures
            r == Binary64::signed(n as int),
    {
        if n < 0 {
            Binary64::from_u64((-(n as i128)) as u64).neg()
        } else {
            Binary64::from_u64(n as u64)
        }
    }

    /// The number nearest to `n / d`.
    pub fn from_ratio(n: u64, d: u64) -> (r: Self)
        requires
            0 < d,
        ensures
            r == Binary64::ratio(n as int, d as int),
    {
        let pattern: u64 = rounding::round_quotient(n, d, 1074);
        proof {
            assert(d * rounding::scale(-1074) == d);
        }
        build(false, pattern)
    }

    fn size(self) -> (m: u64)
        ensures
            m == self.magnitude(),
            m < SIGN,
    {
        if self.bits < SIGN {
            self.bits
        } else {
            self.bits - SIGN
        }
    }

    /// Whether the sign bit is set.
    pub fn is_sign_negative(self) -> (r: bool)
        ensures
            r == self.negative(),
    {
        self.bits >= SIGN
    }

    /// Whether this is a NaN.
    pub fn is_nan(self) -> (r: bool)
        ensures
            r == self.nan(),
    {
        self.size() > INFINITE
    }

    /// Whether this is neither a NaN nor infinite.
    pub fn is_finite(self) -> (r: bool)
        ensures
            r == self.finite(),
    {
        self.size() < INFINITE
    }

    /// The number with the other sign.
    pub fn neg(self) -> (r: Self)
        ensures
            r == self.negated(),
    {
        build(!self.is_sign_negative(), self.size())
    }

    /// The number without its sign.
    pub fn abs(self) -> (r: Self)
        ensures
            r == self.absolute(),
    {
        build(false, self.size())
    }

    /// The rounded sum.
    pub fn add(self, other: Self) -> (r: Self)
        ensures
            r == self.sum(other),
    {
        let x: u64 = self.size();
        let y: u64 = other.size();
        let nx = self.is_sign_negative();
        let ny = other.is_sign_negative();
        if x > INFINITE || y > INFINITE {
            return Binary64 { bits: 0x7FF8_0000_0000_0000 };
        }
        if x == INFINITE {
            if y == INFINITE && nx != ny {
                return Binary64 { bits: 0x7FF8_0000_0000_0000 };
            }
            return self;
        }
        if y == INFINITE {
            return other;
        }
        proof {
            lemma_small_units(0);
            lemma_round_zero();
            if x < y {
                lemma_units_increase(x as int, y as int);
            }
            if y < x {
                lemma_units_increase(y as int, x as int);
            }
            if 0 < x {
                lemma_units_increase(0, x as int);
            }
            if 0 < y {
                lemma_units_increase(0, y as int);
            }
        }
        if nx == ny {
            if x >= y {
                let m: u64 = combine(x, y, false);
                build(nx, m)
            } else {
                let m: u64 = combine(y, x, false);
                build(nx, m)
            }
        } else if x == y {
            build(false, 0)
        } else if x > y {
            let m: u64 = combine(x, y, true);
            build(nx, m)
        } else {
            let m: u64 = combine(y, x, true);
            build(ny, m)
        }
    }

    /// The rounded difference.
    pub fn sub(self, other: Self) -> (r: Self)
        ensures
            r == self.difference(other),
    {
        self.add(other.neg())
    }

    /// The rounded product.
    pub fn mul(self, other: Self) -> (r: Self)
        ensures
            r == self.product(other),
    {
        let x: u64 = self.size();
        let y: u64 = other.size();
        let negative = self.is_sign_negative() != other.is_sign_negative();
        if x > INFINITE || y > INFINITE {
            return Binary64 { bits: 0x7FF8_0000_0000_0000 };
        }
        if x == INFINITE || y == INFINITE {
            if x == 0 || y == 0 {
                return Binary64 { bits: 0x7FF8_0000_0000_0000 };
            }
            return build(negative, INFINITE);
        }
        let m: u64 = multiply(x, y);
        build(negative, m)
    }

    /// The rounded quotient.
    pub fn div(self, other: Self) -> (r: Self)
        ensures
            r == self.quotient(other),
    {
        let x: u64 = self.size();
        let y: u64 = other.size();
        let negative = self.is_sign_negative() != other.is_sign_negative();
        if x > INFINITE || y > INFINITE {
            return Binary64 { bits: 0x7FF8_0000_0000_0000 };
        }
        if x == INFINITE {
            if y == INFINITE {
                return Binary64 { bits: 0x7FF8_0000_0000_0000 };
            }
            return build(negative, INFINITE);
        }
        if y == INFINITE {
            return build(negative, 0);
        }
        if y == 0 {
            if x == 0 {
                return Binary64 { bits: 0x7FF8_0000_0000_0000 };
            }
            return build(negative, INFINITE);
        }
        let m: u64 = divide(x, y);
        build(negative, m)
    }

    /// Whether this number is less than the other.
    pub fn lt(self, other: Self) -> (r: bool)
        ensures
            r == self.less(other),
    {
        let x: u64 = self.size();
        let y: u64 = other.size();
        if x > INFINITE || y > INFINITE {
            return false;
        }
        if self.is_sign_negative() {
            if other.is_sign_negative() {
                x > y
            } else {
                x > 0 || y > 0
            }
        } else {
            !other.is_sign_negative() && x < y
        }
    }

    /// Whether this number is at most the other.
    pub fn le(self, other: Self) -> (r: bool)
        ensures
            r == self.at_most(other),
    {
        !self.is_nan() && !other.is_nan() && !other.lt(self)
    }

    /// Whether the two numbers are equal.
    pub fn equals(self, other: Self) -> (r: bool)
        ensures
            r == self.same(other),
    {
        self.le(other) && other.le(self)
    }

    /// The greater of two numbers.
    pub fn max(self, other: Self) -> (r: Self)
        ensures
            r == self.greater_of(other),
    {
        if self.is_nan() || self.lt(other) {
            other
        } else {
            self
        }
    }

    /// The lesser of two numbers.
    pub fn min(self, other: Self) -> (r: Self)
        ensures
            r == self.lesser_of(other),
    {
        if self.is_nan() || other.lt(self) {
            other
        } else {
            self
        }
    }

    /// The number held between two limits.
    pub fn clamp(self, low: Self, high: Self) -> (r: Self)
        ensures
            r == self.held_between(low, high),
    {
        if self.lt(low) {
            low
        } else if high.lt(self) {
            high
        } else {
            self
        }
    }

    /// The nearest whole number, halves away from zero.
    pub fn round(self) -> (r: Self)
        ensures
            r == self.rounded(),
    {
        let x: u64 = self.size();
        if x >= INFINITE {
            return self;
        }
        let (s, e) = decode(x);
        if e >= 1074 {
            proof {
                lemma_whole_units(s as int, e as nat);
                rounding::lemma_pow2_consts();
            }
            let m: u64 = rounding::round_scaled(s as u128, e);
            build(self.is_sign_negative(), m)
        } else {
            let w: u64 = nearest_whole(x);
            proof {
                lemma_small_whole(s as int, e as nat);
                rounding::lemma_pow2_consts();
            }
            let m: u64 = rounding::round_scaled(w as u128, 1074);
            build(self.is_sign_negative(), m)
        }
    }

    /// The whole part as an unsigned integer.
    pub fn to_u64(self) -> (r: u64)
        ensures
            r == self.truncated(),
    {
        let x: u64 = self.size();
        if x > INFINITE || self.is_sign_negative() {
            0
        } else if x == INFINITE {
            u64::MAX
        } else {
            whole_part(x)
        }
    }

    /// How often a finite number of at least one goes into a whole number.
    pub fn times_in(self, limit: u64) -> (r: u64)
        requires
            self.finite(),
            self.truncated() >= 1,
        ensures
            r == self.goes_into(limit as int),
    {
        let x: u64 = self.size();
        let (s, e) = decode(x);
        proof {
            lemma_pow2_pos(1074);
            lemma_pow2_pos(e as nat);
            rounding::lemma_pow2_consts();
            lemma_at_least_one(x as int);
        }
        if e >= 1074 {
            let up: i64 = e - 1074;
            proof {
                lemma_whole_units(s as int, e as nat);
                lemma_pow2_pos(up as nat);
                let v = s * pow2(up as nat);
                assert(0 < v) by (nonlinear_arith)
                    requires
                        0 < s,
                        0 < pow2(up as nat),
                        v == s * pow2(up as nat),
                ;
                rounding::lemma_div_mod_scale(limit as int, v, one());
            }
            if up >= 12 {
                proof {
                    lemma_pow2_adds(52, 12);
                    rounding::lemma_pow2_monotone(12, up as nat);
                    let pu = pow2(up as nat) as int;
                    assert(s * pu >= BINADE * pow2(12)) by (nonlinear_arith)
                        requires
                            s >= BINADE,
                            pu >= pow2(12),
                    ;
                    lemma_basic_div(limit as int, s * pu);
                }
                return 0;
            }
            let p: u128 = rounding::power_of_two(up as u32);
            proof {
                rounding::lemma_pow2_monotone(up as nat, 12);
                lemma2_to64();
                assert(s * p <= (2 * BINADE) * 4096) by (nonlinear_arith)
                    requires
                        0 <= s <= 2 * BINADE,
                        0 <= p <= 4096,
                ;
                lemma_div_nonincreasing(limit as int, s * p);
            }
            let v: u128 = s as u128 * p;
            (limit as u128 / v) as u64
        } else {
            let down: i64 = 1074 - e;
            proof {
                lemma_pow2_adds(down as nat, e as nat);
                lemma_pow2_pos(down as nat);
                let pe = pow2(e as nat) as int;
                let pd = pow2(down as nat) as int;
                assert(pd <= s) by (nonlinear_arith)
                    requires
                        pd * pe <= s * pe,
                        0 < pe,
                ;
                if down >= 53 {
                    rounding::lemma_pow2_monotone(53, down as nat);
                }
                assert(limit * (pd * pe) == (limit * pd) * pe) by (nonlinear_arith);
                assert(0 <= limit * pd) by (nonlinear_arith)
                    requires
                        0 <= limit,
                        0 < pd,
                ;
                rounding::lemma_div_mod_scale(limit * pd, s as int, pe);
            }
            let p: u128 = rounding::power_of_two(down as u32);
            proof {
                rounding::lemma_pow2_monotone(down as nat, 52);
                assert(limit * p <= 0xFFFF_FFFF_FFFF_FFFF * BINADE) by (nonlinear_arith)
                    requires
                        0 <= limit <= 0xFFFF_FFFF_FFFF_FFFF,
                        0 <= p <= BINADE,
                ;
                let n = limit * p;
                lemma_fundamental_div_mod(n, s as int);
                lemma_mod_bound(n, s as int);
                let q = n / (s as int);
                assert(q <= limit) by (nonlinear_arith)
                    requires
                        n == s * q + n % (s as int),
                        0 <= n % (s as int),
                        n == limit * p,
                        0 < p <= s,
                        0 <= limit,
                ;
            }
            (limit as u128 * p / s as u128) as u64
        }
    }

    /// The nearest whole number, halves away from zero, as a signed integer.
    pub fn round_to_i64(self) -> (r: i64)
        ensures
            r == self.rounded_integer(),
    {
        let x: u64 = self.size();
        if x > INFINITE {
            return 0;
        }
        if x == INFINITE {
            return if self.is_sign_negative() {
                i64::MIN
            } else {
                i64::MAX
            };
        }
        let w: u64 = nearest_whole(x);
        if self.is_sign_negative() {
            if w > i64::MAX as u64 {
                i64::MIN
            } else {
                -(w as i64)
            }
        } else if w > i64::MAX as u64 {
            i64::MAX
        } else {
            w as i64
        }
    }
}

/// A whole part of at least one takes the units of one.
proof fn lemma_at_least_one(x: int)
    requires
        0 <= x,
        magnitude_units(x) / one() >= 1,
    ensures
        magnitude_units(x) >= one(),
        significand(x) > 0,
{
    lemma_pow2_pos(1074);
    let u = magnitude_units(x);
    lemma_pow2_pos(exponent(x));
    lemma_fundamental_div_mod(u, one());
    lemma_mod_bound(u, one());
    let q = u / one();
    assert(u >= one()) by (nonlinear_arith)
        requires
            u == one() * q + u % one(),
            0 <= u % one(),
            q >= 1,
            one() > 0,
    ;
    assert(significand(x) > 0) by (nonlinear_arith)
        requires
            significand(x) * pow2(exponent(x)) >= one(),
            one() > 0,
            significand(x) >= 0,
    ;
}

/// Digits with an exponent below 1074 are less than two to the power of 53, rounded.
proof fn lemma_small_whole(s: int, e: nat)
    requires
        0 <= s < 2 * BINADE,
        e < 1074,
    ensures
        0 <= whole_half_up(s * pow2(e)) <= u64::MAX,
{
    let down = (1074 - e) as nat;
    lemma_div_mod_scale_pair(s, down, e);
    lemma_pow2_pos(down);
    let p = pow2(down) as int;
    let n = 2 * s + p;
    let d = 2 * p;
    lemma_fundamental_div_mod(n, d);
    lemma_mod_bound(n, d);
    lemma_div_pos_is_pos(n, d);
    let q = n / d;
    assert(q < 2 * BINADE + 1) by (nonlinear_arith)
        requires
            n == d * q + n % d,
            0 <= n % d,
            n == 2 * s + p,
            d == 2 * p,
            s < 2 * BINADE,
            1 <= p,
            0 <= q,
    ;
}

} // verus!
