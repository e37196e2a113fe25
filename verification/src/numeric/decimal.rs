//! Decimal texts as binary64 numbers.

use crate::numeric::big::Big;
use crate::numeric::binary64;
use crate::numeric::binary64::Binary64;
use crate::numeric::rounding;
use crate::numeric::rounding::{BINADE, INFINITE};
use crate::text;
use vstd::arithmetic::div_mod::*;
use vstd::arithmetic::mul::*;
use vstd::arithmetic::power::*;
use vstd::arithmetic::power2::*;
use vstd::prelude::*;

verus! {

/// A ratio below half a unit rounds to zero.
proof fn lemma_round_underflow(n: int, d: int)
    requires
        0 <= n,
        0 < d,
        2 * n < d,
    ensures
        rounding::round_ratio(n, d) == 0,
{
    lemma_basic_div(n, d);
    rounding::lemma_pow2_consts();
    rounding::lemma_excess(0, 0);
    lemma_small_mod(n as nat, d as nat);
    assert(d * pow2(0) == d);
}

/// A ratio beyond the greatest finite magnitude rounds to infinity.
proof fn lemma_round_overflow(n: int, d: int)
    requires
        0 <= n,
        0 < d,
        d * pow2(2098) <= n,
    ensures
        rounding::round_ratio(n, d) == INFINITE,
{
    let q = n / d;
    lemma_fundamental_div_mod(n, d);
    lemma_mod_bound(n, d);
    let p = pow2(2098) as int;
    assert(p <= q) by (nonlinear_arith)
        requires
            n == d * q + n % d,
            n % d < d,
            d * p <= n,
            0 < d,
    ;
    rounding::lemma_excess_bounds(q);
    let k = rounding::excess(q);
    if 53 + k <= 2098 {
        rounding::lemma_pow2_monotone(53 + k, 2098);
    }
    rounding::lemma_nearest_full(n, d, k);
    assert(k * BINADE >= 2046 * BINADE) by (nonlinear_arith)
        requires
            k >= 2046,
    ;
}

/// The pattern of the magnitude nearest to `n / d`.
fn round_big(n: &Big, d: &Big) -> (pattern: u64)
    requires
        n.value() > 0,
        d.value() > 0,
    ensures
        pattern == rounding::round_ratio(n.value() * binary64::one(), d.value()),
        pattern <= INFINITE,
{
    let ghost n0 = n.value();
    let ghost d0 = d.value();
    let ghost o = binary64::one();
    proof {
        rounding::lemma_pow2_consts();
        lemma_pow2_pos(1074);
    }
    // Double the numerator until it is not less than the denominator.
    let mut num: Big = n.mul_add(1, 0);
    let mut b: u32 = 0;
    loop
        invariant_except_break
            n0 > 0,
            d0 > 0,
            n0 == n.value(),
            d0 == d.value(),
            o == binary64::one(),
            b <= 2200,
            num.value() == n0 * pow2(b as nat),
            b > 0 ==> num.value() < 2 * d0,
        ensures
            b <= 2200,
            num.value() == n0 * pow2(b as nat),
            b > 0 ==> num.value() < 2 * d0,
            num.value() >= d0,
        decreases 2200 - b,
    {
        if num.checked_sub(d).is_some() {
            break;
        }
        if b == 2200 {
            proof {
                lemma_pow2_unfold(1075);
                rounding::lemma_pow2_monotone(1075, 2200);
                assert(2 * (n0 * o) <= n0 * pow2(2200)) by (nonlinear_arith)
                    requires
                        2 * o <= pow2(2200),
                        0 < n0,
                ;
                assert(0 <= n0 * o) by (nonlinear_arith)
                    requires
                        0 < n0,
                        o == binary64::one(),
                        0 <= binary64::one(),
                ;
                lemma_round_underflow(n0 * o, d0);
            }
            return 0;
        }
        proof {
            lemma_pow2_unfold((b + 1) as nat);
            assert((n0 * pow2(b as nat)) * 2 == n0 * pow2((b + 1) as nat)) by (nonlinear_arith)
                requires
                    pow2((b + 1) as nat) == 2 * pow2(b as nat),
            ;
        }
        num = num.mul_add(2, 0);
        b = b + 1;
    }
    // Double the denominator until twice it is greater than the numerator.
    let mut den: Big = d.mul_add(1, 0);
    let mut a: u32 = 0;
    loop
        invariant_except_break
            n0 > 0,
            d0 > 0,
            n0 == n.value(),
            d0 == d.value(),
            o == binary64::one(),
            a <= 2200,
            b <= 2200,
            num.value() == n0 * pow2(b as nat),
            den.value() == d0 * pow2(a as nat),
            b > 0 ==> num.value() < 2 * den.value(),
            num.value() >= den.value(),
        ensures
            a <= 2200,
            den.value() == d0 * pow2(a as nat),
            den.value() <= num.value() < 2 * den.value(),
        decreases 2200 - a,
    {
        let twice: Big = den.mul_add(2, 0);
        if num.checked_sub(&twice).is_none() {
            break;
        }
        if a == 2200 {
            proof {
                assert(b == 0);
                rounding::lemma_pow2_consts();
                rounding::lemma_pow2_monotone(2098, 2200);
                lemma_pow2_pos(1074);
                let p = pow2(2098) as int;
                assert(n0 * pow2(0) == n0) by (nonlinear_arith)
                    requires
                        pow2(0) == 1,
                ;
                assert(d0 * p <= n0 * o) by (nonlinear_arith)
                    requires
                        d0 * pow2(2200) <= n0,
                        p <= pow2(2200),
                        0 < d0,
                        1 <= o,
                        0 < n0,
                ;
                assert(0 <= n0 * o) by (nonlinear_arith)
                    requires
                        0 < n0,
                        1 <= o,
                ;
                lemma_round_overflow(n0 * o, d0);
            }
            return INFINITE;
        }
        proof {
            lemma_pow2_unfold((a + 1) as nat);
            assert((d0 * pow2(a as nat)) * 2 == d0 * pow2((a + 1) as nat)) by (nonlinear_arith)
                requires
                    pow2((a + 1) as nat) == 2 * pow2(a as nat),
            ;
        }
        den = twice;
        a = a + 1;
    }
    // Sixty-three more digits of the quotient.
    let mut rest: Big = match num.checked_sub(&den) {
        Some(r) => r,
        None => Big::from_u32(0),
    };
    let mut q: u128 = 1;
    let mut j: u32 = 0;
    proof {
        rounding::lemma_pow2_consts();
        let nv = num.value();
        assert(nv * pow2(0) == nv) by (nonlinear_arith)
            requires
                pow2(0) == 1,
        ;
    }
    while j < 63
        invariant
            j <= 63,
            0 <= rest.value() < den.value(),
            num.value() * pow2(j as nat) == q * den.value() + rest.value(),
            pow2(j as nat) <= q < pow2((j + 1) as nat),
        decreases 63 - j,
    {
        let twice: Big = rest.mul_add(2, 0);
        let ghost pj = pow2(j as nat) as int;
        let ghost nv = num.value();
        let ghost dv = den.value();
        let ghost rv = rest.value();
        proof {
            lemma_pow2_unfold((j + 1) as nat);
            lemma_pow2_unfold((j + 2) as nat);
            rounding::lemma_pow2_monotone((j + 2) as nat, 64);
            rounding::lemma_pow2_consts();
            assert(nv * pow2((j + 1) as nat) == (2 * q) * dv + 2 * rv) by (nonlinear_arith)
                requires
                    nv * pj == q * dv + rv,
                    pow2((j + 1) as nat) == 2 * pj,
            ;
            assert((2 * q + 1) * dv == (2 * q) * dv + dv) by (nonlinear_arith);
        }
        match twice.checked_sub(&den) {
            Some(r) => {
                rest = r;
                q = 2 * q + 1;
            },
            None => {
                rest = twice;
                q = 2 * q;
            },
        }
        j = j + 1;
    }
    let sticky = !rest.is_zero();
    let m: u128 = if sticky {
        2 * q + 1
    } else {
        2 * q
    };
    proof {
        rounding::lemma_pow2_consts();
        let nn = n0 * o;
        let ea = (a + 1074) as nat;
        let eb = (b + 63) as nat;
        lemma_pow2_adds(b as nat, 63);
        lemma_pow2_adds(a as nat, 1074);
        lemma_pow2_pos(a as nat);
        lemma_pow2_pos(ea);
        lemma_pow2_pos(eb);
        lemma_pow2_pos(1074);
        let pa = pow2(a as nat) as int;
        let pea = pow2(ea) as int;
        let peb = pow2(eb) as int;
        let rv = rest.value();
        assert(0 <= nn) by (nonlinear_arith)
            requires
                nn == n0 * o,
                0 < n0,
                0 < o,
        ;
        assert(n0 * peb == q * (d0 * pa) + rv) by (nonlinear_arith)
            requires
                (n0 * pow2(b as nat)) * pow2(63) == q * (d0 * pa) + rv,
                peb == pow2(b as nat) * pow2(63),
        ;
        assert(nn * peb == (q * (d0 * pa) + rv) * o) by (nonlinear_arith)
            requires
                nn == n0 * o,
                n0 * peb == q * (d0 * pa) + rv,
        ;
        assert(q * pea * d0 == (q * (d0 * pa)) * o) by (nonlinear_arith)
            requires
                pea == pa * o,
        ;
        assert((q + 1) * pea * d0 == (q * (d0 * pa) + d0 * pa) * o) by (nonlinear_arith)
            requires
                pea == pa * o,
        ;
        rounding::lemma_pow2_monotone(54, 63);
        if sticky {
            assert((q * (d0 * pa)) * o < (q * (d0 * pa) + rv) * o) by (nonlinear_arith)
                requires
                    0 < rv,
                    0 < o,
            ;
            assert((q * (d0 * pa) + rv) * o < (q * (d0 * pa) + d0 * pa) * o) by (nonlinear_arith)
                requires
                    rv < d0 * pa,
                    0 < o,
            ;
            rounding::lemma_sticky(nn, d0, q as int, ea, eb);
            rounding::lemma_round_exponents(2 * q + 1, 1, ea, eb + 1);
        } else {
            lemma_pow2_unfold(eb + 1);
            let pe1 = pow2(eb + 1) as int;
            rounding::lemma_round_scale(nn, d0, pe1);
            assert(nn * pe1 == ((2 * q) * pea) * d0) by (nonlinear_arith)
                requires
                    pe1 == 2 * peb,
                    nn * peb == q * pea * d0,
            ;
            assert(d0 * pe1 == pe1 * d0) by (nonlinear_arith);
            assert(0 <= (2 * q) * pea) by (nonlinear_arith)
                requires
                    0 <= q,
                    0 < pea,
            ;
            rounding::lemma_round_scale((2 * q) * pea, pe1, d0);
            rounding::lemma_round_exponents(2 * q, 1, ea, eb + 1);
        }
    }
    rounding::round_scaled(m, a as i64 + 1074 - b as i64 - 64)
}

/// The end of the row of digits that starts at a place.
pub open spec fn digit_run(s: Seq<char>, from: int) -> int
    decreases s.len() - from,
{
    if 0 <= from < s.len() && text::is_digit(s[from]) {
        digit_run(s, from + 1)
    } else {
        from
    }
}

/// An ASCII letter in lower case; any other character as it is.
pub open spec fn lower(c: char) -> char {
    if 'A' <= c <= 'Z' {
        (c as int + 32) as char
    } else {
        c
    }
}

/// Whether a text is a word, in letters of either case.
pub open spec fn is_word(s: Seq<char>, word: Seq<char>) -> bool {
    s.len() == word.len() && forall|i: int|
        0 <= i < s.len() ==> lower(#[trigger] s[i]) == word[i]
}

/// Whether a decimal number has a point behind its first digits.
pub open spec fn dotted(s: Seq<char>) -> bool {
    let point = digit_run(s, 0);
    point < s.len() && s[point] == '.'
}

/// The end of the digits of a decimal number, with a point among them, before or after them, or
/// none.
pub open spec fn mantissa_end(s: Seq<char>) -> int {
    if dotted(s) {
        digit_run(s, digit_run(s, 0) + 1)
    } else {
        digit_run(s, 0)
    }
}

/// The digits behind the point.
pub open spec fn fraction_digits(s: Seq<char>) -> Seq<char> {
    if dotted(s) {
        s.subrange(digit_run(s, 0) + 1, mantissa_end(s))
    } else {
        Seq::empty()
    }
}

/// The digits before and behind the point.
pub open spec fn mantissa_digits(s: Seq<char>) -> Seq<char> {
    s.take(digit_run(s, 0)) + fraction_digits(s)
}

/// The exponent that is written from a place on to the end of the text: a letter, a sign or none,
/// and digits; zero where nothing is written.
pub open spec fn written_exponent(s: Seq<char>, at: int) -> Option<int> {
    let signed = at + 1 < s.len() && (s[at + 1] == '+' || s[at + 1] == '-');
    let negative = at + 1 < s.len() && s[at + 1] == '-';
    let start = if signed {
        at + 2
    } else {
        at + 1
    };
    if at == s.len() {
        Some(0)
    } else if (s[at] == 'e' || s[at] == 'E') && start < s.len() && digit_run(s, start) == s.len() {
        let power = text::digits_value(s.skip(start));
        Some(
            if negative {
                -power
            } else {
                power
            },
        )
    } else {
        None
    }
}

/// The digits of an unsigned decimal number and the power of ten that scales them.
pub open spec fn decimal_parts(s: Seq<char>) -> Option<(Seq<char>, int)> {
    match written_exponent(s, mantissa_end(s)) {
        Some(power) if mantissa_digits(s).len() > 0 => Some(
            (mantissa_digits(s), power - fraction_digits(s).len()),
        ),
        _ => None,
    }
}

/// The pattern of the magnitude nearest to `digits` times ten to the power of `exponent`.
pub open spec fn decimal_magnitude(digits: int, exponent: int) -> int {
    if exponent >= 0 {
        rounding::round_ratio(digits * pow(10, exponent as nat) * binary64::one(), 1)
    } else {
        rounding::round_ratio(digits * binary64::one(), pow(10, (-exponent) as nat))
    }
}

/// What a text is as a number: a decimal number, an infinity or a NaN, after a sign or none.
pub open spec fn number_text(s: Seq<char>) -> Option<Binary64> {
    let negative = s.len() > 0 && s[0] == '-';
    let body = if s.len() > 0 && (s[0] == '+' || s[0] == '-') {
        s.skip(1)
    } else {
        s
    };
    if is_word(body, "inf"@) || is_word(body, "infinity"@) {
        Some(Binary64::make(negative, INFINITE as int))
    } else if is_word(body, "nan"@) {
        Some(Binary64::make(negative, Binary64::not_a_number().magnitude()))
    } else {
        match decimal_parts(body) {
            None => None,
            Some((digits, exponent)) => Some(
                Binary64::make(
                    negative,
                    decimal_magnitude(text::digits_value(digits), exponent),
                ),
            ),
        }
    }
}

proof fn lemma_digit_run(s: Seq<char>, from: int)
    requires
        0 <= from <= s.len(),
    ensures
        from <= digit_run(s, from) <= s.len(),
        forall|i: int| from <= i < digit_run(s, from) ==> text::is_digit(#[trigger] s[i]),
        digit_run(s, from) < s.len() ==> !text::is_digit(s[digit_run(s, from)]),
    decreases s.len() - from,
{
    if from < s.len() && text::is_digit(s[from]) {
        lemma_digit_run(s, from + 1);
    }
}

/// Finds the end of a row of digits.
fn find_digit_run(c: &Vec<char>, from: usize) -> (end: usize)
    requires
        from <= c.len(),
    ensures
        end == digit_run(c@, from as int),
        from <= end <= c.len(),
{
    let mut i: usize = from;
    while i < c.len() && c[i] >= '0' && c[i] <= '9'
        invariant
            from <= i <= c.len(),
            digit_run(c@, from as int) == digit_run(c@, i as int),
        decreases c.len() - i,
    {
        i = i + 1;
    }
    i
}

/// Whether the characters from a place on are a word, in letters of either case.
fn word_from(c: &Vec<char>, from: usize, word: &str) -> (r: bool)
    requires
        from <= c.len(),
    ensures
        r == is_word(c@.skip(from as int), word@),
{
    let w: Vec<char> = text::characters(word);
    let ghost body = c@.skip(from as int);
    if c.len() - from != w.len() {
        return false;
    }
    let mut i: usize = 0;
    while i < w.len()
        invariant
            i <= w.len(),
            w@ == word@,
            from + w.len() == c.len(),
            body == c@.skip(from as int),
            forall|j: int| 0 <= j < i ==> lower(#[trigger] body[j]) == w@[j],
        decreases w.len() - i,
    {
        let x: char = c[from + i];
        let y: char = if x >= 'A' && x <= 'Z' {
            (x as u8 + 32) as char
        } else {
            x
        };
        proof {
            assert(body[i as int] == x);
            assert(y == lower(x));
        }
        if y != w[i] {
            proof {
                assert(lower(body[i as int]) != word@[i as int]);
            }
            return false;
        }
        i = i + 1;
    }
    true
}

/// The natural number that a row of digits stands for.
fn big_from_digits(c: &Vec<char>) -> (r: Big)
    requires
        text::all_digits(c@),
    ensures
        r.value() == text::digits_value(c@),
{
    let mut r: Big = Big::from_u32(0);
    let mut i: usize = 0;
    while i < c.len()
        invariant
            i <= c.len(),
            text::all_digits(c@),
            r.value() == text::digits_value(c@.take(i as int)),
        decreases c.len() - i,
    {
        let d: char = c[i];
        proof {
            assert(text::is_digit(c@[i as int]));
            text::lemma_digits_value_step(c@, i as int);
        }
        r = r.mul_add(10, d as u32 - '0' as u32);
        i = i + 1;
    }
    proof {
        assert(c@.take(i as int) == c@);
    }
    r
}

/// A natural number times a power of ten.
fn scale_by_ten(n: Big, times: u128) -> (r: Big)
    ensures
        r.value() == n.value() * pow(10, times as nat),
{
    let ghost n0 = n.value();
    let mut r: Big = n;
    let mut i: u128 = 0;
    proof {
        lemma_pow0(10);
        assert(n0 * pow(10, 0) == n0) by (nonlinear_arith)
            requires
                pow(10, 0) == 1,
        ;
    }
    while i < times
        invariant
            i <= times,
            r.value() == n0 * pow(10, i as nat),
        decreases times - i,
    {
        proof {
            lemma_pow_adds(10, i as nat, 1);
            lemma_pow1(10);
            assert((n0 * pow(10, i as nat)) * 10 == n0 * pow(10, (i + 1) as nat))
                by (nonlinear_arith)
                requires
                    pow(10, (i + 1) as nat) == pow(10, i as nat) * 10,
            ;
        }
        r = r.mul_add(10, 0);
        i = i + 1;
    }
    r
}

/// Where an exponent that is written out stops being counted.
pub const EXPONENT_CAP: u128 = 0x1_0000_0000_0000_0000_0000_0000;

/// The value of the digits from a place on, or the cap where it is greater.
fn capped_digits(c: &Vec<char>, from: usize) -> (r: u128)
    requires
        from <= c.len(),
        text::all_digits(c@.skip(from as int)),
    ensures
        r <= EXPONENT_CAP,
        r < EXPONENT_CAP ==> r == text::digits_value(c@.skip(from as int)),
        r == EXPONENT_CAP ==> text::digits_value(c@.skip(from as int)) >= EXPONENT_CAP,
{
    let ghost body = c@.skip(from as int);
    let mut value: u128 = 0;
    let mut i: usize = from;
    while i < c.len()
        invariant
            from <= i <= c.len(),
            body == c@.skip(from as int),
            text::all_digits(body),
            value == text::digits_value(body.take(i - from)),
            value < EXPONENT_CAP,
        decreases c.len() - i,
    {
        let d: char = c[i];
        proof {
            assert(body[i - from] == d);
            text::lemma_digits_value_step(body, i - from);
        }
        value = value * 10 + (d as u32 - '0' as u32) as u128;
        i = i + 1;
        if value >= EXPONENT_CAP {
            proof {
                text::lemma_digits_value_prefix(body, i - from);
            }
            return EXPONENT_CAP;
        }
    }
    proof {
        assert(body.take(i - from) == body);
    }
    value
}

proof fn lemma_ten_powers(k: nat)
    ensures
        pow(10, k) >= pow2(3 * k),
        pow(10, k) > 0,
    decreases k,
{
    lemma_pow0(10);
    rounding::lemma_pow2_consts();
    if k > 0 {
        let j = (k - 1) as nat;
        lemma_ten_powers(j);
        lemma_pow_adds(10, j, 1);
        lemma_pow1(10);
        lemma_pow2_adds(3 * j, 3);
        lemma2_to64();
        let t = pow(10, j);
        let p = pow2(3 * j) as int;
        lemma_pow2_pos(3 * j);
        assert(t * 10 >= p * 8) by (nonlinear_arith)
            requires
                t >= p,
                p > 0,
        ;
    }
}

proof fn lemma_digits_below_power(s: Seq<char>)
    requires
        text::all_digits(s),
    ensures
        0 <= text::digits_value(s) < pow(10, s.len()),
    decreases s.len(),
{
    lemma_pow0(10);
    if s.len() > 0 {
        let j = (s.len() - 1) as nat;
        assert(text::is_digit(s.last()));
        lemma_digits_below_power(s.drop_last());
        lemma_pow_adds(10, j, 1);
        lemma_pow1(10);
        let t = pow(10, j);
        let v = text::digits_value(s.drop_last());
        assert(v * 10 + 10 <= t * 10) by (nonlinear_arith)
            requires
                v + 1 <= t,
        ;
    }
}

proof fn lemma_decimal_zero(exponent: int)
    ensures
        decimal_magnitude(0, exponent) == 0,
{
    if exponent >= 0 {
        assert(0 * pow(10, exponent as nat) * binary64::one() == 0) by (nonlinear_arith);
        lemma_round_underflow(0, 1);
    } else {
        lemma_ten_powers((-exponent) as nat);
        assert(0 * binary64::one() == 0);
        lemma_round_underflow(0, pow(10, (-exponent) as nat));
    }
}

/// A decimal number of at least ten to the power of 400 is out of range.
proof fn lemma_decimal_large(digits: int, exponent: int)
    requires
        digits >= 1,
        exponent >= 400,
    ensures
        decimal_magnitude(digits, exponent) == INFINITE,
{
    let e = exponent as nat;
    let t = pow(10, e);
    let o = binary64::one();
    lemma_ten_powers(e);
    rounding::lemma_pow2_monotone(1024, 3 * e);
    lemma_pow2_adds(1024, 1074);
    let p = pow2(1024) as int;
    lemma_pow2_pos(1024);
    lemma_pow2_pos(1074);
    assert(p * o <= digits * t * o) by (nonlinear_arith)
        requires
            digits >= 1,
            t >= p,
            p > 0,
            o > 0,
    {
        assert(p <= digits * t);
    }
    assert(1 * pow2(2098) == pow2(2098));
    lemma_round_overflow(digits * t * o, 1);
}

/// A decimal number below ten to the power of minus 400 is nothing.
proof fn lemma_decimal_small(digits: int, len: nat, exponent: int)
    requires
        0 <= digits < pow(10, len),
        exponent + len <= -400,
    ensures
        decimal_magnitude(digits, exponent) == 0,
{
    let e = (-exponent) as nat;
    let o = binary64::one();
    let gap = (e - len) as nat;
    lemma_pow_adds(10, len, gap);
    lemma_ten_powers(gap);
    lemma_ten_powers(len);
    rounding::lemma_pow2_monotone(1075, 3 * gap);
    lemma_pow2_unfold(1075);
    lemma_pow2_pos(1074);
    let tl = pow(10, len);
    let tg = pow(10, gap);
    assert(2 * (digits * o) < tl * tg) by (nonlinear_arith)
        requires
            0 <= digits < tl,
            2 * o <= tg,
            0 < o,
    {
        assert(digits * (2 * o) <= digits * tg);
        assert(digits * tg < tl * tg);
    }
    assert(0 <= digits * o) by (nonlinear_arith)
        requires
            0 <= digits,
            0 < o,
    ;
    lemma_round_underflow(digits * o, pow(10, e));
}

/// The pattern of the magnitude nearest to a row of digits scaled by a power of ten that may have
/// been cut off at a cap.
fn decimal_pattern(digits: &Vec<char>, exponent: i128, exact: Ghost<int>) -> (pattern: u64)
    requires
        text::all_digits(digits@),
        -0x2_0000_0000_0000_0000_0000_0000 <= exponent <= 0x2_0000_0000_0000_0000_0000_0000,
        exact@ != exponent ==> {
            ||| exact@ >= exponent && exponent >= 400
            ||| exact@ <= exponent && exponent + digits@.len() <= -400
        },
    ensures
        pattern == decimal_magnitude(text::digits_value(digits@), exact@),
        pattern <= INFINITE,
{
    let n: Big = big_from_digits(digits);
    proof {
        lemma_digits_below_power(digits@);
    }
    if n.is_zero() {
        proof {
            lemma_decimal_zero(exact@);
        }
        return 0;
    }
    if exponent >= 400 {
        proof {
            lemma_decimal_large(n.value(), exact@);
        }
        return INFINITE;
    }
    if exponent + digits.len() as i128 <= -400 {
        proof {
            lemma_decimal_small(n.value(), digits@.len(), exact@);
        }
        return 0;
    }
    let one: Big = Big::from_u32(1);
    if exponent >= 0 {
        proof {
            lemma_ten_powers(exponent as nat);
            let t = pow(10, exponent as nat);
            let v = n.value();
            assert(v * t > 0) by (nonlinear_arith)
                requires
                    v > 0,
                    t > 0,
            ;
        }
        let scaled: Big = scale_by_ten(n, exponent as u128);
        round_big(&scaled, &one)
    } else {
        let times: u128 = (-exponent) as u128;
        proof {
            lemma_ten_powers(times as nat);
            let t = pow(10, times as nat);
            assert(1 * t == t);
        }
        let scaled: Big = scale_by_ten(one, times);
        round_big(&n, &scaled)
    }
}

/// The digits of a whole part and of a fraction, in one row.
fn collect_digits(c: &Vec<char>, from: usize, point: usize, dotted: bool, end: usize) -> (r: Vec<
    char,
>)
    requires
        from <= point <= end <= c.len(),
        dotted ==> point < end,
        !dotted ==> point == end,
    ensures
        r@ == c@.subrange(from as int, point as int) + (if dotted {
            c@.subrange(point + 1, end as int)
        } else {
            Seq::empty()
        }),
{
    let mut r: Vec<char> = Vec::new();
    let mut i: usize = from;
    while i < point
        invariant
            from <= i <= point <= c.len(),
            r@ == c@.subrange(from as int, i as int),
        decreases point - i,
    {
        r.push(c[i]);
        i = i + 1;
        proof {
            assert(c@.subrange(from as int, i as int) == c@.subrange(from as int, i - 1).push(
                c@[i - 1],
            ));
        }
    }
    let ghost whole = r@;
    if dotted {
        let mut j: usize = point + 1;
        while j < end
            invariant
                point < j <= end <= c.len(),
                r@ == whole + c@.subrange(point + 1, j as int),
            decreases end - j,
        {
            r.push(c[j]);
            j = j + 1;
            proof {
                assert(c@.subrange(point + 1, j as int) == c@.subrange(point + 1, j - 1).push(
                    c@[j - 1],
                ));
                assert(r@ == whole + c@.subrange(point + 1, j as int));
            }
        }
    } else {
        proof {
            assert(r@ == whole + Seq::<char>::empty());
        }
    }
    r
}

/// Runs of digits in a text and in what is left of it behind a place.
proof fn lemma_digit_run_skip(s: Seq<char>, from: int, i: int)
    requires
        0 <= from <= i <= s.len(),
    ensures
        digit_run(s, i) == from + digit_run(s.skip(from), i - from),
    decreases s.len() - i,
{
    if i < s.len() {
        assert(s.skip(from)[i - from] == s[i]);
        if text::is_digit(s[i]) {
            lemma_digit_run_skip(s, from, i + 1);
        }
    }
}

/// The digits of a decimal number from a place on, how many of them stand behind the point, and
/// the place where they end.
fn scan_mantissa(c: &Vec<char>, from: usize) -> (r: (Vec<char>, usize, usize))
    requires
        from <= c.len(),
    ensures
        r.0@ == mantissa_digits(c@.skip(from as int)),
        text::all_digits(r.0@),
        r.1 == fraction_digits(c@.skip(from as int)).len(),
        r.2 == from + mantissa_end(c@.skip(from as int)),
        from <= r.2 <= c.len(),
        r.1 <= r.0@.len(),
{
    let ghost s = c@.skip(from as int);
    let point: usize = find_digit_run(c, from);
    proof {
        lemma_digit_run_skip(c@, from as int, from as int);
        lemma_digit_run(c@, from as int);
    }
    let dotted = point < c.len() && c[point] == '.';
    let end: usize = if dotted {
        find_digit_run(c, point + 1)
    } else {
        point
    };
    proof {
        if dotted {
            lemma_digit_run_skip(c@, from as int, point + 1);
            lemma_digit_run(c@, point + 1);
        }
    }
    let digits: Vec<char> = collect_digits(c, from, point, dotted, end);
    proof {
        assert(c@.subrange(from as int, point as int) == s.take(point - from));
        if dotted {
            assert(c@.subrange(point + 1, end as int) == s.subrange(
                point - from + 1,
                end - from,
            ));
        }
        assert forall|i: int| 0 <= i < digits@.len() implies text::is_digit(
            #[trigger] digits@[i],
        ) by {
            if i < point - from {
                assert(digits@[i] == c@[from + i]);
            } else {
                assert(digits@[i] == c@[point + 1 + (i - (point - from))]);
            }
        }
    }
    let fraction: usize = if dotted {
        end - point - 1
    } else {
        0
    };
    (digits, fraction, end)
}

/// The exponent written from a place on, cut off at the cap.
fn scan_exponent(c: &Vec<char>, from: usize, at: usize) -> (r: Option<i128>)
    requires
        from <= at <= c.len(),
    ensures
        match written_exponent(c@.skip(from as int), at - from) {
            None => r is None,
            Some(power) => r matches Some(x) && -EXPONENT_CAP <= x <= EXPONENT_CAP && (x == power
                || (x == EXPONENT_CAP && power >= x) || (x == -EXPONENT_CAP && power <= x)),
        },
{
    if at == c.len() {
        return Some(0);
    }
    let ghost s = c@.skip(from as int);
    proof {
        assert(s[at - from] == c@[at as int]);
        if at + 1 < c.len() {
            assert(s[at - from + 1] == c@[at + 1]);
        }
    }
    if c[at] != 'e' && c[at] != 'E' {
        return None;
    }
    let signed = at + 1 < c.len() && (c[at + 1] == '+' || c[at + 1] == '-');
    let negative = at + 1 < c.len() && c[at + 1] == '-';
    let start: usize = if signed {
        at + 2
    } else {
        at + 1
    };
    if start >= c.len() {
        return None;
    }
    let stop: usize = find_digit_run(c, start);
    proof {
        lemma_digit_run_skip(c@, from as int, start as int);
        lemma_digit_run(c@, start as int);
        assert(c@.skip(start as int) == s.skip(start - from));
    }
    if stop != c.len() {
        return None;
    }
    proof {
        assert forall|i: int| 0 <= i < c@.skip(start as int).len() implies text::is_digit(
            #[trigger] c@.skip(start as int)[i],
        ) by {
            assert(c@.skip(start as int)[i] == c@[start + i]);
        }
    }
    let power: u128 = capped_digits(c, start);
    if negative {
        Some(-(power as i128))
    } else {
        Some(power as i128)
    }
}

/// Reads an unsigned decimal number from a place on.
fn decimal_from(c: &Vec<char>, from: usize) -> (r: Option<u64>)
    requires
        from <= c.len(),
    ensures
        match decimal_parts(c@.skip(from as int)) {
            None => r is None,
            Some((digits, exponent)) => r matches Some(pattern) && pattern == decimal_magnitude(
                text::digits_value(digits),
                exponent,
            ) && pattern <= INFINITE,
        },
{
    let ghost s = c@.skip(from as int);
    let (digits, fraction, end) = scan_mantissa(c, from);
    if digits.len() == 0 {
        return None;
    }
    match scan_exponent(c, from, end) {
        None => None,
        Some(power) => {
            let exponent: i128 = power - fraction as i128;
            let ghost exact = written_exponent(s, mantissa_end(s))->0 - fraction;
            let pattern: u64 = decimal_pattern(&digits, exponent, Ghost(exact));
            Some(pattern)
        },
    }
}

/// Reads a number.
pub fn parse_number(s: &str) -> (r: Option<Binary64>)
    ensures
        r == number_text(s@),
{
    let c: Vec<char> = text::characters(s);
    let negative = c.len() > 0 && c[0] == '-';
    let from: usize = if c.len() > 0 && (c[0] == '+' || c[0] == '-') {
        1
    } else {
        0
    };
    proof {
        assert(s@.skip(0) == s@);
    }
    if word_from(&c, from, "inf") || word_from(&c, from, "infinity") {
        let r = Binary64::from_sign_and_magnitude(negative, INFINITE);
        return Some(r);
    }
    if word_from(&c, from, "nan") {
        let r = Binary64::from_sign_and_magnitude(negative, 0x7FF8_0000_0000_0000);
        return Some(r);
    }
    match decimal_from(&c, from) {
        None => None,
        Some(pattern) => {
            let r = Binary64::from_sign_and_magnitude(negative, pattern);
            Some(r)
        },
    }
}

} // verus!
