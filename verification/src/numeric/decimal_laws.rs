//! What a decimal text is worth.

use crate::numeric::binary64;
use crate::numeric::binary64::Binary64;
use crate::numeric::decimal;
use crate::numeric::order;
use crate::numeric::rounding::INFINITE;
use crate::text;
use vstd::arithmetic::power::*;
use vstd::arithmetic::power2::*;
use vstd::prelude::*;

verus! {

/// A number as it is written without its sign: digits, and behind a point more digits.
pub open spec fn written(whole: Seq<char>, point: bool, fraction: Seq<char>) -> Seq<char> {
    if point {
        whole + seq!['.'] + fraction
    } else {
        whole
    }
}

/// A power of ten as it is written behind a number: nothing at all, or a letter, a sign and digits.
pub open spec fn scale(falls: bool, power: Seq<char>) -> Seq<char> {
    if power.len() == 0 {
        Seq::empty()
    } else if falls {
        seq!['e', '-'] + power
    } else {
        seq!['e'] + power
    }
}

/// A row of digits ends where it does.
proof fn lemma_run_to(s: Seq<char>, from: int, to: int)
    requires
        0 <= from <= to <= s.len(),
        forall|i: int| from <= i < to ==> text::is_digit(#[trigger] s[i]),
        to < s.len() ==> !text::is_digit(s[to]),
    ensures
        decimal::digit_run(s, from) == to,
    decreases to - from,
{
    if from < to {
        assert(text::is_digit(s[from]));
        lemma_run_to(s, from + 1, to);
    }
}

/// The parts of a number that is written out.
proof fn lemma_parts(
    whole: Seq<char>,
    point: bool,
    fraction: Seq<char>,
    falls: bool,
    power: Seq<char>,
)
    requires
        text::all_digits(whole),
        text::all_digits(fraction),
        text::all_digits(power),
        whole.len() + fraction.len() > 0,
        !point ==> fraction.len() == 0,
    ensures
        decimal::decimal_parts(written(whole, point, fraction) + scale(falls, power)) == Some(
            (
                whole + fraction,
                (if falls {
                    -text::digits_value(power)
                } else {
                    text::digits_value(power)
                }) - fraction.len(),
            ),
        ),
{
    let head = written(whole, point, fraction);
    let tail = scale(falls, power);
    let s = head + tail;
    let n = whole.len() as int;
    let end = head.len() as int;
    assert forall|i: int| 0 <= i < n implies text::is_digit(#[trigger] s[i]) by {
        assert(s[i] == whole[i]);
    }
    if tail.len() > 0 {
        assert(s[end] == 'e');
    }
    if point {
        assert(s[n] == '.');
    }
    lemma_run_to(s, 0, n);
    if point {
        assert forall|i: int| n + 1 <= i < end implies text::is_digit(#[trigger] s[i]) by {
            assert(s[i] == fraction[i - n - 1]);
        }
        lemma_run_to(s, n + 1, end);
        assert(s.subrange(n + 1, end) =~= fraction);
    }
    assert(decimal::mantissa_end(s) == end);
    assert(decimal::fraction_digits(s) =~= fraction);
    assert(s.take(n) =~= whole);
    assert(decimal::mantissa_digits(s) =~= whole + fraction);
    if power.len() == 0 {
        assert(text::digits_value(power) == 0);
        assert(decimal::written_exponent(s, end) == Some(0int));
    } else {
        let start = if falls {
            end + 2
        } else {
            end + 1
        };
        assert(text::is_digit(power[0]));
        if falls {
            assert(s[end + 1] == '-');
        } else {
            assert(s[end + 1] == power[0]);
        }
        assert forall|i: int| start <= i < s.len() implies text::is_digit(#[trigger] s[i]) by {
            assert(s[i] == power[i - start]);
        }
        lemma_run_to(s, start, s.len() as int);
        assert(s.skip(start) =~= power);
    }
}

/// A number with a sign and a magnitude that is not beyond infinity has that key.
proof fn lemma_made(negative: bool, m: int)
    requires
        0 <= m <= INFINITE,
    ensures
        Binary64::make(negative, m).negative() == negative,
        Binary64::make(negative, m).key() == (if negative {
            -m
        } else {
            m
        }),
{
}

/// A decimal text is worth what its digits say: the digits before and behind the point together, divided
/// by ten for each digit behind the point, times the power of ten that is written, with its sign. The
/// number that is read is within half a step of that, where steps of `2^k` units are enough.
pub proof fn lemma_decimal_is_read(
    negative: bool,
    whole: Seq<char>,
    point: bool,
    fraction: Seq<char>,
    falls: bool,
    power: Seq<char>,
    k: nat,
)
    requires
        text::all_digits(whole),
        text::all_digits(fraction),
        text::all_digits(power),
        whole.len() + fraction.len() > 0,
        !point ==> fraction.len() == 0,
        k <= 2043,
        ({
            let v = text::digits_value(whole + fraction) * binary64::one();
            let e = (if falls {
                -text::digits_value(power)
            } else {
                text::digits_value(power)
            }) - fraction.len();
            if e >= 0 {
                v * pow(10, e as nat) < pow2(53 + k)
            } else {
                v < pow(10, (-e) as nat) * pow2(53 + k)
            }
        }),
    ensures
        ({
            let body = written(whole, point, fraction) + scale(falls, power);
            let s = if negative {
                seq!['-'] + body
            } else {
                body
            };
            let x = decimal::number_text(s);
            let u = if negative {
                -x->0.units()
            } else {
                x->0.units()
            };
            let v = text::digits_value(whole + fraction) * binary64::one();
            let e = (if falls {
                -text::digits_value(power)
            } else {
                text::digits_value(power)
            }) - fraction.len();
            &&& x is Some
            &&& x->0.finite()
            &&& x->0.negative() == negative
            &&& e >= 0 ==> -pow2(k) <= 2 * (u - v * pow(10, e as nat)) <= pow2(k)
            &&& e < 0 ==> -(pow(10, (-e) as nat) * pow2(k)) <= 2 * (pow(10, (-e) as nat) * u - v)
                <= pow(10, (-e) as nat) * pow2(k)
        }),
{
    let body = written(whole, point, fraction) + scale(falls, power);
    let s = if negative {
        seq!['-'] + body
    } else {
        body
    };
    let o = binary64::one();
    let digits = text::digits_value(whole + fraction);
    let e = (if falls {
        -text::digits_value(power)
    } else {
        text::digits_value(power)
    }) - fraction.len();
    lemma_parts(whole, point, fraction, falls, power);
    if whole.len() > 0 {
        assert(text::is_digit(whole[0]));
        assert(body[0] == whole[0]);
    } else {
        assert(body[0] == '.');
    }
    if negative {
        assert(s[0] == '-');
        assert(s.skip(1) =~= body);
    }
    reveal_strlit("inf");
    reveal_strlit("infinity");
    reveal_strlit("nan");
    assert(decimal::lower(body[0]) == body[0]);
    assert("inf"@[0] == 'i' && "infinity"@[0] == 'i' && "nan"@[0] == 'n');
    assert(!decimal::is_word(body, "inf"@) && !decimal::is_word(body, "infinity"@)
        && !decimal::is_word(body, "nan"@));
    assert forall|i: int| 0 <= i < (whole + fraction).len() implies text::is_digit(
        #[trigger] (whole + fraction)[i],
    ) by {
        if i < whole.len() {
            assert((whole + fraction)[i] == whole[i]);
        } else {
            assert((whole + fraction)[i] == fraction[i - whole.len()]);
        }
    }
    text::lemma_digits_value_nonnegative(whole + fraction);
    lemma_pow2_pos(1074);
    let v = digits * o;
    let n = if e >= 0 {
        digits * pow(10, e as nat) * o
    } else {
        v
    };
    let d = if e >= 0 {
        1
    } else {
        pow(10, (-e) as nat)
    };
    if e >= 0 {
        lemma_pow_positive(10, e as nat);
        assert(n == v * pow(10, e as nat)) by (nonlinear_arith)
            requires
                n == digits * pow(10, e as nat) * o,
                v == digits * o,
        ;
        assert(0 <= n) by (nonlinear_arith)
            requires
                n == digits * pow(10, e as nat) * o,
                0 <= digits,
                0 < pow(10, e as nat),
                0 < o,
        {
            assert(0 <= digits * pow(10, e as nat));
        }
        assert(1 * pow2(53 + k) == pow2(53 + k) && 1 * pow2(k) == pow2(k));
    } else {
        lemma_pow_positive(10, (-e) as nat);
        assert(0 <= n) by (nonlinear_arith)
            requires
                n == digits * o,
                0 <= digits,
                0 < o,
        ;
    }
    let m = decimal::decimal_magnitude(digits, e);
    let x = Binary64::make(negative, m);
    assert(m == order::nearest_key(n, d));
    order::lemma_zero(x);
    order::lemma_own_key(Binary64::whole(0));
    assert(0 * d <= n * 1);
    order::lemma_nearest_order(0, 1, n, d);
    lemma_made(negative, m);
    assert(decimal::number_text(s) == Some(x));
    let w = if negative {
        -n
    } else {
        n
    };
    if n == 0 {
        assert(n * 1 <= 0 * d);
        order::lemma_nearest_order(n, d, 0, 1);
    }
    assert(x.key() == order::nearest_key(w, d));
    assert(0 <= d * pow2(53 + k)) by (nonlinear_arith)
        requires
            0 < d,
    ;
    order::lemma_nearest_error(x, w, d, k);
    let u = if negative {
        -x.units()
    } else {
        x.units()
    };
    assert(d * (-u) == -(d * u)) by (nonlinear_arith);
    assert(1 * u == u && 1 * (-u) == -u);
}

/// A text is no number where it is empty, or where what follows its sign begins with none of a digit, a
/// point, and the letters of an infinity and of what is not a number.
pub proof fn lemma_no_number_is_read(s: Seq<char>)
    requires
        ({
            let from = if s.len() > 0 && (s[0] == '+' || s[0] == '-') {
                1int
            } else {
                0
            };
            s.len() == from || !(text::is_digit(s[from]) || s[from] == '.' || s[from] == 'i' || s[from]
                == 'I' || s[from] == 'n' || s[from] == 'N')
        }),
    ensures
        decimal::number_text(s) is None,
{
    let from = if s.len() > 0 && (s[0] == '+' || s[0] == '-') {
        1int
    } else {
        0
    };
    let body = if from == 1 {
        s.skip(1)
    } else {
        s
    };
    reveal_strlit("inf");
    reveal_strlit("infinity");
    reveal_strlit("nan");
    assert("inf"@.len() == 3 && "infinity"@.len() == 8 && "nan"@.len() == 3);
    assert("inf"@[0] == 'i' && "infinity"@[0] == 'i' && "nan"@[0] == 'n');
    if body.len() > 0 {
        assert(body[0] == s[from]);
        assert(decimal::lower(body[0]) != 'i' && decimal::lower(body[0]) != 'n');
    }
    assert(!decimal::is_word(body, "inf"@) && !decimal::is_word(body, "infinity"@)
        && !decimal::is_word(body, "nan"@));
    assert(decimal::digit_run(body, 0) == 0);
    assert(decimal::mantissa_digits(body).len() == 0);
}

} // verus!
