//! Texts: equality, joining, and whole numbers in decimal.

use vstd::prelude::*;
use vstd::string::*;

verus! {

/// Whether two texts are the same.
pub fn same_text(a: &str, b: &str) -> (r: bool)
    ensures
        r == (a@ == b@),
{
    a.to_owned() == b.to_owned()
}

/// Two texts, one after the other.
pub fn join(a: &str, b: &str) -> (r: String)
    ensures
        r@ == a@ + b@,
{
    let mut r: String = a.to_owned();
    r.append(b);
    r
}

/// The characters of a text.
pub fn characters(s: &str) -> (r: Vec<char>)
    ensures
        r@ == s@,
{
    let n: usize = s.unicode_len();
    let mut r: Vec<char> = Vec::new();
    let mut i: usize = 0;
    while i < n
        invariant
            i <= n,
            n == s@.len(),
            r@ == s@.take(i as int),
        decreases n - i,
    {
        r.push(s.get_char(i));
        i = i + 1;
        proof {
            assert(s@.take(i as int) == s@.take(i - 1).push(s@[i - 1]));
        }
    }
    proof {
        assert(s@.take(n as int) == s@);
    }
    r
}

/// What `str::to_lowercase` gives.
pub uninterp spec fn lower_case(s: Seq<char>) -> Seq<char>;

/// What `str::to_uppercase` gives.
pub uninterp spec fn upper_case(s: Seq<char>) -> Seq<char>;

/// What `str::trim` gives.
pub uninterp spec fn trimmed(s: Seq<char>) -> Seq<char>;

/// The lower-case form of a text by `str::to_lowercase`, which depends on the text alone. Its rules
/// are Unicode's and are not restated.
#[verifier::external_body]
pub(crate) fn to_lower_case(s: &str) -> (r: String)
    ensures
        r@ == lower_case(s@),
{
    s.to_lowercase()
}

/// The upper-case form of a text by `str::to_uppercase`, which depends on the text alone. Its rules
/// are Unicode's and are not restated.
#[verifier::external_body]
pub(crate) fn to_upper_case(s: &str) -> (r: String)
    ensures
        r@ == upper_case(s@),
{
    s.to_uppercase()
}

/// A text without the white space at its ends by `str::trim`, which depends on the text alone.
/// What white space is, Unicode says.
#[verifier::external_body]
pub(crate) fn trim(s: &str) -> (r: &str)
    ensures
        r@ == trimmed(s@),
{
    s.trim()
}

/// Whether a character is a decimal digit.
pub open spec fn is_digit(c: char) -> bool {
    '0' <= c <= '9'
}

/// The value of a decimal digit.
pub open spec fn digit_value(c: char) -> int {
    c as int - '0' as int
}

/// Whether a text has no characters but digits.
pub open spec fn all_digits(s: Seq<char>) -> bool {
    forall|i: int| 0 <= i < s.len() ==> is_digit(#[trigger] s[i])
}

/// The value of a row of decimal digits.
pub open spec fn digits_value(s: Seq<char>) -> int
    decreases s.len(),
{
    if s.len() == 0 {
        0
    } else {
        digits_value(s.drop_last()) * 10 + digit_value(s.last())
    }
}

/// A whole number in decimal, without leading zeros.
pub open spec fn decimal(n: int) -> Seq<char>
    decreases n,
{
    if n < 10 {
        seq![(48 + n) as char]
    } else {
        decimal(n / 10).push((48 + n % 10) as char)
    }
}

/// What a text is as an unsigned 64-bit number: digits, after a plus sign or none.
pub open spec fn unsigned_text(s: Seq<char>) -> Option<u64> {
    let body = if s.len() > 0 && s[0] == '+' {
        s.skip(1)
    } else {
        s
    };
    if body.len() == 0 || !all_digits(body) || digits_value(body) > u64::MAX {
        None
    } else {
        Some(digits_value(body) as u64)
    }
}

/// What a text is as a signed 64-bit number: digits, after a sign or none.
pub open spec fn signed_text(s: Seq<char>) -> Option<i64> {
    let negative = s.len() > 0 && s[0] == '-';
    let body = if s.len() > 0 && (s[0] == '+' || s[0] == '-') {
        s.skip(1)
    } else {
        s
    };
    let value = if negative {
        -digits_value(body)
    } else {
        digits_value(body)
    };
    if body.len() == 0 || !all_digits(body) || value > i64::MAX || value < i64::MIN {
        None
    } else {
        Some(value as i64)
    }
}

/// A digit more is ten times the value and the digit.
pub proof fn lemma_digits_value_step(s: Seq<char>, i: int)
    requires
        0 <= i < s.len(),
    ensures
        digits_value(s.take(i + 1)) == digits_value(s.take(i)) * 10 + digit_value(s[i]),
{
    assert(s.take(i + 1).drop_last() == s.take(i));
}

/// Digits write no negative number.
pub proof fn lemma_digits_value_nonnegative(s: Seq<char>)
    requires
        all_digits(s),
    ensures
        digits_value(s) >= 0,
    decreases s.len(),
{
    if s.len() > 0 {
        assert(is_digit(s.last()));
        lemma_digits_value_nonnegative(s.drop_last());
    }
}

/// A row of digits is worth at least each of its beginnings.
pub proof fn lemma_digits_value_prefix(s: Seq<char>, i: int)
    requires
        all_digits(s),
        0 <= i <= s.len(),
    ensures
        digits_value(s.take(i)) <= digits_value(s),
    decreases s.len() - i,
{
    if i == s.len() {
        assert(s.take(i) == s);
    } else {
        assert(is_digit(s[i]));
        lemma_digits_value_step(s, i);
        assert(all_digits(s.take(i)));
        lemma_digits_value_nonnegative(s.take(i));
        lemma_digits_value_prefix(s, i + 1);
    }
}

/// The value of the digits from a place on, if there is one that fits.
fn digits_from(c: &Vec<char>, from: usize) -> (r: Option<u64>)
    requires
        from <= c.len(),
    ensures
        r == (if from == c.len() || !all_digits(c@.skip(from as int)) || digits_value(
            c@.skip(from as int),
        ) > u64::MAX {
            None::<u64>
        } else {
            Some(digits_value(c@.skip(from as int)) as u64)
        }),
{
    let ghost body = c@.skip(from as int);
    if from == c.len() {
        return None;
    }
    let mut value: u128 = 0;
    let mut i: usize = from;
    while i < c.len()
        invariant
            from <= i <= c.len(),
            body == c@.skip(from as int),
            all_digits(body.take(i - from)),
            value == digits_value(body.take(i - from)),
            value <= u64::MAX,
        decreases c.len() - i,
    {
        let d: char = c[i];
        proof {
            assert(body[i - from] == d);
            lemma_digits_value_step(body, i - from);
        }
        if d < '0' || d > '9' {
            proof {
                assert(!is_digit(body[i - from]));
            }
            return None;
        }
        value = value * 10 + (d as u32 - '0' as u32) as u128;
        i = i + 1;
        proof {
            assert forall|j: int| 0 <= j < body.take(i - from).len() implies is_digit(
                #[trigger] body.take(i - from)[j],
            ) by {
                if j < i - from - 1 {
                    assert(is_digit(body.take(i - from - 1)[j]));
                }
            }
        }
        if value > u64::MAX as u128 {
            proof {
                if all_digits(body) {
                    lemma_digits_value_prefix(body, i - from);
                }
            }
            return None;
        }
    }
    proof {
        assert(body.take(i - from) == body);
    }
    Some(value as u64)
}

/// Reads an unsigned 64-bit number.
pub fn parse_u64(s: &str) -> (r: Option<u64>)
    ensures
        r == unsigned_text(s@),
{
    let c: Vec<char> = characters(s);
    proof {
        assert(s@.skip(0) == s@);
    }
    if c.len() > 0 && c[0] == '+' {
        digits_from(&c, 1)
    } else {
        digits_from(&c, 0)
    }
}

/// Reads a signed 64-bit number.
pub fn parse_i64(s: &str) -> (r: Option<i64>)
    ensures
        r == signed_text(s@),
{
    let c: Vec<char> = characters(s);
    proof {
        assert(s@.skip(0) == s@);
        if all_digits(s@.skip(1)) {
            lemma_digits_value_nonnegative(s@.skip(1));
        }
        if all_digits(s@) {
            lemma_digits_value_nonnegative(s@);
        }
    }
    let negative = c.len() > 0 && c[0] == '-';
    let from: usize = if c.len() > 0 && (c[0] == '+' || c[0] == '-') {
        1
    } else {
        0
    };
    match digits_from(&c, from) {
        None => None,
        Some(v) => if negative {
            if v <= i64::MAX as u64 {
                Some(-(v as i64))
            } else if v == 0x8000_0000_0000_0000 {
                Some(i64::MIN)
            } else {
                None
            }
        } else if v <= i64::MAX as u64 {
            Some(v as i64)
        } else {
            None
        },
    }
}

/// One decimal digit.
fn digit_text(d: u64) -> (r: &'static str)
    requires
        d < 10,
    ensures
        r@ == seq![(48 + d) as char],
{
    proof {
        reveal_strlit("0");
        reveal_strlit("1");
        reveal_strlit("2");
        reveal_strlit("3");
        reveal_strlit("4");
        reveal_strlit("5");
        reveal_strlit("6");
        reveal_strlit("7");
        reveal_strlit("8");
        reveal_strlit("9");
    }
    if d == 0 {
        "0"
    } else if d == 1 {
        "1"
    } else if d == 2 {
        "2"
    } else if d == 3 {
        "3"
    } else if d == 4 {
        "4"
    } else if d == 5 {
        "5"
    } else if d == 6 {
        "6"
    } else if d == 7 {
        "7"
    } else if d == 8 {
        "8"
    } else {
        "9"
    }
}

/// A whole number in decimal.
pub fn decimal_text(n: u64) -> (r: String)
    ensures
        r@ == decimal(n as int),
    decreases n,
{
    if n < 10 {
        digit_text(n).to_owned()
    } else {
        let mut r: String = decimal_text(n / 10);
        r.append(digit_text(n % 10));
        proof {
            assert(decimal(n as int) == decimal(n as int / 10) + seq![(48 + n % 10) as char]);
        }
        r
    }
}

/// A number that is written in decimal reads as itself.
pub proof fn lemma_decimal_reads_back(n: u64)
    ensures
        unsigned_text(decimal(n as int)) == Some(n),
{
    lemma_decimal_digits(n as int);
    let s = decimal(n as int);
    assert(is_digit(s[0]));
}

/// A number of either sign that is written out, with a minus where it is negative, reads back.
pub proof fn lemma_signed_reads_back(n: i64)
    ensures
        signed_text(
            if n < 0 {
                seq!['-'] + decimal(-n)
            } else {
                decimal(n as int)
            },
        ) == Some(n),
{
    let m: int = if n < 0 {
        -n
    } else {
        n as int
    };
    let s = decimal(m);
    lemma_decimal_digits(m);
    assert(is_digit(s[0]));
    if n < 0 {
        assert((seq!['-'] + s)[0] == '-');
        assert((seq!['-'] + s).skip(1) =~= s);
    }
}

proof fn lemma_decimal_digits(n: int)
    requires
        0 <= n,
    ensures
        decimal(n).len() > 0,
        all_digits(decimal(n)),
        digits_value(decimal(n)) == n,
    decreases n,
{
    if n < 10 {
        let s = decimal(n);
        assert(s.drop_last() == Seq::<char>::empty());
        assert(digits_value(s.drop_last()) == 0);
    } else {
        lemma_decimal_digits(n / 10);
        let s = decimal(n);
        assert(s.drop_last() == decimal(n / 10));
        assert forall|i: int| 0 <= i < s.len() implies is_digit(#[trigger] s[i]) by {
            if i < s.len() - 1 {
                assert(is_digit(decimal(n / 10)[i]));
            }
        }
    }
}

} // verus!
