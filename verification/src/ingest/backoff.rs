//! How long to wait before a feed is tried again.

use crate::numeric::binary64;
use crate::numeric::binary64::Binary64;
use crate::numeric::laws;
use crate::numeric::order;
use crate::numeric::rounding;
use vstd::arithmetic::div_mod::*;
use vstd::arithmetic::power2::*;
use vstd::prelude::*;

verus! {

/// The wait after the first failure, in milliseconds.
pub const FIRST_BACKOFF_MS: u64 = 100;

/// The longest wait, in milliseconds.
pub const MAX_BACKOFF_MS: u64 = 30_000;

/// The wait after another failure: twice as long, up to the longest.
pub open spec fn following(backoff_ms: int) -> int {
    if 2 * backoff_ms <= MAX_BACKOFF_MS {
        2 * backoff_ms
    } else {
        MAX_BACKOFF_MS as int
    }
}

/// The wait after another failure: twice as long, up to the longest.
pub fn next_backoff(backoff_ms: u64) -> (r: u64)
    requires
        2 * backoff_ms <= u64::MAX,
    ensures
        r == following(backoff_ms as int),
        FIRST_BACKOFF_MS <= backoff_ms <= MAX_BACKOFF_MS ==> FIRST_BACKOFF_MS <= r
            <= MAX_BACKOFF_MS && backoff_ms <= r,
{
    if backoff_ms * 2 <= MAX_BACKOFF_MS {
        backoff_ms * 2
    } else {
        MAX_BACKOFF_MS
    }
}

/// The wait after a poll: the first one again where the poll went well, so that a passing failure
/// does not starve the feed, and else the following one.
pub fn after_poll(succeeded: bool, backoff_ms: u64) -> (r: u64)
    requires
        2 * backoff_ms <= u64::MAX,
    ensures
        r == (if succeeded {
            FIRST_BACKOFF_MS as int
        } else {
            following(backoff_ms as int)
        }),
{
    if succeeded {
        FIRST_BACKOFF_MS
    } else {
        next_backoff(backoff_ms)
    }
}

/// A wait that is scaled by a factor, in whole milliseconds.
pub open spec fn scaled(base: int, factor: Binary64) -> int {
    Binary64::whole(base).product(factor).truncated()
}

/// A wait, scaled by a factor that was drawn at random.
pub fn jitter(base: u64, factor: Binary64) -> (r: u64)
    ensures
        r == scaled(base as int, factor),
{
    Binary64::from_u64(base).mul(factor).to_u64()
}

proof fn lemma_truncated_increases(a: Binary64, b: Binary64)
    requires
        !a.negative(),
        !b.negative(),
        a.at_most(b),
    ensures
        a.truncated() <= b.truncated(),
{
    lemma_pow2_pos(1074);
    if !b.infinite() {
        if a.magnitude() < b.magnitude() {
            binary64::lemma_units_increase(a.magnitude(), b.magnitude());
        }
        lemma_div_is_ordered(
            binary64::magnitude_units(a.magnitude()),
            binary64::magnitude_units(b.magnitude()),
            binary64::one(),
        );
    }
}

/// A greater factor never makes a wait shorter.
pub proof fn lemma_jitter_follows_the_factor(base: u64, low: Binary64, high: Binary64)
    requires
        low.finite() && !low.negative(),
        high.finite() && !high.negative(),
        low.at_most(high),
        base < 0x10_0000_0000_0000,
    ensures
        scaled(base as int, low) <= scaled(base as int, high),
{
    laws::lemma_whole_exact(base as int);
    let b = Binary64::whole(base as int);
    let ub = binary64::magnitude_units(b.magnitude());
    let ul = binary64::magnitude_units(low.magnitude());
    let uh = binary64::magnitude_units(high.magnitude());
    let o = binary64::one();
    lemma_pow2_pos(1074);
    binary64::lemma_small_units(0);
    if low.magnitude() > 0 {
        binary64::lemma_units_increase(0, low.magnitude());
    }
    if low.magnitude() < high.magnitude() {
        binary64::lemma_units_increase(low.magnitude(), high.magnitude());
    }
    assert(0 <= ub) by (nonlinear_arith)
        requires
            ub == base * o,
            0 <= base,
            0 < o,
    ;
    assert(0 <= ub * ul <= ub * uh) by (nonlinear_arith)
        requires
            0 <= ub,
            0 <= ul <= uh,
    ;
    laws::lemma_round_monotone(ub * ul, ub * uh, o);
    lemma_truncated_increases(b.product(low), b.product(high));
}

/// A factor of one leaves a wait as it is.
pub proof fn lemma_jitter_of_one(base: u64)
    requires
        base < 0x10_0000_0000_0000,
    ensures
        scaled(base as int, Binary64::whole(1)) == base,
{
    laws::lemma_whole_exact(base as int);
    laws::lemma_whole_exact(1);
    let o = binary64::one();
    lemma_pow2_pos(1074);
    let b = Binary64::whole(base as int);
    let one = Binary64::whole(1);
    assert(1 * o == o);
    let u = base * o;
    assert(0 <= u) by (nonlinear_arith)
        requires
            u == base * o,
            0 <= base,
            0 < o,
    ;
    rounding::lemma_round_scale(u, 1, o);
    laws::lemma_round_units(b.magnitude());
    assert(b.product(one) == b);
    lemma_div_multiples_vanish(base as int, o);
    assert(o * base == base * o) by (nonlinear_arith);
}

/// A wait whose fifth is whole stays within a fifth of itself for every factor from 0.8 to 1.2.
pub proof fn lemma_jitter_within_a_fifth(base: u64, factor: Binary64)
    requires
        base <= MAX_BACKOFF_MS,
        base % 5 == 0,
        Binary64::ratio(8, 10).at_most(factor),
        factor.at_most(Binary64::ratio(12, 10)),
    ensures
        4 * base <= 5 * scaled(base as int, factor) <= 6 * base,
{
    let o = binary64::one();
    lemma_pow2_pos(1074);
    order::lemma_literals();
    binary64::lemma_order(Binary64::ratio(8, 10), factor);
    binary64::lemma_order(factor, Binary64::ratio(12, 10));
    let low = (base / 5) * 4;
    let high = (base / 5) * 6;
    let b = Binary64::whole(base as int);
    laws::lemma_whole_exact(base as int);
    laws::lemma_whole_exact(low as int);
    laws::lemma_whole_exact(high as int);
    let f = factor.units();
    let p = (base * o) * f;
    order::lemma_product_key(b, factor);
    order::lemma_own_key(Binary64::whole(low as int));
    order::lemma_own_key(Binary64::whole(high as int));
    assert((low * o) * o <= p * 1 && p * 1 <= (high * o) * o) by (nonlinear_arith)
        requires
            p == (base * o) * f,
            8 * o <= 10 * f <= 12 * o,
            5 * low == 4 * base,
            5 * high == 6 * base,
            0 < o,
    ;
    order::lemma_nearest_order(low * o, 1, p, o);
    order::lemma_nearest_order(p, o, high * o, 1);
    laws::lemma_truncated_at_least(b.product(factor), low as int);
    laws::lemma_truncated_at_most(b.product(factor), high as int);
}

/// The wait after a number of failures in a row.
pub open spec fn wait_after(failures: nat) -> int
    decreases failures,
{
    if failures == 0 {
        FIRST_BACKOFF_MS as int
    } else {
        following(wait_after((failures - 1) as nat))
    }
}

/// The waits double from the first up to the longest, and each is slept for within a fifth of it,
/// whichever factor from 0.8 to 1.2 was drawn.
pub proof fn lemma_waits_double(failures: nat, factor: Binary64)
    requires
        Binary64::ratio(8, 10).at_most(factor),
        factor.at_most(Binary64::ratio(12, 10)),
    ensures
        ({
            let wait = wait_after(failures);
            let row = FIRST_BACKOFF_MS * pow2(failures);
            &&& wait == (if row <= MAX_BACKOFF_MS {
                row
            } else {
                MAX_BACKOFF_MS as int
            })
            &&& 4 * wait <= 5 * scaled(wait, factor) <= 6 * wait
        }),
{
    lemma_wait_after(failures);
    lemma_jitter_within_a_fifth(wait_after(failures) as u64, factor);
}

proof fn lemma_wait_after(failures: nat)
    ensures
        wait_after(failures) == (if FIRST_BACKOFF_MS * pow2(failures) <= MAX_BACKOFF_MS {
            FIRST_BACKOFF_MS * pow2(failures)
        } else {
            MAX_BACKOFF_MS as int
        }),
        FIRST_BACKOFF_MS <= wait_after(failures) <= MAX_BACKOFF_MS,
        wait_after(failures) % 5 == 0,
    decreases failures,
{
    lemma2_to64();
    if failures > 0 {
        lemma_wait_after((failures - 1) as nat);
        lemma_pow2_unfold(failures);
        lemma_pow2_pos(failures);
    }
}

} // verus!
