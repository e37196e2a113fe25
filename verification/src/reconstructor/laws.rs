//! How near the estimate is to the mean of the live prices.

use crate::numeric::accuracy;
use crate::numeric::binary64;
use crate::numeric::binary64::Binary64;
use crate::numeric::laws;
use crate::numeric::order;
use crate::numeric::rounding::BINADE;
use crate::reconstructor::engine;
use crate::reconstructor::engine::EXCHANGES;
use crate::types::{ReconstructorConfig, Trade};
use vstd::arithmetic::div_mod::*;
use vstd::arithmetic::power2::*;
use vstd::prelude::*;

verus! {

/// The price, in dollars, up to which the rounding of every step together stays below a hundredth of
/// a cent.
pub const PRICE_LIMIT: u64 = 0x10_0000_0000;

/// The exact sum of a row of finite numbers, in units.
pub open spec fn exact_sum(s: Seq<Binary64>) -> int
    decreases s.len(),
{
    if s.len() == 0 {
        0
    } else {
        exact_sum(s.drop_last()) + s.last().units()
    }
}

/// Whether every number of a row is finite and within limits, in units.
pub open spec fn all_between(s: Seq<Binary64>, low: int, high: int) -> bool {
    forall|i: int|
        0 <= i < s.len() ==> (#[trigger] s[i]).finite() && low <= s[i].units() <= high
}

/// Whether every number of a row is finite and at most another one in size.
pub open spec fn none_larger(s: Seq<Binary64>, largest: Binary64) -> bool {
    forall|i: int|
        0 <= i < s.len() ==> (#[trigger] s[i]).finite() && s[i].absolute().at_most(largest)
}

/// The unit in the last place of a finite number: the step to the next number in size.
pub open spec fn last_place(x: Binary64) -> int {
    accuracy::last_place(x)
}

/// The powers of two that the bounds are made of.
proof fn lemma_powers(e: nat)
    ensures
        0 < pow2(e),
        0 < binary64::one(),
        pow2(53 + e) == 0x20_0000_0000_0000 * pow2(e),
        pow2(e + 1) == 2 * pow2(e),
        pow2(e + 2) == 4 * pow2(e),
        pow2(e + 4) == 16 * pow2(e),
        pow2(e + 7) == 128 * pow2(e),
        pow2(53 + (e + 1)) == 2 * pow2(53 + e),
        pow2(53 + (e + 2)) == 4 * pow2(53 + e),
        pow2(53 + (e + 4)) == 16 * pow2(53 + e),
        pow2(53 + (e + 7)) == 128 * pow2(53 + e),
{
    lemma2_to64();
    lemma2_to64_rest();
    lemma_pow2_pos(e);
    lemma_pow2_pos(1074);
    lemma_pow2_adds(53, e);
    lemma_pow2_adds(1, e);
    lemma_pow2_adds(2, e);
    lemma_pow2_adds(4, e);
    lemma_pow2_adds(7, e);
    lemma_pow2_adds(1, 53 + e);
    lemma_pow2_adds(2, 53 + e);
    lemma_pow2_adds(4, 53 + e);
    lemma_pow2_adds(7, 53 + e);
}

/// The sum of numbers within limits is within as many times the limits.
proof fn lemma_sum_between(s: Seq<Binary64>, low: int, high: int)
    requires
        all_between(s, low, high),
    ensures
        s.len() * low <= exact_sum(s) <= s.len() * high,
    decreases s.len(),
{
    if s.len() == 0 {
        assert(0 * low == 0 && 0 * high == 0);
    } else {
        let rest = s.drop_last();
        assert forall|i: int| 0 <= i < rest.len() implies (#[trigger] rest[i]).finite() && low
            <= rest[i].units() <= high by {
            assert(rest[i] == s[i]);
        }
        lemma_sum_between(rest, low, high);
        assert(s.last() == s[s.len() - 1]);
        let n = s.len() as int;
        assert((n - 1) * low + low == n * low && (n - 1) * high + high == n * high)
            by (nonlinear_arith);
    }
}

/// The rounded sum of at most eight prices is near the exact one.
proof fn lemma_total(s: Seq<Binary64>, e: nat)
    requires
        all_between(s, -pow2(53 + e), pow2(53 + e) as int),
        s.len() <= 8,
        engine::total(s).finite() || e <= 2036,
    ensures
        engine::total(s).finite(),
        -(8 * (s.len() * pow2(e))) <= engine::total(s).units() - exact_sum(s) <= 8 * (s.len()
            * pow2(e)),
    decreases s.len(),
{
    let limit = pow2(53 + e) as int;
    let grain = pow2(e) as int;
    lemma_powers(e);
    if s.len() == 0 {
        binary64::lemma_small_units(0);
        assert(0 * grain == 0);
    } else {
        let rest = s.drop_last();
        let x = s.last();
        let n = s.len() as int;
        assert forall|i: int| 0 <= i < rest.len() implies (#[trigger] rest[i]).finite() && -limit
            <= rest[i].units() <= limit by {
            assert(rest[i] == s[i]);
        }
        assert(x == s[n - 1]);
        let t = engine::total(rest);
        assert(t.sum(x).finite() ==> t.finite());
        lemma_total(rest, e);
        lemma_sum_between(rest, -limit, limit);
        assert((n - 1) * grain + grain == n * grain) by (nonlinear_arith);
        assert(-(7 * limit) <= (n - 1) * (-limit) && (n - 1) * limit <= 7 * limit && (n - 1)
            * grain <= 7 * grain) by (nonlinear_arith)
            requires
                1 <= n <= 8,
                0 < limit,
                0 < grain,
        ;
        let sum = t.units() + x.units();
        order::lemma_sum_key(t, x);
        assert(1 * pow2(53 + (e + 4)) == pow2(53 + (e + 4)) && 1 * pow2(e + 4) == pow2(e + 4));
        order::lemma_nearest_error(t.sum(x), sum, 1, e + 4);
    }
}

/// The rounded mean of a sum.
proof fn lemma_mean(t: Binary64, n: int, e: nat)
    requires
        t.finite(),
        1 <= n <= 8,
        -(n * (pow2(53 + e) + 8 * pow2(e))) <= t.units() <= n * (pow2(53 + e) + 8 * pow2(e)),
        t.quotient(Binary64::whole(n)).finite() || e <= 2036,
    ensures
        ({
            let m = t.quotient(Binary64::whole(n));
            let most = pow2(53 + e) + 9 * pow2(e);
            &&& m.finite()
            &&& -most <= m.units() <= most
            &&& -(n * pow2(e)) <= n * m.units() - t.units() <= n * pow2(e)
        }),
{
    let o = binary64::one();
    let limit = pow2(53 + e) as int;
    let grain = pow2(e) as int;
    let count = Binary64::whole(n);
    let m = t.quotient(count);
    let u = t.units();
    lemma_powers(e);
    laws::lemma_whole_exact(n);
    let d = n * o;
    assert(0 < d) by (nonlinear_arith)
        requires
            d == n * o,
            1 <= n,
            0 < o,
    ;
    order::lemma_quotient_key(t, count);
    let top = pow2(53 + (e + 1)) as int;
    assert(-(d * top) < u * o < d * top) by (nonlinear_arith)
        requires
            d == n * o,
            -(n * (limit + 8 * grain)) <= u <= n * (limit + 8 * grain),
            top == 2 * limit,
            8 * grain < limit,
            1 <= n,
            0 < o,
    ;
    order::lemma_nearest_error(m, u * o, d, e + 1);
    let v = m.units();
    assert(-(n * grain) <= n * v - u <= n * grain) by (nonlinear_arith)
        requires
            -(d * (2 * grain)) <= 2 * (d * v - u * o) <= d * (2 * grain),
            d == n * o,
            0 < o,
    ;
    assert(-(limit + 9 * grain) <= v <= limit + 9 * grain) by (nonlinear_arith)
        requires
            -(n * grain) <= n * v - u <= n * grain,
            -(n * (limit + 8 * grain)) <= u <= n * (limit + 8 * grain),
            1 <= n,
    ;
}

/// A price in cents.
proof fn lemma_hundredfold(m: Binary64, e: nat)
    requires
        m.finite(),
        -(pow2(53 + e) + 9 * pow2(e)) <= m.units() <= pow2(53 + e) + 9 * pow2(e),
        m.product(Binary64::whole(100)).finite() || e <= 2036,
    ensures
        m.product(Binary64::whole(100)).finite(),
        -(64 * pow2(e)) <= m.product(Binary64::whole(100)).units() - 100 * m.units() <= 64 * pow2(
            e,
        ),
{
    let o = binary64::one();
    let limit = pow2(53 + e) as int;
    let grain = pow2(e) as int;
    let hundred = Binary64::whole(100);
    let p = m.product(hundred);
    let u = m.units();
    lemma_powers(e);
    laws::lemma_whole_exact(100);
    order::lemma_product_key(m, hundred);
    let n = u * (100 * o);
    let top = pow2(53 + (e + 7)) as int;
    assert(-(o * top) < n < o * top) by (nonlinear_arith)
        requires
            n == u * (100 * o),
            -(limit + 9 * grain) <= u <= limit + 9 * grain,
            top == 128 * limit,
            100 * grain < limit,
            0 < grain,
            0 < o,
    ;
    order::lemma_nearest_error(p, n, o, e + 7);
    let v = p.units();
    assert(-(64 * grain) <= v - 100 * u <= 64 * grain) by (nonlinear_arith)
        requires
            -(o * (128 * grain)) <= 2 * (o * v - n) <= o * (128 * grain),
            n == u * (100 * o),
            0 < o,
    ;
}

/// Whole cents are exact and within half a cent, and none where there is less than half a cent.
proof fn lemma_whole_cents(p: Binary64)
    requires
        p.finite(),
    ensures
        ({
            let u = p.units();
            let r = p.rounded().units();
            &&& p.rounded().finite()
            &&& -binary64::one() <= 2 * (r - u) <= binary64::one()
            &&& r == 0 || binary64::one() <= 2 * u || 2 * u <= -binary64::one()
        }),
{
    let o = binary64::one();
    let m = p.magnitude();
    let a = binary64::magnitude_units(m);
    let w = binary64::whole_half_up(a);
    lemma_pow2_pos(1074);
    order::lemma_own_key(p);
    lemma_fundamental_div_mod(2 * a + o, 2 * o);
    lemma_mod_bound(2 * a + o, 2 * o);
    lemma_div_pos_is_pos(2 * a + o, 2 * o);
    let r = (2 * a + o) % (2 * o);
    assert(2 * (w * o) == 2 * a + o - r) by (nonlinear_arith)
        requires
            2 * a + o == (2 * o) * w + r,
    ;
    assert(0 <= w * o) by (nonlinear_arith)
        requires
            0 <= w,
            0 < o,
    ;
    if w > 0 {
        assert(o <= w * o) by (nonlinear_arith)
            requires
                1 <= w,
                0 < o,
        ;
    } else {
        assert(0 * o == 0);
    }
    let e = binary64::exponent(m);
    let s = binary64::significand(m);
    laws::lemma_round_monotone(w * o, w * o, 1);
    if e >= 1074 {
        binary64::lemma_whole_units(s, e);
        laws::lemma_round_units(m);
    } else {
        lemma_small_whole(s, e, w);
        laws::lemma_whole_exact(w);
    }
}

/// The whole part of a number with digits below the point is exact.
proof fn lemma_small_whole(s: int, e: nat, w: int)
    requires
        0 <= s < 2 * BINADE,
        e < 1074,
        2 * (w * binary64::one()) <= 2 * (s * pow2(e)) + binary64::one(),
        0 <= w,
    ensures
        w < 2 * BINADE,
{
    let o = binary64::one();
    let p = pow2(e) as int;
    lemma_pow2_pos(e);
    lemma_pow2_unfold(1074);
    crate::numeric::rounding::lemma_pow2_monotone(e, 1073);
    assert(w < 2 * BINADE) by (nonlinear_arith)
        requires
            0 <= s < 2 * BINADE,
            0 < p,
            2 * p <= o,
            2 * (w * o) <= 2 * (s * p) + o,
    ;
}

/// Cents in dollars.
proof fn lemma_hundredth(r: Binary64, e: nat)
    requires
        r.finite(),
        -(200 * pow2(53 + e) + 1928 * pow2(e)) <= r.units() <= 200 * pow2(53 + e) + 1928 * pow2(e),
        r.quotient(Binary64::whole(100)).finite() || e <= 2036,
    ensures
        r.quotient(Binary64::whole(100)).finite(),
        -(200 * pow2(e)) <= 100 * r.quotient(Binary64::whole(100)).units() - r.units() <= 200
            * pow2(e),
{
    let o = binary64::one();
    let limit = pow2(53 + e) as int;
    let grain = pow2(e) as int;
    let hundred = Binary64::whole(100);
    let v = r.quotient(hundred);
    let u = r.units();
    lemma_powers(e);
    laws::lemma_whole_exact(100);
    order::lemma_quotient_key(r, hundred);
    let d = 100 * o;
    let top = pow2(53 + (e + 2)) as int;
    assert(-(d * top) < u * o < d * top) by (nonlinear_arith)
        requires
            d == 100 * o,
            -(200 * limit + 1928 * grain) <= u <= 200 * limit + 1928 * grain,
            top == 4 * limit,
            2000 * grain < limit,
            0 < grain,
            0 < o,
    ;
    order::lemma_nearest_error(v, u * o, d, e + 2);
    let x = v.units();
    assert(-(200 * grain) <= 100 * x - u <= 200 * grain) by (nonlinear_arith)
        requires
            -(d * (4 * grain)) <= 2 * (d * x - u * o) <= d * (4 * grain),
            d == 100 * o,
            0 < o,
    ;
}

/// A number that is finite at the end was finite at every step.
proof fn lemma_finite_throughout(t: Binary64, n: int)
    requires
        1 <= n <= 8,
        t.quotient(Binary64::whole(n)).product(Binary64::whole(100)).rounded().quotient(
            Binary64::whole(100),
        ).finite(),
    ensures
        t.finite(),
        t.quotient(Binary64::whole(n)).finite(),
        t.quotient(Binary64::whole(n)).product(Binary64::whole(100)).finite(),
{
    laws::lemma_whole_exact(n);
    laws::lemma_whole_exact(100);
    let m = t.quotient(Binary64::whole(n));
    let p = m.product(Binary64::whole(100));
    assert(!p.finite() ==> p.rounded() == p);
}

/// The mean of at most eight prices in whole cents is within half a cent of the exact mean, and 12
/// steps of the size that numbers of that many bits have. `e` says how large the prices are; the
/// mean is finite, or they are small enough for that.
proof fn lemma_mean_in_cents(s: Seq<Binary64>, e: nat)
    requires
        all_between(s, -pow2(53 + e), pow2(53 + e) as int),
        1 <= s.len() <= 8,
        engine::mean_in_cents(s).finite() || e <= 2036,
    ensures
        ({
            let n = s.len() as int;
            let gap = n * engine::mean_in_cents(s).units() - exact_sum(s);
            let most = n * binary64::one() + 2400 * (n * pow2(e));
            &&& engine::mean_in_cents(s).finite()
            &&& -most <= 200 * gap <= most
        }),
{
    let o = binary64::one();
    let limit = pow2(53 + e) as int;
    let grain = pow2(e) as int;
    let n = s.len() as int;
    let hundred = Binary64::whole(100);
    let t = engine::total(s);
    let m = t.quotient(Binary64::whole(n));
    let p = m.product(hundred);
    let r = p.rounded();
    let v = r.quotient(hundred);
    lemma_powers(e);
    if v.finite() {
        lemma_finite_throughout(t, n);
    }
    lemma_total(s, e);
    lemma_sum_between(s, -limit, limit);
    assert(n * (limit + 8 * grain) == n * limit + 8 * (n * grain) && n * (-limit) == -(n * limit))
        by (nonlinear_arith);
    lemma_mean(t, n, e);
    lemma_hundredfold(m, e);
    lemma_whole_cents(p);
    lemma_hundredth(r, e);
    lemma_gaps(n, o, grain, exact_sum(s), t.units(), m.units(), p.units(), r.units(), v.units());
}

/// The errors of the steps, added up.
proof fn lemma_gaps(
    n: int,
    o: int,
    grain: int,
    sum: int,
    t: int,
    m: int,
    p: int,
    r: int,
    v: int,
)
    requires
        1 <= n,
        0 < grain,
        -(8 * (n * grain)) <= t - sum <= 8 * (n * grain),
        -(n * grain) <= n * m - t <= n * grain,
        -(64 * grain) <= p - 100 * m <= 64 * grain,
        -o <= 2 * (r - p) <= o,
        -(200 * grain) <= 100 * v - r <= 200 * grain,
    ensures
        -(n * o + 2400 * (n * grain)) <= 200 * (n * v - sum) <= n * o + 2400 * (n * grain),
{
    let ng = n * grain;
    let no = n * o;
    let nv = n * v;
    let nr = n * r;
    let np = n * p;
    let nm = n * m;
    assert(0 < ng) by (nonlinear_arith)
        requires
            ng == n * grain,
            1 <= n,
            0 < grain,
    ;
    assert(-(200 * ng) <= 100 * nv - nr <= 200 * ng) by (nonlinear_arith)
        requires
            -(200 * grain) <= 100 * v - r <= 200 * grain,
            ng == n * grain,
            nv == n * v,
            nr == n * r,
            1 <= n,
    ;
    assert(-no <= 2 * (nr - np) <= no) by (nonlinear_arith)
        requires
            -o <= 2 * (r - p) <= o,
            no == n * o,
            nr == n * r,
            np == n * p,
            1 <= n,
    ;
    assert(-(64 * ng) <= np - 100 * nm <= 64 * ng) by (nonlinear_arith)
        requires
            -(64 * grain) <= p - 100 * m <= 64 * grain,
            ng == n * grain,
            np == n * p,
            nm == n * m,
            1 <= n,
    ;
}

/// The size of numbers that are no larger than another one.
proof fn lemma_no_larger(s: Seq<Binary64>, largest: Binary64)
    requires
        none_larger(s, largest),
        largest.finite(),
    ensures
        ({
            let limit = pow2(53 + binary64::exponent(largest.magnitude())) as int;
            all_between(s, -limit, limit)
        }),
{
    let e = binary64::exponent(largest.magnitude());
    let limit = pow2(53 + e) as int;
    let b = binary64::significand(largest.magnitude());
    lemma_powers(e);
    order::lemma_own_key(largest);
    assert(binary64::magnitude_units(largest.magnitude()) <= limit) by (nonlinear_arith)
        requires
            binary64::magnitude_units(largest.magnitude()) == b * pow2(e),
            b < 2 * BINADE,
            limit == 0x20_0000_0000_0000 * pow2(e),
            0 < pow2(e),
    ;
    assert forall|i: int| 0 <= i < s.len() implies (#[trigger] s[i]).finite() && -limit
        <= s[i].units() <= limit by {
        let x = s[i];
        order::lemma_own_key(x);
        order::lemma_own_key(x.absolute());
        binary64::lemma_order(x.absolute(), largest);
    }
}

/// The estimate is there where enough windows are live. Its value is within half a cent, and 12
/// units in the last place of the largest price, of the mean of the live prices; and so no further
/// than that below the least and above the greatest of them. The prices are any finite numbers. The
/// value is finite where they are below two to the power of 1015; above that the mean in cents can be
/// too large for a number, and where it is, the value is an infinity or a NaN.
pub proof fn lemma_estimate_is_near_the_mean(
    windows: Seq<Seq<Trade>>,
    config: ReconstructorConfig,
    now_ms: u64,
    largest: Binary64,
    least: int,
    greatest: int,
)
    requires
        windows.len() == EXCHANGES,
        config.min_exchanges >= 1,
        largest.finite(),
        none_larger(
            engine::live_prices(windows, now_ms as int, config.staleness_threshold_ms as int),
            largest,
        ),
        all_between(
            engine::live_prices(windows, now_ms as int, config.staleness_threshold_ms as int),
            least,
            greatest,
        ),
    ensures
        ({
            let live = engine::live_prices(
                windows,
                now_ms as int,
                config.staleness_threshold_ms as int,
            );
            let n = live.len() as int;
            let o = binary64::one();
            let place = last_place(largest);
            match engine::estimate(windows, config, now_ms) {
                None => n < config.min_exchanges,
                Some(e) => {
                    &&& n >= config.min_exchanges
                    &&& e.exchange_count == n
                    &&& e.confidence == Binary64::whole(n).quotient(Binary64::whole(8))
                    &&& e.timestamp == now_ms
                    &&& largest.units() < pow2(1015) * o ==> e.value.finite()
                    &&& e.value.finite() ==> {
                        &&& -(n * o + 2400 * (n * place)) <= 200 * (n * e.value.units()
                            - exact_sum(live)) <= n * o + 2400 * (n * place)
                        &&& 200 * (least - e.value.units()) <= o + 2400 * place
                        &&& 200 * (e.value.units() - greatest) <= o + 2400 * place
                    }
                },
            }
        }),
{
    let live = engine::live_prices(
        windows,
        now_ms as int,
        config.staleness_threshold_ms as int,
    );
    let n = live.len() as int;
    let o = binary64::one();
    let e = binary64::exponent(largest.magnitude());
    let place = last_place(largest);
    engine::lemma_live_len(windows, now_ms as int, config.staleness_threshold_ms as int);
    if n >= config.min_exchanges {
        lemma_no_larger(live, largest);
        lemma_sum_between(live, least, greatest);
        let v = engine::mean_in_cents(live);
        if largest.units() < pow2(1015) * o {
            lemma_exponent_bound(live[0], largest);
        }
        if v.finite() || e <= 2036 {
            lemma_mean_in_cents(live, e);
            let u = v.units();
            let sum = exact_sum(live);
            assert(200 * (least - u) <= o + 2400 * place) by (nonlinear_arith)
                requires
                    -(n * o + 2400 * (n * place)) <= 200 * (n * u - sum),
                    n * least <= sum,
                    1 <= n,
            ;
            assert(200 * (u - greatest) <= o + 2400 * place) by (nonlinear_arith)
                requires
                    200 * (n * u - sum) <= n * o + 2400 * (n * place),
                    sum <= n * greatest,
                    1 <= n,
            ;
        }
    }
}

/// A number below two to the power of 1015 has a small exponent.
proof fn lemma_exponent_bound(x: Binary64, largest: Binary64)
    requires
        x.finite(),
        largest.finite(),
        x.absolute().at_most(largest),
        largest.units() < pow2(1015) * binary64::one(),
    ensures
        binary64::exponent(largest.magnitude()) <= 2036,
{
    let m = largest.magnitude();
    let e = binary64::exponent(m);
    let s = binary64::significand(m);
    order::lemma_own_key(x.absolute());
    order::lemma_own_key(largest);
    binary64::lemma_order(x.absolute(), largest);
    if e >= 2037 {
        lemma2_to64_rest();
        lemma_pow2_adds(1015, 1074);
        lemma_pow2_adds(52, 2037);
        lemma_pow2_pos(2037);
        crate::numeric::rounding::lemma_pow2_monotone(2037, e);
        lemma_mod_bound(m, BINADE as int);
        assert(BINADE * pow2(2037) <= s * pow2(e)) by (nonlinear_arith)
            requires
                BINADE <= s,
                0 < pow2(2037) <= pow2(e),
        ;
    }
}

/// Where no live price is above about 69 billion dollars, the estimate is within 0.51 cents of their
/// mean: half a cent from the rounding to cents, and a hundredth for the rounding of every step.
pub proof fn lemma_estimate_is_within_a_cent(
    windows: Seq<Seq<Trade>>,
    config: ReconstructorConfig,
    now_ms: u64,
)
    requires
        windows.len() == EXCHANGES,
        config.min_exchanges >= 1,
        all_between(
            engine::live_prices(windows, now_ms as int, config.staleness_threshold_ms as int),
            -(PRICE_LIMIT * binary64::one()),
            PRICE_LIMIT * binary64::one(),
        ),
        engine::estimate(windows, config, now_ms) is Some,
    ensures
        ({
            let live = engine::live_prices(
                windows,
                now_ms as int,
                config.staleness_threshold_ms as int,
            );
            let n = live.len() as int;
            let value = engine::estimate(windows, config, now_ms)->0.value;
            let gap = n * value.units() - exact_sum(live);
            &&& value.finite()
            &&& -(51 * (n * binary64::one())) < 10_000 * gap < 51 * (n * binary64::one())
        }),
{
    let live = engine::live_prices(
        windows,
        now_ms as int,
        config.staleness_threshold_ms as int,
    );
    let n = live.len() as int;
    let o = binary64::one();
    let grain = pow2(1057) as int;
    engine::lemma_live_len(windows, now_ms as int, config.staleness_threshold_ms as int);
    lemma2_to64();
    lemma2_to64_rest();
    lemma_pow2_pos(1057);
    lemma_pow2_adds(17, 1057);
    lemma_pow2_adds(36, 1074);
    lemma_mean_in_cents(live, 1057);
    let ng = n * grain;
    assert(n * o == 131072 * ng && 0 < ng) by (nonlinear_arith)
        requires
            ng == n * grain,
            o == 131072 * grain,
            1 <= n,
            0 < grain,
    ;
}

} // verus!
