//! Where the momentum points, in dollars, percent and seconds.

use crate::numeric::accuracy;
use crate::numeric::binary64;
use crate::numeric::binary64::Binary64;
use crate::numeric::laws;
use crate::numeric::order;
use crate::numeric::rounding;
use crate::numeric::rounding::BINADE;
use crate::signal::delta;
use crate::signal::engine;
use crate::signal::engine::Memory;
use crate::signal::probability;
use crate::signal::spike;
use crate::types::{BrtiEstimate, Direction, KalshiMarket};
use vstd::arithmetic::div_mod::*;
use vstd::arithmetic::power2::*;
use vstd::prelude::*;

verus! {

/// Two detectors that point the same way are believed, and so is one of them while the other is
/// neutral; where they point in opposite ways, or neither points anywhere, the momentum is neutral.
pub proof fn lemma_consensus(a: Direction, b: Direction)
    ensures
        engine::agreed(a, a) == a,
        engine::agreed(a, Direction::Neutral) == a,
        engine::agreed(Direction::Neutral, a) == a,
        engine::agreed(a, b) == engine::agreed(b, a),
        a != b && a != Direction::Neutral && b != Direction::Neutral ==> engine::agreed(a, b)
            == Direction::Neutral,
{
}

/// The window of the spike detector: the estimate that has come in is its newest, and every other one
/// is an earlier estimate; nothing goes but from the front, and nothing that is 30 seconds old or
/// younger by the newest goes.
pub proof fn lemma_spike_window(s: Seq<BrtiEstimate>, estimate: BrtiEstimate, window_secs: int)
    requires
        0 <= window_secs,
    ensures
        ({
            let all = s.push(estimate);
            let kept = spike::spike_window(s, estimate, window_secs);
            let gone = all.len() - kept.len();
            &&& 0 < kept.len() <= all.len()
            &&& kept == all.skip(gone)
            &&& forall|i: int|
                0 <= i < gone ==> (#[trigger] all[i]).timestamp + window_secs * 1000
                    < estimate.timestamp
            &&& kept[0].timestamp + window_secs * 1000 >= estimate.timestamp
        }),
{
    let cutoff = if estimate.timestamp >= window_secs * 1000 {
        estimate.timestamp - window_secs * 1000
    } else {
        0
    };
    lemma_since(s.push(estimate), cutoff);
    spike::lemma_window_holds_the_newest(s, estimate, window_secs);
}

proof fn lemma_since(s: Seq<BrtiEstimate>, cutoff: int)
    ensures
        ({
            let kept = spike::since(s, cutoff);
            let gone = s.len() - kept.len();
            &&& kept.len() <= s.len()
            &&& kept == s.skip(gone)
            &&& forall|i: int| 0 <= i < gone ==> (#[trigger] s[i]).timestamp < cutoff
            &&& kept.len() > 0 ==> kept[0].timestamp >= cutoff
        }),
    decreases s.len(),
{
    if s.len() > 0 && s[0].timestamp < cutoff {
        let rest = s.skip(1);
        lemma_since(rest, cutoff);
        let kept = spike::since(s, cutoff);
        let gone = s.len() - kept.len();
        assert(kept == s.skip(gone));
        assert forall|i: int| 0 <= i < gone implies (#[trigger] s[i]).timestamp < cutoff by {
            if i > 0 {
                assert(rest[i - 1] == s[i]);
            }
        }
    } else {
        assert(s.skip(0) == s);
    }
}

/// A window has spiked up where its newest estimate is more than 15 dollars above its oldest, and down
/// where it is more than 25 dollars below, up to two to the power of minus 48 of a dollar, and only
/// there.
pub proof fn lemma_spike_in_dollars(s: Seq<BrtiEstimate>)
    requires
        s.len() >= 2,
        s[0].value.finite(),
        s.last().value.finite(),
    ensures
        ({
            let o = binary64::one();
            let d = s.last().value.units() - s[0].value.units();
            let found = spike::spike(s, Binary64::whole(15), Binary64::whole(25));
            &&& 15 * o + pow2(1026) < d ==> found == Direction::Up
            &&& found == Direction::Up ==> 15 * o < d
            &&& d < -(25 * o) - pow2(1026) ==> found == Direction::Down
            &&& found == Direction::Down ==> d < -(25 * o)
        }),
{
    let newest = s.last().value;
    let oldest = s[0].value;
    accuracy::lemma_moved(newest, oldest, 15);
    accuracy::lemma_moved(newest, oldest, 25);
    lemma_pow2_pos(1074);
    lemma_pow2_pos(1026);
}

/// A single estimate is no spike, and no trend either.
pub proof fn lemma_one_estimate_is_neutral(
    s: Seq<BrtiEstimate>,
    up: Binary64,
    down: Binary64,
    threshold_pct: Binary64,
)
    requires
        s.len() < 2,
    ensures
        spike::spike(s, up, down) == Direction::Neutral,
        delta::trend(s, threshold_pct) == Direction::Neutral,
{
}

/// The trend goes by the latest twenty estimates: the one that has come in is the newest, and the
/// oldest goes where there would be more.
pub proof fn lemma_latest_twenty(s: Seq<BrtiEstimate>, estimate: BrtiEstimate)
    requires
        s.len() <= 20,
    ensures
        ({
            let kept = delta::sampled(s, estimate);
            &&& kept.len() == (if s.len() < 20 {
                s.len() + 1
            } else {
                20
            })
            &&& kept == s.push(estimate).skip(s.len() + 1 - kept.len())
            &&& kept.last() == estimate
        }),
{
    assert(s.push(estimate).skip(0) == s.push(estimate));
}

/// The powers of two that the bounds below are made of.
proof fn lemma_powers(e: nat)
    requires
        7 <= e,
    ensures
        0 < pow2(e),
        0 < binary64::one(),
        0 < pow2(1015),
        pow2(1016) == 2 * pow2(1015),
        pow2(1022) == 128 * pow2(1015),
        pow2(1023) == 256 * pow2(1015),
        binary64::one() == 0x800_0000_0000_0000 * pow2(1015),
        32 * pow2(53 + 1016) == binary64::one(),
        64 * pow2(53 + 1015) == binary64::one(),
        pow2(53 + 1023) == 4 * binary64::one(),
        64 * pow2((e - 6) as nat) == pow2(e),
        64 * pow2(53 + ((e - 6) as nat)) == 0x20_0000_0000_0000 * pow2(e),
        pow2(52 + e) == 0x10_0000_0000_0000 * pow2(e),
{
    lemma2_to64();
    lemma2_to64_rest();
    lemma_pow2_pos(e);
    lemma_pow2_pos(1074);
    lemma_pow2_pos(1015);
    lemma_pow2_adds(1, 1015);
    lemma_pow2_adds(7, 1015);
    lemma_pow2_adds(8, 1015);
    lemma_pow2_adds(59, 1015);
    lemma_pow2_adds(5, 1069);
    lemma_pow2_adds(6, 1068);
    lemma_pow2_adds(2, 1074);
    lemma_pow2_adds(6, (e - 6) as nat);
    lemma_pow2_adds(53, (e - 6) as nat);
    lemma_pow2_adds(52, e);
}

/// The size of an index value, from its unit in the last place.
proof fn lemma_value_size(x: Binary64)
    requires
        x.finite(),
        binary64::one() <= x.units() < pow2(64) * binary64::one(),
    ensures
        ({
            let e = binary64::exponent(x.magnitude());
            &&& 7 <= e <= 2043
            &&& 0x10_0000_0000_0000 * pow2(e) <= x.units()
            &&& x.units() < 0x20_0000_0000_0000 * pow2(e)
        }),
{
    let m = x.magnitude();
    let e = binary64::exponent(m);
    let s = binary64::significand(m);
    let g = pow2(e) as int;
    lemma_pow2_pos(e);
    lemma_pow2_pos(1074);
    lemma2_to64();
    lemma2_to64_rest();
    lemma_pow2_adds(53, e);
    lemma_mod_bound(m, BINADE as int);
    order::lemma_own_key(x);
    assert(s * g < (2 * BINADE) * g) by (nonlinear_arith)
        requires
            s < 2 * BINADE,
            0 < g,
    ;
    if e < 7 {
        rounding::lemma_pow2_monotone(53 + e, 1074);
    }
    assert(BINADE * g <= s * g) by (nonlinear_arith)
        requires
            BINADE <= s,
            0 < g,
    ;
    if e > 2043 {
        lemma_pow2_adds(64, 1074);
        rounding::lemma_pow2_monotone(1138, e);
        assert(g <= BINADE * g) by (nonlinear_arith)
            requires
                0 < g,
        ;
    }
}

/// The change in percent, and how far it is from the exact one.
pub proof fn lemma_percent_change(newest: Binary64, oldest: Binary64)
    requires
        newest.finite(),
        oldest.finite(),
        binary64::one() <= oldest.units() < pow2(64) * binary64::one(),
        -oldest.units() <= 64 * (newest.units() - oldest.units()) <= oldest.units(),
    ensures
        ({
            let p = newest.difference(oldest).quotient(oldest).product(Binary64::whole(100));
            let off = oldest.units() * p.units() - 100 * ((newest.units() - oldest.units())
                * binary64::one());
            &&& p.finite()
            &&& -(328 * (oldest.units() * pow2(1015))) <= off <= 328 * (oldest.units() * pow2(
                1015,
            ))
        }),
{
    let o = binary64::one();
    let f = oldest.units();
    let d = newest.units() - f;
    let e = binary64::exponent(oldest.magnitude());
    let g = pow2(e) as int;
    let q = pow2(1015) as int;
    let hundred = Binary64::whole(100);
    lemma_value_size(oldest);
    lemma_powers(e);
    laws::lemma_whole_exact(100);
    let a = newest.difference(oldest);
    accuracy::lemma_near_difference(newest, oldest, (e - 6) as nat);
    let x = a.units();
    let b = a.quotient(oldest);
    order::lemma_quotient_key(a, oldest);
    let top = pow2(53 + 1016) as int;
    assert(-(f * top) < x * o < f * top) by (nonlinear_arith)
        requires
            -f < 32 * x < f,
            32 * top == o,
            0 < o,
            0 < f,
    {
        assert((32 * x) * o < f * o);
        assert((32 * x) * o > (-f) * o);
        assert((-f) * o == -(f * o));
        assert(f * o == 32 * (f * top));
        assert((32 * x) * o == 32 * (x * o));
    }
    order::lemma_nearest_error(b, x * o, f, 1016);
    let y = b.units();
    assert(-o < 25 * y < o) by (nonlinear_arith)
        requires
            -(f * (2 * q)) <= 2 * (f * y - x * o) <= f * (2 * q),
            -f < 32 * x < f,
            0 < o,
            0 < f,
            0 < q,
            1000 * q < o,
    {
        assert((32 * x) * o < f * o);
        assert((32 * x) * o > (-f) * o);
        assert((-f) * o == -(f * o));
        assert((32 * x) * o == 32 * (x * o));
        assert(f * (1000 * q) < f * o);
        assert(f * (1000 * q) == 1000 * (f * q));
        assert(f * (2 * q) == 2 * (f * q));
        if 25 * y >= o {
            assert(f * (25 * y) >= f * o);
            assert(f * (25 * y) == 25 * (f * y));
        }
        if 25 * y <= -o {
            assert(f * (25 * y) <= f * (-o));
            assert(f * (-o) == -(f * o));
            assert(f * (25 * y) == 25 * (f * y));
        }
    }
    let p = b.product(hundred);
    order::lemma_product_key(b, hundred);
    let n = y * (100 * o);
    assert(-(o * (4 * o)) < n < o * (4 * o)) by (nonlinear_arith)
        requires
            n == y * (100 * o),
            -o < 25 * y < o,
            0 < o,
    {
        assert((25 * y) * (4 * o) < o * (4 * o));
        assert((25 * y) * (4 * o) > (-o) * (4 * o));
        assert((-o) * (4 * o) == -(o * (4 * o)));
        assert((25 * y) * (4 * o) == y * (100 * o));
    }
    order::lemma_nearest_error(p, n, o, 1023);
    let z = p.units();
    assert(-(128 * q) <= z - 100 * y <= 128 * q) by (nonlinear_arith)
        requires
            -(o * (256 * q)) <= 2 * (o * z - n) <= o * (256 * q),
            n == y * (100 * o),
            0 < o,
    {
        let w = z - 100 * y;
        assert(o * z - n == o * w);
        assert(o * (256 * q) == 2 * (o * (128 * q)));
        if w > 128 * q {
            assert(o * w > o * (128 * q));
        }
        if w < -(128 * q) {
            assert(o * w < o * (-(128 * q)));
            assert(o * (-(128 * q)) == -(o * (128 * q)));
        }
    }
    assert(-(328 * (f * q)) <= f * z - 100 * (d * o) <= 328 * (f * q)) by (nonlinear_arith)
        requires
            -(128 * q) <= z - 100 * y <= 128 * q,
            -(f * (2 * q)) <= 2 * (f * y - x * o) <= f * (2 * q),
            -g <= 128 * (x - d) <= g,
            0x10_0000_0000_0000 * g <= f,
            o == 0x800_0000_0000_0000 * q,
            0 < o,
            0 < f,
            0 < q,
            0 < g,
    {
        let w = z - 100 * y;
        let v = x - d;
        let fq = f * q;
        assert(f * z == 100 * (f * y) + f * w);
        assert(f * w <= f * (128 * q));
        assert(f * w >= f * (-(128 * q)));
        assert(f * (128 * q) == 128 * fq);
        assert(f * (-(128 * q)) == -(128 * fq));
        assert(f * (2 * q) == 2 * fq);
        assert(x * o == d * o + v * o);
        assert((128 * v) * o <= g * o);
        assert((128 * v) * o >= (-g) * o);
        assert((-g) * o == -(g * o));
        assert((128 * v) * o == 128 * (v * o));
        assert(g * o == (0x800_0000_0000_0000 * g) * q);
        assert((0x10_0000_0000_0000 * g) * q <= f * q);
        assert((0x800_0000_0000_0000 * g) * q == 128 * ((0x10_0000_0000_0000 * g) * q));
    }
}

/// The trend points up where the newest estimate is more than a hundredth of a percent above the
/// oldest, and down where it is as much below, up to one part in two to the power of 40 of that limit,
/// and only there: for an index of at least a dollar, and moves of at most one part in 64.
pub proof fn lemma_trend_in_percent(s: Seq<BrtiEstimate>)
    requires
        s.len() >= 2,
        s[0].value.finite(),
        s.last().value.finite(),
        binary64::one() <= s[0].value.units() < pow2(64) * binary64::one(),
        -s[0].value.units() <= 64 * (s.last().value.units() - s[0].value.units())
            <= s[0].value.units(),
    ensures
        ({
            let f = s[0].value.units();
            let d = 10_000 * (s.last().value.units() - f);
            let found = delta::trend(s, Binary64::ratio(1, 100));
            &&& 0x100_0000_0001 * f < 0x100_0000_0000 * d ==> found == Direction::Up
            &&& found == Direction::Up ==> 0xff_ffff_ffff * f < 0x100_0000_0000 * d
            &&& 0x100_0000_0000 * d < -(0x100_0000_0001 * f) ==> found == Direction::Down
            &&& found == Direction::Down ==> 0x100_0000_0000 * d < -(0xff_ffff_ffff * f)
        }),
{
    let o = binary64::one();
    let newest = s.last().value;
    let oldest = s[0].value;
    let f = oldest.units();
    let d = newest.units() - f;
    let q = pow2(1015) as int;
    let r = Binary64::ratio(1, 100);
    let p = newest.difference(oldest).quotient(oldest).product(Binary64::whole(100));
    lemma_powers(7);
    lemma_percent_change(newest, oldest);
    order::lemma_zero(oldest);
    binary64::lemma_order(oldest, Binary64::whole(0));
    laws::lemma_ratio_order(1, 1, 100);
    assert(1 * o == o);
    let top = pow2(53 + 1015) as int;
    assert(-(100 * top) < o < 100 * top);
    accuracy::lemma_ratio_key(1, 100);
    order::lemma_nearest_error(r, o, 100, 1015);
    order::lemma_negated(r);
    binary64::lemma_order(r, p);
    binary64::lemma_order(p, r.negated());
    let z = p.units();
    let v = r.units();
    lemma_trend_bounds(f, d, z, v, o, q);
}

proof fn lemma_trend_bounds(f: int, d: int, z: int, v: int, o: int, q: int)
    requires
        0 < f,
        0 < q,
        o == 0x800_0000_0000_0000 * q,
        -(328 * (f * q)) <= f * z - 100 * (d * o) <= 328 * (f * q),
        -(100 * q) <= 2 * (100 * v - o) <= 100 * q,
    ensures
        0x100_0000_0001 * f < 0x100_0000_0000 * (10_000 * d) ==> v < z,
        v < z ==> 0xff_ffff_ffff * f < 0x100_0000_0000 * (10_000 * d),
        0x100_0000_0000 * (10_000 * d) < -(0x100_0000_0001 * f) ==> z < -v,
        z < -v ==> 0x100_0000_0000 * (10_000 * d) < -(0xff_ffff_ffff * f),
{
    let fq = f * q;
    let dq = d * q;
    let fz = f * z;
    let fv = f * v;
    assert(0 < fq) by (nonlinear_arith)
        requires
            fq == f * q,
            0 < f,
            0 < q,
    ;
    assert(d * o == 0x800_0000_0000_0000 * dq) by (nonlinear_arith)
        requires
            o == 0x800_0000_0000_0000 * q,
            dq == d * q,
    ;
    assert(-(100 * fq) <= 2 * (100 * fv - 0x800_0000_0000_0000 * fq) <= 100 * fq)
        by (nonlinear_arith)
        requires
            -(100 * q) <= 2 * (100 * v - o) <= 100 * q,
            o == 0x800_0000_0000_0000 * q,
            fq == f * q,
            fv == f * v,
            0 < f,
    {
        let w = 2 * (100 * v - o);
        assert(f * w <= f * (100 * q));
        assert(f * w >= f * (-(100 * q)));
        assert(f * (-(100 * q)) == -(100 * (f * q)));
        assert(f * w == 200 * (f * v) - 2 * (f * o));
        assert(f * o == 0x800_0000_0000_0000 * (f * q));
    }
    if 0x100_0000_0001 * f < 0x100_0000_0000 * (10_000 * d) {
        assert(0x100_0000_0001 * fq < 0x100_0000_0000 * (10_000 * dq)) by (nonlinear_arith)
            requires
                0x100_0000_0001 * f < 0x100_0000_0000 * (10_000 * d),
                fq == f * q,
                dq == d * q,
                0 < q,
        ;
        assert(fv < fz);
        lemma_cancel(f, v, z);
    }
    if v < z {
        lemma_cancel(f, z, v);
        if 0x100_0000_0000 * (10_000 * d) <= 0xff_ffff_ffff * f {
            assert(0x100_0000_0000 * (10_000 * dq) <= 0xff_ffff_ffff * fq) by (nonlinear_arith)
                requires
                    0x100_0000_0000 * (10_000 * d) <= 0xff_ffff_ffff * f,
                    fq == f * q,
                    dq == d * q,
                    0 < q,
            ;
        }
    }
    assert(f * (-v) == -fv) by (nonlinear_arith)
        requires
            fv == f * v,
    ;
    if 0x100_0000_0000 * (10_000 * d) < -(0x100_0000_0001 * f) {
        assert(0x100_0000_0000 * (10_000 * dq) < -(0x100_0000_0001 * fq)) by (nonlinear_arith)
            requires
                0x100_0000_0000 * (10_000 * d) < -(0x100_0000_0001 * f),
                fq == f * q,
                dq == d * q,
                0 < q,
        ;
        assert(fz < -fv);
        lemma_cancel(f, z, -v);
    }
    if z < -v {
        lemma_cancel(f, -v, z);
        if 0x100_0000_0000 * (10_000 * d) >= -(0xff_ffff_ffff * f) {
            assert(0x100_0000_0000 * (10_000 * dq) >= -(0xff_ffff_ffff * fq)) by (nonlinear_arith)
                requires
                    0x100_0000_0000 * (10_000 * d) >= -(0xff_ffff_ffff * f),
                    fq == f * q,
                    dq == d * q,
                    0 < q,
            ;
        }
    }
}

proof fn lemma_cancel(f: int, a: int, b: int)
    requires
        0 < f,
    ensures
        f * a < f * b ==> a < b,
        f * a >= f * b ==> a >= b,
{
    assert(f * a < f * b ==> a < b) by (nonlinear_arith)
        requires
            0 < f,
    ;
    assert(f * a >= f * b ==> a >= b) by (nonlinear_arith)
        requires
            0 < f,
    ;
}

/// How far up a direction is.
pub open spec fn height(direction: Direction) -> int {
    match direction {
        Direction::Up => 1,
        Direction::Neutral => 0,
        Direction::Down => -1,
    }
}

/// With the same oldest estimate, of a positive index, a higher newest one never turns the momentum
/// down: neither the spike nor the trend.
pub proof fn lemma_momentum_follows_the_newest(
    lower: Seq<BrtiEstimate>,
    higher: Seq<BrtiEstimate>,
    up: Binary64,
    down: Binary64,
    threshold_pct: Binary64,
)
    requires
        lower.len() >= 2,
        higher.len() >= 2,
        lower[0].value == higher[0].value,
        lower[0].value.finite(),
        lower[0].value.units() > 0,
        lower.last().value.finite(),
        higher.last().value.finite(),
        lower.last().value.at_most(higher.last().value),
        Binary64::whole(0).at_most(up),
        Binary64::whole(0).at_most(down),
        Binary64::whole(0).at_most(threshold_pct),
    ensures
        height(spike::spike(lower, up, down)) <= height(spike::spike(higher, up, down)),
        height(delta::trend(lower, threshold_pct)) <= height(delta::trend(higher, threshold_pct)),
{
    let oldest = lower[0].value;
    let a = lower.last().value;
    let b = higher.last().value;
    let hundred = Binary64::whole(100);
    lemma_pow2_pos(1074);
    order::lemma_zero(oldest);
    order::lemma_negated(down);
    order::lemma_negated(threshold_pct);
    order::lemma_own_key(oldest);
    binary64::lemma_order(oldest, Binary64::whole(0));
    order::lemma_difference_key(a, oldest);
    order::lemma_difference_key(b, oldest);
    order::lemma_difference_monotone(a, oldest, b, oldest);
    let x = a.difference(oldest);
    let y = b.difference(oldest);
    order::lemma_quotient_monotone(x, y, oldest);
    laws::lemma_whole_exact(100);
    order::lemma_own_key(hundred);
    accuracy::lemma_product_is_a_number(x.quotient(oldest), hundred);
    accuracy::lemma_product_is_a_number(y.quotient(oldest), hundred);
    order::lemma_product_monotone(x.quotient(oldest), y.quotient(oldest), hundred);
}

/// What the spike detector of the engine says once an estimate has come in.
pub open spec fn spike_says(memory: Memory, estimate: BrtiEstimate) -> Direction {
    spike::spike(
        spike::spike_window(memory.spike_samples, estimate, 30),
        Binary64::whole(15),
        Binary64::whole(25),
    )
}

/// What the trend detector of the engine says once an estimate has come in.
pub open spec fn trend_says(memory: Memory, estimate: BrtiEstimate) -> Direction {
    delta::trend(delta::sampled(memory.samples, estimate), Binary64::ratio(1, 100))
}

/// The direction of the engine is up where one of its detectors says so and the other does not say
/// down, down where one says so and the other does not say up, and neutral otherwise.
pub proof fn lemma_direction_is_the_consensus(memory: Memory, estimate: BrtiEstimate)
    ensures
        ({
            let found = memory.observed(estimate).last_direction;
            let a = spike_says(memory, estimate);
            let b = trend_says(memory, estimate);
            &&& found == Direction::Up <==> (a == Direction::Up && b != Direction::Down) || (b
                == Direction::Up && a != Direction::Down)
            &&& found == Direction::Down <==> (a == Direction::Down && b != Direction::Up) || (b
                == Direction::Down && a != Direction::Up)
        }),
{
}

/// Where the detectors point one way on two estimates in a row, one of them at least and none the
/// other way, the direction is that way and the engine acts; on the first of the two it does not,
/// where the direction before was another.
pub proof fn lemma_two_in_a_row(
    memory: Memory,
    first: BrtiEstimate,
    second: BrtiEstimate,
    way: Direction,
)
    requires
        way != Direction::Neutral,
        spike_says(memory, first) == way || trend_says(memory, first) == way,
        spike_says(memory, first) == way || spike_says(memory, first) == Direction::Neutral,
        trend_says(memory, first) == way || trend_says(memory, first) == Direction::Neutral,
        spike_says(memory.observed(first), second) == way || trend_says(
            memory.observed(first),
            second,
        ) == way,
        spike_says(memory.observed(first), second) == way || spike_says(
            memory.observed(first),
            second,
        ) == Direction::Neutral,
        trend_says(memory.observed(first), second) == way || trend_says(
            memory.observed(first),
            second,
        ) == Direction::Neutral,
    ensures
        memory.observed(first).last_direction == way,
        memory.confirming != Some(way) ==> !memory.observed(first).acts(),
        memory.observed(first).observed(second).last_direction == way,
        memory.observed(first).observed(second).acts(),
{
}

/// Whether the engine acts on an estimate goes by the last two directions alone, once the first
/// estimate has come in: it acts where they are the same and not neutral.
pub proof fn lemma_acts_on_two_directions(
    memory: Memory,
    first: BrtiEstimate,
    second: BrtiEstimate,
)
    ensures
        ({
            let middle = memory.observed(first);
            let after = middle.observed(second);
            after.acts() <==> after.last_direction == middle.last_direction && after.last_direction
                != Direction::Neutral
        }),
{
}

/// What the engine keeps of an estimate: the latest twenty estimates and those of the last 30 seconds,
/// with this one as the newest of both; the move over the 30 seconds; and nothing of what it knew of
/// tickers changes.
pub proof fn lemma_estimate_is_kept(memory: Memory, estimate: BrtiEstimate)
    requires
        memory.samples.len() <= 20,
    ensures
        ({
            let after = memory.observed(estimate);
            let all = memory.spike_samples.push(estimate);
            let kept = after.spike_samples;
            &&& after.samples.len() == (if memory.samples.len() < 20 {
                memory.samples.len() + 1
            } else {
                20
            })
            &&& after.samples == memory.samples.push(estimate).skip(
                memory.samples.len() + 1 - after.samples.len(),
            )
            &&& 0 < kept.len() <= all.len()
            &&& kept == all.skip(all.len() - kept.len())
            &&& forall|i: int|
                0 <= i < all.len() - kept.len() ==> (#[trigger] all[i]).timestamp + 30_000
                    < estimate.timestamp
            &&& kept[0].timestamp + 30_000 >= estimate.timestamp
            &&& after.last_opportunity == memory.last_opportunity
            &&& estimate.value.finite() && kept[0].value.finite() ==> !after.last_velocity.nan()
                && after.last_velocity.key() == order::nearest_key(
                estimate.value.units() - kept[0].value.units(),
                1,
            )
        }),
{
    lemma_latest_twenty(memory.samples, estimate);
    lemma_spike_window(memory.spike_samples, estimate, 30);
    let kept = memory.observed(estimate).spike_samples;
    assert(kept.last() == estimate) by {
        let all = memory.spike_samples.push(estimate);
        assert(kept.last() == all.skip(all.len() - kept.len()).last());
    }
    if estimate.value.finite() && kept[0].value.finite() {
        order::lemma_difference_key(estimate.value, kept[0].value);
    }
}

/// What the engine says of the change: in percent from the oldest of the latest estimates to the newest,
/// and zero while there is one alone; the model's probability is zero until a market is weighed.
pub proof fn lemma_change_is_kept(memory: Memory, estimate: BrtiEstimate)
    requires
        memory.samples.len() <= 20,
    ensures
        ({
            let o = binary64::one();
            let after = memory.observed(estimate);
            let oldest = after.samples[0].value;
            let percent = after.last_delta_pct;
            let d = estimate.value.units() - oldest.units();
            &&& memory.samples.len() == 0 ==> percent.finite() && percent.units() == 0
            &&& memory.samples.len() > 0 && estimate.value.finite() && oldest.finite() && o
                <= oldest.units() < pow2(64) * o && -oldest.units() <= 64 * d <= oldest.units() ==> {
                &&& percent.finite()
                &&& -(328 * (oldest.units() * pow2(1015))) <= oldest.units() * percent.units() - 100
                    * (d * o) <= 328 * (oldest.units() * pow2(1015))
            }
            &&& after.last_model_prob.finite() && after.last_model_prob.units() == 0
        }),
{
    let o = binary64::one();
    let after = memory.observed(estimate);
    let oldest = after.samples[0].value;
    let d = estimate.value.units() - oldest.units();
    lemma_latest_twenty(memory.samples, estimate);
    lemma_pow2_pos(1074);
    order::lemma_zero(Binary64::whole(1));
    assert(after.samples.last() == estimate);
    if memory.samples.len() > 0 && estimate.value.finite() && oldest.finite() && o <= oldest.units()
        < pow2(64) * o && -oldest.units() <= 64 * d <= oldest.units() {
        lemma_percent_change(estimate.value, oldest);
        binary64::lemma_order(oldest, Binary64::whole(0));
    }
}

/// A market that is weighed leaves the model's probability of the side that was looked at; it is the
/// confidence of the opportunity, where there is one.
pub proof fn lemma_weighing_is_remembered(
    memory: Memory,
    market: KalshiMarket,
    estimate: BrtiEstimate,
    now_ms: u64,
    e: Binary64,
)
    ensures
        ({
            let after = memory.weighed(market, estimate, e);
            let offer = memory.offer(market, estimate, now_ms, e);
            &&& memory.last_direction == Direction::Up ==> after.last_model_prob
                == probability::discounted(e, estimate.confidence)
            &&& memory.last_direction == Direction::Down ==> after.last_model_prob
                == Binary64::whole(1).difference(probability::discounted(e, estimate.confidence))
            &&& offer is Some ==> after.last_model_prob == offer->0.signal.confidence
            &&& offer is Some ==> after.last_opportunity.contains_key(market.ticker@)
                && after.last_opportunity[market.ticker@] == estimate.timestamp
            &&& after.samples == memory.samples
            &&& after.spike_samples == memory.spike_samples
            &&& after.last_direction == memory.last_direction
            &&& after.last_velocity == memory.last_velocity
            &&& after.last_delta_pct == memory.last_delta_pct
            &&& after.confirm_count == memory.confirm_count
        }),
{
}

/// The rate of change is the move in dollars over the time in seconds: the rate times the milliseconds is
/// a thousand times the move, up to two to the power of minus 10, for a move of at most a thousand dollars
/// within 17 minutes.
pub proof fn lemma_rate_in_dollars_per_second(s: Seq<BrtiEstimate>)
    requires
        s.len() >= 2,
        s[0].timestamp < s.last().timestamp < s[0].timestamp + 0x10_0000,
        s[0].value.finite(),
        s.last().value.finite(),
        -(1024 * binary64::one()) <= s.last().value.units() - s[0].value.units() <= 1024
            * binary64::one(),
    ensures
        ({
            let rate = delta::change_rate(s);
            let n = s.last().timestamp - s[0].timestamp;
            let d = s.last().value.units() - s[0].value.units();
            &&& rate is Some
            &&& rate->0.finite()
            &&& -pow2(1064) <= n * rate->0.units() - 1000 * d <= pow2(1064)
        }),
{
    let o = binary64::one();
    let n = s.last().timestamp - s[0].timestamp;
    let x = s.last().value;
    let y = s[0].value;
    let d = x.units() - y.units();
    let q = pow2(1031) as int;
    let thousand = Binary64::whole(1000);
    lemma2_to64();
    lemma2_to64_rest();
    lemma_pow2_pos(1074);
    lemma_pow2_pos(1031);
    lemma_pow2_adds(1, 1031);
    lemma_pow2_adds(2, 1031);
    lemma_pow2_adds(11, 1031);
    lemma_pow2_adds(33, 1031);
    lemma_pow2_adds(43, 1031);
    lemma_pow2_adds(11, 1074);
    lemma_pow2_adds(21, 1074);
    laws::lemma_whole_exact(n);
    laws::lemma_whole_exact(1000);
    let a = x.difference(y);
    accuracy::lemma_near_difference(x, y, 1032);
    let whole = Binary64::whole(n);
    let secs = whole.quotient(thousand);
    order::lemma_quotient_key(whole, thousand);
    let c = o * o;
    let u = n * o;
    let t = 1000 * o;
    assert(u * o == n * c && t * (2048 * o) == 1000 * (2048 * c) && 0 < c) by (nonlinear_arith)
        requires
            u == n * o,
            t == 1000 * o,
            c == o * o,
            0 < o,
    ;
    assert(0 < n * c && n * c < 1000 * (2048 * c)) by (nonlinear_arith)
        requires
            0 < n < 0x10_0000,
            0 < c,
    ;
    order::lemma_nearest_error(secs, u * o, t, 1032);
    let w = 1000 * secs.units() - u;
    assert(t * secs.units() - u * o == o * w) by (nonlinear_arith)
        requires
            t == 1000 * o,
            w == 1000 * secs.units() - u,
    ;
    assert(t * (2 * q) == 2 * (o * (1000 * q))) by (nonlinear_arith)
        requires
            t == 1000 * o,
    ;
    lemma_small(o, w, 1000 * q);
    let v = secs.units();
    assert(o <= u && u < 0x10_0000 * o) by (nonlinear_arith)
        requires
            u == n * o,
            1 <= n < 0x10_0000,
            0 < o,
    {
        assert(1 * o <= n * o);
    }
    assert(o <= 1024 * v && v < 2048 * o);
    let rate = a.quotient(secs);
    order::lemma_quotient_key(a, secs);
    let z = a.units();
    assert(-(v * (0x20_0000 * o)) < z * o && z * o < v * (0x20_0000 * o)) by (nonlinear_arith)
        requires
            o <= 1024 * v,
            -(1025 * o) <= z <= 1025 * o,
            0 < o,
    {
        assert(z * o <= (1025 * o) * o);
        assert(z * o >= (-(1025 * o)) * o);
        assert((-(1025 * o)) * o == -((1025 * o) * o));
        assert(o * (2048 * o) <= (1024 * v) * (2048 * o));
        assert((1024 * v) * (2048 * o) == v * (0x20_0000 * o));
        assert(o * (2048 * o) == 2048 * (o * o));
        assert((1025 * o) * o == 1025 * (o * o));
        assert(0 < o * o);
    }
    order::lemma_nearest_error(rate, z * o, v, 1042);
    lemma_rate_bounds(o, q, n, d, z, v, rate.units());
}

/// A bound, divided by a positive number.
proof fn lemma_small(o: int, w: int, b: int)
    requires
        0 < o,
        -(o * b) <= o * w <= o * b,
    ensures
        -b <= w <= b,
{
    assert(-b <= w <= b) by (nonlinear_arith)
        requires
            0 < o,
            -(o * b) <= o * w <= o * b,
    {
        if w > b {
            assert(o * w > o * b);
        }
        if w < -b {
            assert(o * w < o * (-b));
            assert(o * (-b) == -(o * b));
        }
    }
}

proof fn lemma_rate_bounds(o: int, q: int, n: int, d: int, z: int, v: int, r: int)
    requires
        0 < q,
        o == 0x800_0000_0000 * q,
        0 < n,
        -q <= z - d <= q,
        -(1000 * q) <= 1000 * v - n * o <= 1000 * q,
        o <= 1024 * v,
        v < 2048 * o,
        -(1025 * o) <= z <= 1025 * o,
        -(v * (2048 * q)) <= 2 * (v * r - z * o) <= v * (2048 * q),
    ensures
        -(0x2_0000_0000 * q) <= n * r - 1000 * d <= 0x2_0000_0000 * q,
{
    // The rate is at most about two millions.
    assert(-(0x20_0000 * o) <= r && r <= 0x20_0000 * o) by (nonlinear_arith)
        requires
            0 < q,
            o == 0x800_0000_0000 * q,
            o <= 1024 * v,
            -(1025 * o) <= z <= 1025 * o,
            -(v * (2048 * q)) <= 2 * (v * r - z * o) <= v * (2048 * q),
    {
        let vo = v * o;
        assert(0 < v);
        assert(v * (2048 * q) <= vo) by {
            assert(v * (2048 * q) <= v * o);
        }
        assert(z * o <= (1025 * o) * o);
        assert(z * o >= (-(1025 * o)) * o);
        assert((-(1025 * o)) * o == -((1025 * o) * o));
        assert((1025 * o) * o == 1025 * (o * o));
        assert(o * o <= (1024 * v) * o);
        assert((1024 * v) * o == 1024 * vo);
        if r > 0x20_0000 * o {
            assert(v * r > v * (0x20_0000 * o));
            assert(v * (0x20_0000 * o) == 0x20_0000 * vo);
        }
        if r < -(0x20_0000 * o) {
            assert(v * r < v * (-(0x20_0000 * o)));
            assert(v * (-(0x20_0000 * o)) == -(0x20_0000 * vo));
        }
    }
    let e = 1000 * v - n * o;
    let f = v * r - z * o;
    let g = n * r - 1000 * d;
    // o * (n * r - 1000 * d) == 1000 * f - e * r + 1000 * (z - d) * o
    assert(o * g == 1000 * f - e * r + 1000 * ((z - d) * o)) by (nonlinear_arith)
        requires
            e == 1000 * v - n * o,
            f == v * r - z * o,
            g == n * r - 1000 * d,
    ;
    let oq = o * q;
    assert(v * (2048 * q) <= 0x40_0000 * oq) by (nonlinear_arith)
        requires
            v < 2048 * o,
            0 < q,
            oq == o * q,
    {
        assert(v * (2048 * q) <= (2048 * o) * (2048 * q));
        assert((2048 * o) * (2048 * q) == 0x40_0000 * (o * q));
    }
    assert(-(1000 * (0x20_0000 * oq)) <= e * r && e * r <= 1000 * (0x20_0000 * oq))
        by (nonlinear_arith)
        requires
            -(1000 * q) <= e <= 1000 * q,
            -(0x20_0000 * o) <= r <= 0x20_0000 * o,
            0 < q,
            0 < o,
            oq == o * q,
    {
        let ee = if e >= 0 {
            e
        } else {
            -e
        };
        let rr = if r >= 0 {
            r
        } else {
            -r
        };
        assert(0 <= ee * rr);
        assert(ee * rr <= (1000 * q) * rr);
        assert((1000 * q) * rr <= (1000 * q) * (0x20_0000 * o));
        assert((1000 * q) * (0x20_0000 * o) == 1000 * (0x20_0000 * (o * q)));
        assert(e * r == ee * rr || e * r == -(ee * rr));
    }
    assert(-oq <= (z - d) * o && (z - d) * o <= oq) by (nonlinear_arith)
        requires
            -q <= z - d <= q,
            0 < o,
            oq == o * q,
    {
        assert((z - d) * o <= q * o);
        assert((z - d) * o >= (-q) * o);
        assert((-q) * o == -(q * o));
    }
    assert(0 < oq) by (nonlinear_arith)
        requires
            0 < o,
            0 < q,
            oq == o * q,
    ;
    assert(o * (0x2_0000_0000 * q) == 0x2_0000_0000 * oq) by (nonlinear_arith)
        requires
            oq == o * q,
    ;
    lemma_small(o, g, 0x2_0000_0000 * q);
}

} // verus!
