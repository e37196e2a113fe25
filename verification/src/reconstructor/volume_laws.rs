//! The median by exact volumes, and which windows have a part in an estimate.

use crate::numeric::accuracy;
use crate::numeric::binary64;
use crate::numeric::binary64::Binary64;
use crate::numeric::laws;
use crate::numeric::order;
use crate::numeric::rounding;
use crate::numeric::rounding::BINADE;
use crate::reconstructor::engine;
use crate::reconstructor::report::Reporter;
use crate::reconstructor::validator;
use crate::reconstructor::window;
use crate::types::{BrtiEstimate, Exchange, ReconstructorConfig, Trade};
use vstd::arithmetic::div_mod::*;
use vstd::arithmetic::power2::*;
use vstd::prelude::*;

verus! {

/// The exact volume of those trades of a row that are counted, in units.
pub open spec fn exact_volume(s: Seq<Trade>, counted: spec_fn(Trade) -> bool) -> int
    decreases s.len(),
{
    if s.len() == 0 {
        0
    } else {
        exact_volume(s.drop_last(), counted) + (if counted(s.last()) {
            s.last().size.units()
        } else {
            0
        })
    }
}

/// Every trade.
pub open spec fn any_price() -> spec_fn(Trade) -> bool {
    |t: Trade| true
}

/// The trades below a price.
pub open spec fn below(price: Binary64) -> spec_fn(Trade) -> bool {
    |t: Trade| t.price.less(price)
}

/// The trades up to a price.
pub open spec fn up_to(price: Binary64) -> spec_fn(Trade) -> bool {
    |t: Trade| t.price.at_most(price)
}

/// Whether every size of a row is positive and a multiple of a power of two of units.
pub open spec fn in_lots(s: Seq<Trade>, k: nat) -> bool {
    forall|i: int|
        0 <= i < s.len() ==> (#[trigger] s[i]).size.finite() && s[i].size.units() > 0
            && s[i].size.units() % (pow2(k) as int) == 0
}

proof fn lemma_volume_of_insert(s: Seq<Trade>, i: int, t: Trade, counted: spec_fn(Trade) -> bool)
    requires
        0 <= i <= s.len(),
    ensures
        exact_volume(s.insert(i, t), counted) == exact_volume(s, counted) + (if counted(t) {
            t.size.units()
        } else {
            0
        }),
    decreases s.len(),
{
    let all = s.insert(i, t);
    if i == s.len() {
        assert(all.drop_last() == s);
    } else {
        assert(all.drop_last() == s.drop_last().insert(i, t));
        assert(all.last() == s.last());
        lemma_volume_of_insert(s.drop_last(), i, t, counted);
    }
}

/// Sorting keeps every volume.
proof fn lemma_volume_by_price(s: Seq<Trade>, counted: spec_fn(Trade) -> bool)
    ensures
        exact_volume(window::by_price(s), counted) == exact_volume(s, counted),
    decreases s.len(),
{
    if s.len() > 0 {
        let rest = window::by_price(s.drop_last());
        lemma_volume_by_price(s.drop_last(), counted);
        window::lemma_insertion_place(rest, s.last(), 0);
        lemma_volume_of_insert(
            rest,
            window::insertion_place(rest, s.last(), 0),
            s.last(),
            counted,
        );
    }
}

/// Where the first trades of a row are those that are counted, their volume is that of the first ones.
proof fn lemma_volume_of_first(s: Seq<Trade>, counted: spec_fn(Trade) -> bool, place: int)
    requires
        0 <= place <= s.len(),
        forall|i: int| 0 <= i < s.len() ==> (counted(#[trigger] s[i]) <==> i < place),
    ensures
        exact_volume(s, counted) == exact_volume(s.take(place), any_price()),
    decreases s.len(),
{
    if s.len() > 0 {
        let rest = s.drop_last();
        assert(s.last() == s[s.len() - 1]);
        if place == s.len() {
            assert forall|i: int| 0 <= i < rest.len() implies (counted(#[trigger] rest[i]) <==> i
                < place - 1) by {
                assert(rest[i] == s[i]);
            }
            lemma_volume_of_first(rest, counted, place - 1);
            assert(rest.take(place - 1) == rest);
            assert(s.take(place) == s);
        } else {
            assert forall|i: int| 0 <= i < rest.len() implies (counted(#[trigger] rest[i]) <==> i
                < place) by {
                assert(rest[i] == s[i]);
            }
            lemma_volume_of_first(rest, counted, place);
            assert(rest.take(place) == s.take(place));
        }
    }
}

/// A number of lots, as a number.
proof fn lemma_lots(n: int, k: nat) -> (y: Binary64)
    requires
        0 <= n < 2 * BINADE,
        k <= 1074,
    ensures
        y.finite(),
        y.units() == n * pow2(k),
{
    let y = Binary64::make(false, rounding::round_ratio(n * pow2(k), 1));
    laws::lemma_round_exact(n, k);
    y
}

/// The volume of a row in lots is one in lots, and more than zero where the row has trades.
proof fn lemma_volume_in_lots(s: Seq<Trade>, k: nat)
    requires
        in_lots(s, k),
    ensures
        exact_volume(s, any_price()) % (pow2(k) as int) == 0,
        0 <= exact_volume(s, any_price()),
        s.len() > 0 ==> exact_volume(s, any_price()) >= pow2(k),
    decreases s.len(),
{
    let g = pow2(k) as int;
    lemma_pow2_pos(k);
    if s.len() > 0 {
        let rest = s.drop_last();
        assert forall|i: int| 0 <= i < rest.len() implies (#[trigger] rest[i]).size.finite()
            && rest[i].size.units() > 0 && rest[i].size.units() % g == 0 by {
            assert(rest[i] == s[i]);
        }
        lemma_volume_in_lots(rest, k);
        let a = exact_volume(rest, any_price());
        let b = s.last().size.units();
        assert(s.last() == s[s.len() - 1]);
        lemma_mod_adds(a, b, g);
        if b < g {
            lemma_small_mod(b as nat, g as nat);
        }
    } else {
        lemma_small_mod(0, g as nat);
    }
}

/// The first trades of a row have at most its volume.
proof fn lemma_volume_of_take(s: Seq<Trade>, k: nat, count: int)
    requires
        in_lots(s, k),
        0 <= count <= s.len(),
    ensures
        in_lots(s.take(count), k),
        exact_volume(s.take(count), any_price()) <= exact_volume(s, any_price()),
    decreases s.len(),
{
    let g = pow2(k) as int;
    assert forall|i: int| 0 <= i < count implies (#[trigger] s.take(count)[i]).size.finite()
        && s.take(count)[i].size.units() > 0 && s.take(count)[i].size.units() % g == 0 by {
        assert(s.take(count)[i] == s[i]);
    }
    if count < s.len() {
        let rest = s.drop_last();
        assert forall|i: int| 0 <= i < rest.len() implies (#[trigger] rest[i]).size.finite()
            && rest[i].size.units() > 0 && rest[i].size.units() % g == 0 by {
            assert(rest[i] == s[i]);
        }
        lemma_volume_of_take(rest, k, count);
        assert(rest.take(count) == s.take(count));
        assert(s.last() == s[s.len() - 1]);
    } else {
        assert(s.take(count) == s);
    }
}

/// A sum in lots is exact.
proof fn lemma_sum_in_lots(x: Binary64, y: Binary64, k: nat)
    requires
        x.finite(),
        y.finite(),
        0 <= x.units() + y.units() < pow2(53 + k),
        (x.units() + y.units()) % (pow2(k) as int) == 0,
        k <= 1074,
    ensures
        x.sum(y).finite(),
        x.sum(y).units() == x.units() + y.units(),
{
    let g = pow2(k) as int;
    let t = x.units() + y.units();
    lemma_pow2_pos(k);
    lemma_pow2_adds(53, k);
    lemma2_to64_rest();
    lemma_fundamental_div_mod(t, g);
    let n = t / g;
    lemma_div_pos_is_pos(t, g);
    assert(n < 2 * BINADE && t == n * g) by (nonlinear_arith)
        requires
            t == g * n + 0,
            t < (2 * BINADE) * g,
            0 < g,
    ;
    let z = lemma_lots(n, k);
    order::lemma_sum_key(x, y);
    assert(1 * z.units() == z.units());
    accuracy::lemma_exact(x.sum(y), z, t, 1);
}

/// The volumes that are added up are exact for sizes in lots.
proof fn lemma_total_in_lots(s: Seq<Trade>, k: nat)
    requires
        in_lots(s, k),
        exact_volume(s, any_price()) < pow2(53 + k),
        k <= 1074,
    ensures
        window::total_size(s).finite(),
        window::total_size(s).units() == exact_volume(s, any_price()),
    decreases s.len(),
{
    lemma_volume_in_lots(s, k);
    if s.len() == 0 {
        binary64::lemma_small_units(0);
    } else {
        let rest = s.drop_last();
        lemma_volume_of_take(s, k, s.len() - 1);
        assert(s.take(s.len() - 1) == rest);
        assert(s.last() == s[s.len() - 1]);
        lemma_total_in_lots(rest, k);
        lemma_sum_in_lots(window::total_size(rest), s.last().size, k);
    }
}

proof fn lemma_first_in_lots(s: Seq<Trade>, k: nat, count: int)
    requires
        in_lots(s, k),
        exact_volume(s, any_price()) < pow2(53 + k),
        k <= 1074,
        0 <= count <= s.len(),
    ensures
        window::volume(s, count).finite(),
        window::volume(s, count).units() == exact_volume(s.take(count), any_price()),
    decreases count,
{
    lemma_volume_of_take(s, k, count);
    lemma_volume_in_lots(s.take(count), k);
    if count == 0 {
        binary64::lemma_small_units(0);
    } else {
        lemma_first_in_lots(s, k, count - 1);
        assert(s.take(count).drop_last() == s.take(count - 1));
        assert(s.take(count).last() == s[count - 1]);
        lemma_sum_in_lots(window::volume(s, count - 1), s[count - 1].size, k);
    }
}

/// The median halves the exact volume: the trades of a lower price have less than half of it, and
/// those of no higher price at least half. The sizes are multiples of a power of two, and add up to
/// less than two to the power of 53 of these.
pub proof fn lemma_median_halves_the_exact_volume(s: Seq<Trade>, k: nat)
    requires
        s.len() > 0,
        window::prices_ordered(s),
        1 <= k <= 1074,
        in_lots(s, k),
        exact_volume(s, any_price()) < pow2(53 + k),
    ensures
        window::median_price(s) is Some,
        ({
            let median = window::median_price(s)->0;
            let all = exact_volume(s, any_price());
            &&& 2 * exact_volume(s, below(median)) < all
            &&& all <= 2 * exact_volume(s, up_to(median))
        }),
{
    broadcast use vstd::seq_lib::group_to_multiset_ensures;

    let sorted = window::by_price(s);
    let g = pow2(k) as int;
    let o = binary64::one();
    lemma_pow2_pos(k);
    lemma_pow2_pos(1074);
    window::lemma_by_price_keeps(s);
    assert forall|i: int| 0 <= i < sorted.len() implies (#[trigger] sorted[i]).size.finite()
        && sorted[i].size.units() > 0 && sorted[i].size.units() % g == 0 by {
        assert(sorted.contains(sorted[i]));
        assert(s.to_multiset().count(sorted[i]) > 0);
        assert(s.contains(sorted[i]));
    }
    assert forall|i: int| 0 <= i < s.len() implies Binary64::whole(0).less(
        (#[trigger] s[i]).size,
    ) by {
        order::lemma_zero(s[i].size);
        binary64::lemma_order(Binary64::whole(0), s[i].size);
    }
    lemma_volume_by_price(s, any_price());
    lemma_total_in_lots(sorted, k);
    lemma_volume_in_lots(sorted, k);
    let total = window::total_size(sorted);
    let t = total.units();
    // Half of the volume.
    lemma2_to64();
    lemma2_to64_rest();
    lemma_pow2_unfold(k);
    lemma_pow2_pos((k - 1) as nat);
    lemma_pow2_adds(53, k);
    lemma_fundamental_div_mod(t, g);
    let n = t / g;
    lemma_div_pos_is_pos(t, g);
    let h = pow2((k - 1) as nat) as int;
    assert(n < 2 * BINADE && t == 2 * (n * h)) by (nonlinear_arith)
        requires
            t == g * n + 0,
            t < (2 * BINADE) * g,
            g == 2 * h,
            0 < h,
    ;
    let y = lemma_lots(n, (k - 1) as nat);
    let two = Binary64::whole(2);
    laws::lemma_whole_exact(2);
    order::lemma_quotient_key(total, two);
    let half = total.quotient(two);
    assert(t * o == (2 * o) * y.units()) by (nonlinear_arith)
        requires
            t == 2 * y.units(),
    ;
    accuracy::lemma_exact(half, y, t * o, 2 * o);
    assert(total.magnitude() > 1) by {
        if total.magnitude() <= 1 {
            binary64::lemma_small_units(total.magnitude());
            order::lemma_own_key(total);
        }
    }
    let (p, q) = window::lemma_median_halves_the_volume(s);
    let median = window::median_price(s)->0;
    lemma_first_in_lots(sorted, k, p);
    lemma_first_in_lots(sorted, k, q);
    binary64::lemma_order(window::volume(sorted, p), half);
    binary64::lemma_order(half, window::volume(sorted, q));
    lemma_volume_of_first(sorted, below(median), p);
    lemma_volume_of_first(sorted, up_to(median), q);
    lemma_volume_by_price(s, below(median));
    lemma_volume_by_price(s, up_to(median));
}

/// The windows that have a part in an estimate: those with a trade that came at most the threshold
/// ago.
pub open spec fn live(now_ms: int, threshold_ms: int) -> spec_fn(Seq<Trade>) -> bool {
    |w: Seq<Trade>| w.len() > 0 && now_ms - w.last().local_ts <= threshold_ms
}

/// Each live window has a part in an estimate with its median, in the order of the exchanges, and no
/// other has.
pub proof fn lemma_live_windows(windows: Seq<Seq<Trade>>, now_ms: int, threshold_ms: int)
    requires
        0 <= threshold_ms,
    ensures
        ({
            let prices = engine::live_prices(windows, now_ms, threshold_ms);
            let counted = windows.filter(live(now_ms, threshold_ms));
            &&& prices.len() == counted.len()
            &&& forall|i: int|
                0 <= i < prices.len() ==> window::median_price(counted[i]) == Some(
                    #[trigger] prices[i],
                )
        }),
    decreases windows.len(),
{
    reveal(Seq::filter);
    if windows.len() > 0 {
        lemma_live_windows(windows.drop_last(), now_ms, threshold_ms);
        let rest = engine::live_prices(windows.drop_last(), now_ms, threshold_ms);
        let prices = engine::live_prices(windows, now_ms, threshold_ms);
        let before = windows.drop_last().filter(live(now_ms, threshold_ms));
        let counted = windows.filter(live(now_ms, threshold_ms));
        assert forall|i: int| 0 <= i < rest.len() implies prices[i] == #[trigger] rest[i]
            && counted[i] == before[i] by {}
    }
}

/// Each exchange has a window of its own among the eight.
pub proof fn lemma_windows_are_apart(a: Exchange, b: Exchange)
    ensures
        0 <= engine::place(a) < 8,
        engine::place(a) == engine::place(b) <==> a == b,
        engine::EXCHANGES == 8,
{
}

/// A trade that comes in is the newest of its window. Only trades that came more than the length of
/// the window before it go, from the front, and the first that stays is no older than that.
pub proof fn lemma_window_by_the_clock(s: Seq<Trade>, trade: Trade, window_secs: int)
    requires
        0 <= window_secs,
    ensures
        ({
            let kept = window::pushed(s, trade, window_secs);
            let gone = s.len() + 1 - kept.len();
            &&& 0 <= gone <= s.len()
            &&& kept == s.push(trade).skip(gone)
            &&& forall|i: int|
                0 <= i < gone ==> (#[trigger] s[i]).local_ts + window_secs * 1000 < trade.local_ts
            &&& gone < s.len() ==> s[gone].local_ts + window_secs * 1000 >= trade.local_ts
        }),
{
    let cutoff = if trade.local_ts >= window_secs * 1000 {
        trade.local_ts - window_secs * 1000
    } else {
        0
    };
    lemma_evicted(s, cutoff);
    let left = window::evicted(s, cutoff);
    let gone = s.len() - left.len();
    assert(window::pushed(s, trade, window_secs) =~= s.push(trade).skip(gone));
}

proof fn lemma_evicted(s: Seq<Trade>, cutoff: int)
    ensures
        ({
            let left = window::evicted(s, cutoff);
            let gone = s.len() - left.len();
            &&& left.len() <= s.len()
            &&& left == s.skip(gone)
            &&& forall|i: int| 0 <= i < gone ==> (#[trigger] s[i]).local_ts < cutoff
            &&& left.len() > 0 ==> left[0].local_ts >= cutoff
        }),
    decreases s.len(),
{
    if s.len() > 0 && s[0].local_ts < cutoff {
        let rest = s.skip(1);
        lemma_evicted(rest, cutoff);
        let left = window::evicted(s, cutoff);
        let gone = s.len() - left.len();
        assert(left == s.skip(gone));
        assert forall|i: int| 0 <= i < gone implies (#[trigger] s[i]).local_ts < cutoff by {
            if i > 0 {
                assert(rest[i - 1] == s[i]);
            }
        }
    } else {
        assert(s.skip(0) == s);
    }
}

/// An estimate has as many exchanges as there are live windows, there is one where they are at least
/// as many as are needed, and its confidence is their part of the eight, exactly.
pub proof fn lemma_estimate_counts_the_live(
    windows: Seq<Seq<Trade>>,
    config: ReconstructorConfig,
    now_ms: u64,
)
    requires
        windows.len() == 8,
    ensures
        ({
            let n = windows.filter(
                live(now_ms as int, config.staleness_threshold_ms as int),
            ).len();
            match engine::estimate(windows, config, now_ms) {
                Some(e) => {
                    &&& n >= config.min_exchanges
                    &&& e.exchange_count == n
                    &&& e.confidence.finite()
                    &&& 8 * e.confidence.units() == n * binary64::one()
                    &&& e.timestamp == now_ms
                },
                None => n < config.min_exchanges,
            }
        }),
{
    let n = windows.filter(live(now_ms as int, config.staleness_threshold_ms as int)).len() as int;
    lemma_live_windows(windows, now_ms as int, config.staleness_threshold_ms as int);
    engine::lemma_live_len(windows, now_ms as int, config.staleness_threshold_ms as int);
    lemma_eighths(n);
}

/// Eighths are exact.
proof fn lemma_eighths(n: int)
    requires
        0 <= n <= 8,
    ensures
        Binary64::whole(n).quotient(Binary64::whole(8)).finite(),
        8 * Binary64::whole(n).quotient(Binary64::whole(8)).units() == n * binary64::one(),
{
    let o = binary64::one();
    let y = lemma_lots(n, 1071);
    lemma2_to64();
    lemma_pow2_pos(1074);
    lemma_pow2_adds(3, 1071);
    laws::lemma_whole_exact(n);
    laws::lemma_whole_exact(8);
    order::lemma_quotient_key(Binary64::whole(n), Binary64::whole(8));
    assert((n * o) * o == (8 * o) * y.units() && 8 * y.units() == n * o) by (nonlinear_arith)
        requires
            y.units() == n * pow2(1071),
            o == 8 * pow2(1071),
    ;
    accuracy::lemma_exact(
        Binary64::whole(n).quotient(Binary64::whole(8)),
        y,
        (n * o) * o,
        8 * o,
    );
}

/// An estimate is logged where its count of exchanges is not the last logged one, or at least 100
/// milliseconds have gone by, and only there; with a warning where fewer than five of the eight are
/// live.
pub proof fn lemma_logged(reporter: Reporter, estimate: BrtiEstimate, since_last_ms: u64, n: int)
    requires
        0 <= n <= 8,
        estimate.confidence == Binary64::whole(n).quotient(Binary64::whole(8)),
    ensures
        reporter.decision(estimate, since_last_ms).log <==> estimate.exchange_count
            != reporter.last_exchange_count || since_last_ms >= 100,
        reporter.decision(estimate, since_last_ms).low_confidence <==> reporter.decision(
            estimate,
            since_last_ms,
        ).log && n < 5,
{
    let o = binary64::one();
    let x = estimate.confidence;
    let r = Binary64::ratio(6, 10);
    lemma_eighths(n);
    lemma_pow2_pos(1074);
    lemma_pow2_pos(1021);
    lemma2_to64_rest();
    lemma_pow2_adds(53, 1021);
    accuracy::lemma_ratio_key(6, 10);
    assert(-(10 * pow2(53 + 1021)) < 6 * o < 10 * pow2(53 + 1021));
    order::lemma_nearest_error(r, 6 * o, 10, 1021);
    binary64::lemma_order(x, r);
    assert(n < 5 ==> n * o <= 4 * o) by (nonlinear_arith)
        requires
            0 < o,
    ;
    assert(n >= 5 ==> n * o >= 5 * o) by (nonlinear_arith)
        requires
            0 < o,
    ;
}

/// The latest hundred errors are kept: the one that has come in is the newest, and the oldest goes
/// where there would be more.
pub proof fn lemma_latest_hundred(errors: Seq<Binary64>, error: Binary64)
    requires
        errors.len() <= 100,
    ensures
        ({
            let kept = validator::recorded(errors, error);
            &&& kept.len() == (if errors.len() < 100 {
                errors.len() + 1
            } else {
                100
            })
            &&& kept == errors.push(error).skip(errors.len() + 1 - kept.len())
            &&& kept.last() == error
        }),
{
    assert(errors.push(error).skip(0) == errors.push(error));
}

/// The exact sum of the sizes of a row of errors, in units.
pub open spec fn exact_error(errors: Seq<Binary64>) -> int
    decreases errors.len(),
{
    if errors.len() == 0 {
        0
    } else {
        exact_error(errors.drop_last()) + (if errors.last().units() < 0 {
            -errors.last().units()
        } else {
            errors.last().units()
        })
    }
}

/// Whether every error of a row is finite and at most about a million dollars.
pub open spec fn errors_moderate(errors: Seq<Binary64>) -> bool {
    forall|i: int|
        0 <= i < errors.len() ==> (#[trigger] errors[i]).finite() && -(0x10_0000
            * binary64::one()) <= errors[i].units() <= 0x10_0000 * binary64::one()
}

proof fn lemma_total_error(errors: Seq<Binary64>)
    requires
        errors.len() <= 100,
        errors_moderate(errors),
    ensures
        validator::total_error(errors).finite(),
        0 <= exact_error(errors) <= errors.len() * (0x10_0000 * binary64::one()),
        -(errors.len() * pow2(1047)) <= validator::total_error(errors).units() - exact_error(errors)
            <= errors.len() * pow2(1047),
    decreases errors.len(),
{
    let o = binary64::one();
    let h = pow2(1047) as int;
    let top = 0x10_0000 * o;
    lemma2_to64();
    lemma2_to64_rest();
    lemma_pow2_pos(1074);
    lemma_pow2_pos(1047);
    lemma_pow2_adds(27, 1074);
    lemma_pow2_adds(27, 1047);
    lemma_pow2_adds(1, 1047);
    if errors.len() == 0 {
        binary64::lemma_small_units(0);
        assert(0 * top == 0 && 0 * h == 0);
    } else {
        let rest = errors.drop_last();
        let last = errors.last();
        let n = errors.len() as int;
        assert(last == errors[n - 1]);
        assert forall|i: int| 0 <= i < rest.len() implies (#[trigger] rest[i]).finite() && -top
            <= rest[i].units() <= top by {
            assert(rest[i] == errors[i]);
        }
        lemma_total_error(rest);
        order::lemma_own_key(last);
        order::lemma_own_key(last.absolute());
        let total = validator::total_error(rest);
        assert((n - 1) * top + top == n * top && (n - 1) * h + h == n * h) by (nonlinear_arith);
        assert((n - 1) * top <= 99 * top && (n - 1) * h <= 99 * h && 0 <= (n - 1) * h)
            by (nonlinear_arith)
            requires
                1 <= n <= 100,
                0 < top,
                0 < h,
        ;
        accuracy::lemma_near_sum(total, last.absolute(), 1048);
    }
}

/// The mean size of the errors is that of the exact ones, up to two to the power of minus 25 of a
/// dollar: for up to a hundred errors of at most about a million dollars.
pub proof fn lemma_mean_absolute_error(errors: Seq<Binary64>)
    requires
        1 <= errors.len() <= 100,
        errors_moderate(errors),
    ensures
        ({
            let n = errors.len() as int;
            let mean = validator::total_error(errors).quotient(Binary64::whole(n));
            &&& mean.finite()
            &&& -(n * pow2(1049)) <= n * mean.units() - exact_error(errors) <= n * pow2(1049)
        }),
{
    let o = binary64::one();
    let n = errors.len() as int;
    let h = pow2(1047) as int;
    let top = 0x10_0000 * o;
    let total = validator::total_error(errors);
    let mean = total.quotient(Binary64::whole(n));
    lemma2_to64();
    lemma2_to64_rest();
    lemma_pow2_pos(1074);
    lemma_pow2_pos(1047);
    lemma_pow2_adds(27, 1047);
    lemma_pow2_adds(27, 1074);
    lemma_pow2_adds(1, 1047);
    lemma_pow2_adds(2, 1047);
    lemma_total_error(errors);
    laws::lemma_whole_exact(n);
    let d = n * o;
    let t = total.units();
    assert(0 < d) by (nonlinear_arith)
        requires
            d == n * o,
            1 <= n,
            0 < o,
    ;
    order::lemma_quotient_key(total, Binary64::whole(n));
    let big = pow2(53 + 1048) as int;
    assert(-(d * big) < t * o && t * o < d * big) by (nonlinear_arith)
        requires
            d == n * o,
            -(n * h) <= t <= n * top + n * h,
            top + h < big,
            0 < h,
            h < big,
            0 < o,
            1 <= n,
    {
        assert(n * top + n * h == n * (top + h));
        assert(n * (top + h) < n * big);
        assert(n * h < n * big);
        assert(t * o < (n * big) * o);
        assert(t * o > (-(n * big)) * o);
        assert((-(n * big)) * o == -((n * big) * o));
        assert((n * big) * o == d * big);
    }
    order::lemma_nearest_error(mean, t * o, d, 1048);
    let u = mean.units();
    assert(-(n * h) <= n * u - t <= n * h) by (nonlinear_arith)
        requires
            -(d * (2 * h)) <= 2 * (d * u - t * o) <= d * (2 * h),
            d == n * o,
            0 < o,
    {
        let w = n * u - t;
        assert(d * u - t * o == o * w);
        assert(d * (2 * h) == 2 * (o * (n * h)));
        if w > n * h {
            assert(o * w > o * (n * h));
        }
        if w < -(n * h) {
            assert(o * w < o * (-(n * h)));
            assert(o * (-(n * h)) == -(o * (n * h)));
        }
    }
    assert(n * pow2(1049) == 4 * (n * h)) by (nonlinear_arith)
        requires
            pow2(1049) == 4 * h,
    ;
    assert(0 < n * h) by (nonlinear_arith)
        requires
            1 <= n,
            0 < h,
    ;
}

} // verus!
