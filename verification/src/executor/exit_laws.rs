//! What a sale is worth, and when a position is left, in cents, dollars and seconds.

use crate::executor::client::ExitResponse;
use crate::executor::engine;
use crate::executor::engine::Book;
use crate::executor::position_tracker;
use crate::executor::position_tracker::{ExitReason, OpenPosition};
use crate::numeric::accuracy;
use crate::numeric::accuracy::is_whole;
use crate::numeric::binary64;
use crate::numeric::binary64::Binary64;
use crate::numeric::laws;
use crate::numeric::order;
use crate::numeric::rounding;
use crate::numeric::rounding::BINADE;
use crate::types::TradeSide;
use vstd::arithmetic::div_mod::*;
use vstd::arithmetic::power2::*;
use vstd::prelude::*;

verus! {

/// The profit of a sale, of a position on either side, is the sale price less the entry price for
/// each contract sold, to the cent: with prices in whole cents, and prices and counts below two to
/// the power of 20.
pub proof fn lemma_profit_to_the_cent(pos: OpenPosition, exit: ExitResponse, entry_cents: int)
    requires
        is_whole(pos.entry_price_cents, entry_cents),
        0 <= entry_cents < 0x10_0000,
        exit.fill_price_cents < 0x10_0000,
        exit.filled_count < 0x10_0000,
    ensures
        engine::profit(pos, exit) == exit.filled_count * (exit.fill_price_cents - entry_cents),
{
    let fill = Binary64::whole(exit.fill_price_cents as int);
    let count = Binary64::whole(exit.filled_count as int);
    let n = exit.filled_count as int;
    let gain = exit.fill_price_cents - entry_cents;
    laws::lemma_whole_exact(exit.fill_price_cents as int);
    laws::lemma_whole_exact(n);
    accuracy::lemma_whole_difference(
        fill,
        pos.entry_price_cents,
        exit.fill_price_cents as int,
        entry_cents,
    );
    assert(-0x100_0000_0000 <= gain * n <= 0x100_0000_0000) by (nonlinear_arith)
        requires
            -0x10_0000 <= gain <= 0x10_0000,
            0 <= n <= 0x10_0000,
    ;
    accuracy::lemma_whole_product(fill.difference(pos.entry_price_cents), count, gain, n);
    accuracy::lemma_whole_rounded(
        fill.difference(pos.entry_price_cents).product(count),
        gain * n,
    );
    assert(gain * n == n * gain) by (nonlinear_arith);
}

/// The profit of a sale depends on the prices and the count alone: not on the side, nor on anything
/// else of the position.
pub proof fn lemma_profit_is_the_same_for_both_sides(
    one: OpenPosition,
    other: OpenPosition,
    exit: ExitResponse,
)
    requires
        one.entry_price_cents == other.entry_price_cents,
    ensures
        engine::profit(one, exit) == engine::profit(other, exit),
{
}

/// Whatever the entry price is, a sale above it is never a loss, and one below it never a profit.
pub proof fn lemma_profit_has_the_sign_of_the_gain(pos: OpenPosition, exit: ExitResponse)
    requires
        pos.entry_price_cents.finite(),
    ensures
        pos.entry_price_cents.at_most(Binary64::whole(exit.fill_price_cents as int))
            ==> engine::profit(pos, exit) >= 0,
        Binary64::whole(exit.fill_price_cents as int).at_most(pos.entry_price_cents)
            ==> engine::profit(pos, exit) <= 0,
{
    let fill = Binary64::whole(exit.fill_price_cents as int);
    let count = Binary64::whole(exit.filled_count as int);
    let entry = pos.entry_price_cents;
    let zero = Binary64::whole(0);
    order::lemma_zero(zero);
    lemma_unsigned_finite(exit.fill_price_cents);
    lemma_unsigned_finite(exit.filled_count);
    binary64::lemma_order(entry, fill);
    binary64::lemma_order(fill, entry);
    order::lemma_difference_key(fill, entry);
    order::lemma_own_key(zero);
    if entry.at_most(fill) {
        order::lemma_nearest_order(0, 1, fill.units() - entry.units(), 1);
    }
    if fill.at_most(entry) {
        order::lemma_nearest_order(fill.units() - entry.units(), 1, 0, 1);
    }
    let gain = fill.difference(entry);
    lemma_sign_of_product(gain, count);
    lemma_sign_of_rounded(gain.product(count));
}

proof fn lemma_unsigned_finite(n: u64)
    ensures
        Binary64::whole(n as int).finite(),
        !Binary64::whole(n as int).negative(),
{
    let o = binary64::one();
    lemma_pow2_pos(1074);
    let top = 1int * pow2(1138);
    laws::lemma_round_exact(1, 1138);
    lemma2_to64();
    lemma_pow2_adds(64, 1074);
    assert(0 <= n * o <= 0x1_0000_0000_0000_0000 * o) by (nonlinear_arith)
        requires
            0 <= n <= 0x1_0000_0000_0000_0000,
            0 < o,
    ;
    laws::lemma_round_monotone(n * o, top, 1);
}

proof fn lemma_sign_of_product(x: Binary64, y: Binary64)
    requires
        !x.nan(),
        y.finite(),
        !y.negative(),
    ensures
        x.key() >= 0 ==> x.product(y).nan() || x.product(y).key() >= 0,
        x.key() <= 0 ==> x.product(y).nan() || x.product(y).key() <= 0,
{
    lemma_pow2_pos(1074);
    if x.finite() {
        let zero = Binary64::whole(0);
        order::lemma_zero(y);
        order::lemma_own_key(x);
        order::lemma_own_key(y);
        order::lemma_product_key(x, y);
        if x.key() >= 0 {
            order::lemma_product_monotone(zero, x, y);
        }
        if x.key() <= 0 {
            order::lemma_product_monotone(x, zero, y);
        }
    }
}

proof fn lemma_sign_of_rounded(x: Binary64)
    ensures
        x.nan() ==> x.rounded_integer() == 0,
        !x.nan() && x.key() >= 0 ==> x.rounded_integer() >= 0,
        !x.nan() && x.key() <= 0 ==> x.rounded_integer() <= 0,
{
    let o = binary64::one();
    lemma_pow2_pos(1074);
    if x.finite() {
        order::lemma_own_key(x);
        let a = binary64::magnitude_units(x.magnitude());
        lemma_div_pos_is_pos(2 * a + o, 2 * o);
        if x.magnitude() == 0 {
            lemma_fundamental_div_mod_converse(o, 2 * o, 0, o);
        }
    }
}

/// What a sale of a whole-cent position books: the day's profit moves by the gain of the contracts
/// sold, the position is gone and counted out, the other side stays blocked for two minutes, and the
/// same side too exactly where the loss has reached the threshold.
pub proof fn lemma_sale_is_booked(
    book: Book,
    pos: OpenPosition,
    exit: ExitResponse,
    now: u64,
    entry_cents: int,
    side: TradeSide,
    later: u64,
)
    requires
        is_whole(pos.entry_price_cents, entry_cents),
        0 <= entry_cents < 0x10_0000,
        exit.fill_price_cents < 0x10_0000,
        0 < exit.filled_count < 0x10_0000,
        now + 120_000 <= u64::MAX,
        -0x4000_0000_0000_0000 <= book.gate.daily_loss_cents <= 0x4000_0000_0000_0000,
    ensures
        ({
            let after = book.after_exit(pos, exit, now);
            let gain = exit.filled_count * (exit.fill_price_cents - entry_cents);
            &&& after.gate.daily_loss_cents == book.gate.daily_loss_cents + gain
            &&& after.gate.config == book.gate.config
            &&& after.gate.last_reset == book.gate.last_reset
            &&& book.gate.open_positions > 0 ==> after.gate.open_positions
                == book.gate.open_positions - 1
            &&& after.positions == book.positions.remove(pos.ticker@)
            &&& after.traded == book.traded
            &&& after.config == book.config
            &&& after.locked_against(pos.ticker@, side, later) <==> side != pos.side && later < now
                + 120_000
            &&& side == pos.side && gain < 0 && -gain >= book.config.reentry_loss_threshold_cents
                ==> (after.suppressed(pos.ticker@, side, later) <==> later < now + 120_000)
            &&& side != pos.side || gain >= 0 || -gain < book.config.reentry_loss_threshold_cents
                ==> after.suppressed(pos.ticker@, side, later) == book.suppressed(
                pos.ticker@,
                side,
                later,
            )
        }),
{
    lemma_profit_to_the_cent(pos, exit, entry_cents);
    let n = exit.filled_count as int;
    let gain = exit.fill_price_cents - entry_cents;
    assert(-0x100_0000_0000 <= n * gain <= 0x100_0000_0000) by (nonlinear_arith)
        requires
            -0x10_0000 <= gain <= 0x10_0000,
            0 <= n <= 0x10_0000,
    ;
    if engine::thesis_name(pos.ticker@, side) == engine::thesis_name(pos.ticker@, pos.side) {
        engine::lemma_thesis_name_distinct(pos.ticker@, side, pos.ticker@, pos.side);
    }
}


/// The stop-loss, in units of a cent: the bid is below four tenths of the entry price. Here and below
/// `slack` is how far a price may be off.
pub open spec fn stops(entry: int, bid: int, slack: int) -> bool {
    10 * bid < 4 * entry + slack
}

/// The profit target: the bid is 45 percent over the entry price or at 95 cents, and at least 10
/// cents over the entry price.
pub open spec fn takes_profit(entry: int, bid: int, slack: int) -> bool {
    &&& 145 * entry <= 100 * bid + slack || 95 * binary64::one() <= bid + slack
    &&& entry + 10 * binary64::one() <= bid + slack
}

/// The trailing stop: the peak was at least 10 cents over the entry price, and the bid is at least 8
/// cents below the peak.
pub open spec fn trails(entry: int, peak: int, bid: int, slack: int) -> bool {
    &&& entry + 10 * binary64::one() <= peak + slack
    &&& bid + 8 * binary64::one() <= peak + slack
}

/// The reversal: the index has moved by more than 30 dollars, down for a bet on yes and up for one on
/// no.
pub open spec fn turns(side: TradeSide, entry_brti: int, brti: int, slack: int) -> bool {
    match side {
        TradeSide::Yes => brti + 30 * binary64::one() < entry_brti + slack,
        TradeSide::No => entry_brti + 30 * binary64::one() < brti + slack,
    }
}

/// Near expiry: less than 90 seconds to go, and the bid below the entry price.
pub open spec fn expires(entry: int, bid: int, closes_at_ms: int, now_ms: int) -> bool {
    now_ms < closes_at_ms < now_ms + 90_000 && bid < entry
}

/// Whether a reason to leave a position, or none, is the right one: the first of the five that holds.
/// Where prices are off by less than the slack, or the index by less than its own, either answer is.
pub open spec fn rightly_left(
    reason: Option<ExitReason>,
    pos: OpenPosition,
    bid: Binary64,
    brti: Binary64,
    now_ms: u64,
    slack: int,
    brti_slack: int,
) -> bool {
    let e = pos.entry_price_cents.units();
    let b = bid.units();
    let k = pos.peak_price_cents.units();
    let stop = stops(e, b, -slack);
    let no_stop = !stops(e, b, slack);
    let take = takes_profit(e, b, -slack);
    let no_take = no_stop && !takes_profit(e, b, slack);
    let trail = trails(e, k, b, -slack);
    let no_trail = no_take && !trails(e, k, b, slack);
    let turn = turns(pos.side, pos.entry_brti.units(), brti.units(), -brti_slack);
    let no_turn = no_trail && !turns(pos.side, pos.entry_brti.units(), brti.units(), 0);
    let expire = expires(e, b, pos.closes_at_ms as int, now_ms as int);
    &&& stop ==> reason is Some && reason->0 is StopLoss
    &&& no_stop && take ==> reason is Some && reason->0 is ProfitTarget
    &&& no_take && trail ==> reason is Some && reason->0 is TrailingStop
    &&& no_trail && turn ==> reason is Some && reason->0 is BrtiReversal
    &&& no_turn && expire ==> reason is Some && reason->0 is NearExpiry
    &&& match reason {
        Some(ExitReason::StopLoss { entry_cents, current_cents }) => {
            &&& !no_stop
            &&& entry_cents == pos.entry_price_cents && current_cents == bid
        },
        Some(ExitReason::ProfitTarget { entry_cents, current_cents }) => {
            &&& !stop && takes_profit(e, b, slack)
            &&& entry_cents == pos.entry_price_cents && current_cents == bid
        },
        Some(ExitReason::TrailingStop { peak_cents, current_cents }) => {
            &&& !stop && !take && trails(e, k, b, slack)
            &&& peak_cents == pos.peak_price_cents && current_cents == bid
        },
        Some(ExitReason::BrtiReversal { entry_brti, current_brti, delta }) => {
            &&& !stop && !take && !trail
            &&& turns(pos.side, pos.entry_brti.units(), brti.units(), 0)
            &&& entry_brti == pos.entry_brti && current_brti == brti
            &&& delta == brti.difference(pos.entry_brti)
        },
        Some(ExitReason::NearExpiry { seconds_remaining }) => {
            &&& !stop && !take && !trail && !turn && expire
            &&& seconds_remaining * 1000 <= pos.closes_at_ms - now_ms < seconds_remaining * 1000
                + 1000
        },
        None => !stop && !take && !trail && !turn && !expire,
    }
}

/// The literals of the stop-loss and the profit target.
proof fn lemma_exit_literals()
    ensures
        Binary64::ratio(4, 10).finite(),
        10 * Binary64::ratio(4, 10).units() == 4 * binary64::one() + pow2(1022),
        Binary64::ratio(145, 100).finite(),
        100 * Binary64::ratio(145, 100).units() == 145 * binary64::one() - 20 * pow2(1022),
        binary64::one() == 0x10_0000_0000_0000 * pow2(1022),
{
    lemma2_to64();
    lemma2_to64_rest();
    lemma_pow2_adds(52, 1022);
    lemma_pow2_adds(2, 1020);
    lemma_pow2_pos(1020);
    order::lemma_ratio_units(4, 10, 54);
    order::lemma_ratio_units(145, 100, 52);
    assert(rounding::nearest_even(4int * pow2(54), 10) == 7_205_759_403_792_794) by {
        assert(4int * pow2(54) == 72_057_594_037_927_936);
    }
    assert(rounding::nearest_even(145int * pow2(52), 100) == 6_530_219_459_687_219) by {
        assert(145int * pow2(52) == 653_021_945_968_721_920);
    }
    assert(Binary64::ratio(4, 10).units() == 7_205_759_403_792_794 * pow2(1020));
    assert(pow2(1022) == 4 * pow2(1020));
    assert(Binary64::ratio(145, 100).units() == 6_530_219_459_687_219 * pow2(1022));
}

/// How near a product with one of the literals is to the exact one.
proof fn lemma_literal_product(x: Binary64, r: Binary64, k: nat)
    requires
        x.finite(),
        r.finite(),
        0 <= r.units() < 2 * binary64::one(),
        -pow2(52 + k) <= x.units() <= pow2(52 + k),
        k <= 2043 || x.product(r).finite(),
    ensures
        x.product(r).finite(),
        -(binary64::one() * pow2(k)) <= 2 * (binary64::one() * x.product(r).units() - x.units()
            * r.units()) <= binary64::one() * pow2(k),
{
    let o = binary64::one();
    let u = x.units();
    let v = r.units();
    let top = pow2(53 + k) as int;
    lemma_pow2_pos(1074);
    lemma_pow2_pos(52 + k);
    lemma_pow2_unfold(53 + k);
    order::lemma_product_key(x, r);
    assert(-(o * top) < u * v < o * top) by (nonlinear_arith)
        requires
            -(2 * u) <= top,
            2 * u <= top,
            0 <= v < 2 * o,
            0 < top,
    {
        if u >= 0 {
            assert(u * v <= u * (2 * o));
            assert((2 * u) * o <= top * o);
            if u > 0 {
                assert(u * v < u * (2 * o));
            }
            assert(0 < o * top);
            assert(0 <= u * v);
        } else {
            assert((-u) * v < (-u) * (2 * o));
            assert((-2 * u) * o <= top * o);
            assert(0 <= (-u) * v);
            assert(0 < o * top);
        }
    }
    order::lemma_nearest_error(x.product(r), u * v, o, k);
}

/// Ten stop-loss prices are within seven steps of four entry prices, where a step is what numbers of
/// up to 53 bits have.
proof fn lemma_stop_price(entry: Binary64, k: nat)
    requires
        entry.finite(),
        0 <= entry.units() <= pow2(52 + k),
        k <= 2043 || entry.product(Binary64::ratio(4, 10)).finite(),
    ensures
        ({
            let p = entry.product(Binary64::ratio(4, 10));
            &&& p.finite()
            &&& -(7 * pow2(k)) <= 10 * p.units() - 4 * entry.units() <= 7 * pow2(k)
        }),
{
    let o = binary64::one();
    let r = Binary64::ratio(4, 10);
    let u = entry.units();
    let v = r.units();
    let p = entry.product(r).units();
    let c = pow2(1022) as int;
    let g = pow2(k) as int;
    lemma_exit_literals();
    lemma_pow2_pos(1022);
    lemma_pow2_pos(k);
    lemma_literal_product(entry, r, k);
    lemma_pow2_adds(52, k);
    lemma2_to64_rest();
    assert(-(7 * g) <= 10 * p - 4 * u <= 7 * g) by (nonlinear_arith)
        requires
            -(o * g) <= 2 * (o * p - u * v) <= o * g,
            10 * v == 4 * o + c,
            o == 0x10_0000_0000_0000 * c,
            0 <= u <= 0x10_0000_0000_0000 * g,
            0 < c,
            0 < g,
    {
        assert(10 * (u * v) == 4 * (u * o) + u * c);
        assert(u * c <= (0x10_0000_0000_0000 * g) * c);
        assert((0x10_0000_0000_0000 * g) * c == o * g);
        assert(0 <= u * c);
        assert(-(6 * (o * g)) <= 10 * (o * p) - 4 * (u * o) <= 6 * (o * g));
        assert(10 * (o * p) - 4 * (u * o) == o * (10 * p - 4 * u));
        assert(6 * (o * g) == o * (6 * g));
    }
}

/// The price that is 45 percent over the entry price.
proof fn lemma_raised_price(entry: Binary64, k: nat)
    requires
        entry.finite(),
        0 <= entry.units() <= pow2(52 + k),
        k <= 2043,
    ensures
        ({
            let p = entry.product(Binary64::ratio(145, 100));
            &&& p.finite()
            &&& -(70 * pow2(k)) <= 100 * p.units() - 145 * entry.units() <= 70 * pow2(k)
        }),
{
    let o = binary64::one();
    let r = Binary64::ratio(145, 100);
    let u = entry.units();
    let v = r.units();
    let p = entry.product(r).units();
    let c = pow2(1022) as int;
    let g = pow2(k) as int;
    lemma_exit_literals();
    lemma_pow2_pos(1022);
    lemma_pow2_pos(k);
    lemma_literal_product(entry, r, k);
    lemma_pow2_adds(52, k);
    lemma2_to64_rest();
    assert(-(70 * g) <= 100 * p - 145 * u <= 70 * g) by (nonlinear_arith)
        requires
            -(o * g) <= 2 * (o * p - u * v) <= o * g,
            100 * v == 145 * o - 20 * c,
            o == 0x10_0000_0000_0000 * c,
            0 <= u <= 0x10_0000_0000_0000 * g,
            0 < c,
            0 < g,
    {
        assert(100 * (u * v) == 145 * (u * o) - 20 * (u * c));
        assert(u * c <= (0x10_0000_0000_0000 * g) * c);
        assert((0x10_0000_0000_0000 * g) * c == o * g);
        assert(0 <= u * c);
        assert(-(70 * (o * g)) <= 100 * (o * p) - 145 * (u * o) <= 70 * (o * g));
        assert(100 * (o * p) - 145 * (u * o) == o * (100 * p - 145 * u));
        assert(70 * (o * g) == o * (70 * g));
    }
}


/// The three conditions on prices of at most about a million cents.
proof fn lemma_price_conditions(entry: Binary64, peak: Binary64, bid: Binary64)
    requires
        entry.finite(),
        peak.finite(),
        bid.finite(),
        0 <= entry.units() <= 0x10_0000 * binary64::one(),
        0 <= peak.units() <= 0x10_0000 * binary64::one(),
        0 <= bid.units() <= 0x10_0000 * binary64::one(),
    ensures
        ({
            let t = pow2(1049) as int;
            let e = entry.units();
            let k = peak.units();
            let b = bid.units();
            let stop = bid.less(entry.product(Binary64::ratio(4, 10)));
            let take = position_tracker::profit_target(entry).at_most(bid);
            let trail = entry.sum(Binary64::whole(10)).at_most(peak) && bid.at_most(
                peak.difference(Binary64::whole(8)),
            );
            &&& stops(e, b, -t) ==> stop
            &&& stop ==> stops(e, b, t)
            &&& takes_profit(e, b, -t) ==> take
            &&& take ==> takes_profit(e, b, t)
            &&& trails(e, k, b, -t) ==> trail
            &&& trail ==> trails(e, k, b, t)
        }),
{
    let o = binary64::one();
    let ten = Binary64::whole(10);
    let eight = Binary64::whole(8);
    let most = Binary64::whole(95);
    lemma2_to64();
    lemma_pow2_adds(20, 1074);
    lemma_pow2_adds(1, 1094);
    lemma_pow2_adds(7, 1042);
    lemma_pow2_pos(1042);
    lemma_pow2_pos(1074);
    laws::lemma_whole_exact(10);
    laws::lemma_whole_exact(8);
    laws::lemma_whole_exact(95);
    lemma_stop_price(entry, 1042);
    lemma_raised_price(entry, 1042);
    accuracy::lemma_near_sum(entry, ten, 1042);
    accuracy::lemma_near_difference(peak, eight, 1042);
    let raised = entry.product(Binary64::ratio(145, 100));
    let floor = entry.sum(ten);
    let held = raised.lesser_of(most);
    binary64::lemma_order(bid, entry.product(Binary64::ratio(4, 10)));
    binary64::lemma_order(most, raised);
    binary64::lemma_order(raised, bid);
    binary64::lemma_order(most, bid);
    binary64::lemma_order(held, floor);
    binary64::lemma_order(held, bid);
    binary64::lemma_order(floor, bid);
    binary64::lemma_order(floor, peak);
    binary64::lemma_order(bid, peak.difference(eight));
}

/// No power of two is a multiple of 29.
proof fn lemma_no_multiple(n: nat)
    ensures
        pow2(n) % 29 != 0,
    decreases n,
{
    lemma2_to64();
    if n > 0 {
        lemma_no_multiple((n - 1) as nat);
        lemma_pow2_unfold(n);
    }
}

/// Four tenths of a whole number, where that is a whole number, is exact.
proof fn lemma_whole_stop_price(entry: Binary64, n: int, b: int)
    requires
        is_whole(entry, n),
        1 <= n < 0x10_0000,
        10 * b == 4 * n,
    ensures
        is_whole(entry.product(Binary64::ratio(4, 10)), b),
{
    let o = binary64::one();
    let r = Binary64::ratio(4, 10);
    let v = r.units();
    let c = pow2(1022) as int;
    lemma_exit_literals();
    lemma_pow2_pos(1074);
    lemma_pow2_pos(1021);
    lemma_pow2_unfold(1022);
    order::lemma_product_key(entry, r);
    let p = entry.units() * v;
    let q = pow2(1021) as int;
    assert(o * (b * o) <= p && 2 * (p - o * (b * o)) <= o * (b * q)) by (nonlinear_arith)
        requires
            p == (n * o) * v,
            10 * v == 4 * o + c,
            c == 2 * q,
            10 * b == 4 * n,
            0 < o,
            0 < q,
            1 <= n,
    {
        assert(10 * p == (n * o) * (4 * o + c));
        assert((n * o) * (4 * o + c) == (4 * n) * (o * o) + n * (o * c));
        assert((4 * n) * (o * o) == (10 * b) * (o * o));
        assert((10 * b) * (o * o) == 10 * (o * (b * o)));
        assert(10 * (p - o * (b * o)) == n * (o * c));
        assert(n * (o * c) == (2 * n) * (o * q));
        assert(0 < o * q);
        assert(0 < n * (o * q));
        assert(4 * (n * (o * q)) == (10 * b) * (o * q));
        assert((10 * b) * (o * q) == 10 * (o * (b * q)));
    }
    accuracy::lemma_just_above(entry.product(r), p, o, b);
}

/// A whole number and 45 percent, where that is a whole number, is exact.
proof fn lemma_whole_raised_price(entry: Binary64, n: int, b: int)
    requires
        is_whole(entry, n),
        1 <= n < 0x10_0000,
        100 * b == 145 * n,
    ensures
        is_whole(entry.product(Binary64::ratio(145, 100)), b),
{
    let o = binary64::one();
    let r = Binary64::ratio(145, 100);
    let v = r.units();
    let c = pow2(1022) as int;
    lemma_exit_literals();
    lemma_pow2_pos(1074);
    lemma_pow2_pos(1021);
    lemma_pow2_unfold(1022);
    order::lemma_product_key(entry, r);
    let p = entry.units() * v;
    let q = pow2(1021) as int;
    let oq = o * q;
    let gap = n * oq;
    assert(0 < gap && 5 * (o * (b * o) - p) == 2 * gap && 29 * gap == 20 * (o * (b * q)) && 2 * (o
        * (b * o) - p) <= o * (b * q)) by (nonlinear_arith)
        requires
            p == (n * o) * v,
            100 * v == 145 * o - 20 * c,
            c == 2 * q,
            100 * b == 145 * n,
            oq == o * q,
            gap == n * oq,
            0 < o,
            0 < q,
            1 <= n,
    {
        assert(100 * p == (n * o) * (145 * o - 20 * c));
        assert((n * o) * (145 * o - 20 * c) == (145 * n) * (o * o) - (20 * n) * (o * c));
        assert((145 * n) * (o * o) == (100 * b) * (o * o));
        assert((100 * b) * (o * o) == 100 * (o * (b * o)));
        assert((20 * n) * (o * c) == 40 * (n * oq));
        assert(0 < oq);
        assert(0 < n * oq);
        assert(29 * (n * oq) == (20 * b) * oq);
        assert((20 * b) * oq == 20 * (o * (b * q)));
    }
    let y = Binary64::whole(b);
    let e = binary64::exponent(y.magnitude());
    accuracy::lemma_whole_digits(b);
    accuracy::lemma_whole_binade(b);
    // A power of two is no multiple of 29.
    if b * o == pow2(52 + e) {
        lemma2_to64_rest();
        lemma_pow2_adds(52, 1022);
        lemma_pow2_adds((e - 1022) as nat, 1074);
        let h = pow2((e - 1022) as nat) as int;
        assert(b == h) by (nonlinear_arith)
            requires
                b * o == h * o,
                0 < o,
        ;
        lemma_no_multiple((e - 1022) as nat);
    }
    let low = pow2(52 + e) as int;
    let g = pow2(e) as int;
    let w = b * o;
    lemma_pow2_pos(e);
    let cc = b * q;
    assert(o * low <= p) by (nonlinear_arith)
        requires
            w >= low + g,
            2 * (o * w - p) <= o * cc,
            cc < g,
            0 < o,
            0 < g,
    {
        assert(o * cc < o * g);
        assert(o * w >= o * (low + g));
        assert(o * (low + g) == o * low + o * g);
        assert(0 < o * g);
    }
    accuracy::lemma_just_below(entry.product(r), p, o, b);
}

/// The three conditions on prices in whole cents.
proof fn lemma_whole_conditions(
    entry: Binary64,
    peak: Binary64,
    bid: Binary64,
    n: int,
    k: int,
    b: int,
)
    requires
        is_whole(entry, n),
        is_whole(peak, k),
        is_whole(bid, b),
        1 <= n < 0x10_0000,
        0 <= k < 0x10_0000,
        0 <= b < 0x10_0000,
    ensures
        bid.less(entry.product(Binary64::ratio(4, 10))) <==> 10 * b < 4 * n,
        position_tracker::profit_target(entry).at_most(bid) <==> (145 * n <= 100 * b || 95 <= b)
            && n + 10 <= b,
        entry.sum(Binary64::whole(10)).at_most(peak) <==> n + 10 <= k,
        bid.at_most(peak.difference(Binary64::whole(8))) <==> b + 8 <= k,
{
    let o = binary64::one();
    let ten = Binary64::whole(10);
    let eight = Binary64::whole(8);
    let most = Binary64::whole(95);
    let floor = entry.sum(ten);
    let stop = entry.product(Binary64::ratio(4, 10));
    let raised = entry.product(Binary64::ratio(145, 100));
    lemma_pow2_pos(1074);
    laws::lemma_whole_exact(10);
    laws::lemma_whole_exact(8);
    laws::lemma_whole_exact(95);
    accuracy::lemma_whole_sum(entry, ten, n, 10);
    accuracy::lemma_whole_difference(peak, eight, k, 8);
    accuracy::lemma_whole_order(floor, peak, n + 10, k);
    accuracy::lemma_whole_order(floor, bid, n + 10, b);
    accuracy::lemma_whole_order(most, bid, 95, b);
    accuracy::lemma_whole_order(bid, peak.difference(eight), b, k - 8);
    lemma_whole_bounds(n);
    lemma_whole_bounds(b);
    lemma2_to64();
    lemma_pow2_adds(20, 1074);
    lemma_pow2_adds(7, 1042);
    lemma_pow2_adds(25, 1049);
    lemma_pow2_pos(1042);
    lemma_pow2_pos(1049);
    lemma_stop_price(entry, 1042);
    lemma_raised_price(entry, 1042);
    binary64::lemma_order(bid, stop);
    binary64::lemma_order(raised, bid);
    if 10 * b == 4 * n {
        lemma_whole_stop_price(entry, n, b);
    } else {
        lemma_apart(10 * b, 4 * n, o);
        assert((10 * b) * o == 10 * (b * o) && (4 * n) * o == 4 * (n * o)) by (nonlinear_arith);
    }
    if 100 * b == 145 * n {
        lemma_whole_raised_price(entry, n, b);
    } else {
        lemma_apart(100 * b, 145 * n, o);
        assert((100 * b) * o == 100 * (b * o) && (145 * n) * o == 145 * (n * o))
            by (nonlinear_arith);
    }
    let held = raised.lesser_of(most);
    binary64::lemma_order(most, raised);
    binary64::lemma_order(most, bid);
    binary64::lemma_order(held, floor);
    binary64::lemma_order(held, bid);
    binary64::lemma_order(floor, bid);
}

proof fn lemma_whole_bounds(n: int)
    requires
        0 <= n < 0x10_0000,
    ensures
        0 <= n * binary64::one() <= 0x10_0000 * binary64::one(),
{
    let o = binary64::one();
    lemma_pow2_pos(1074);
    assert(0 <= n * o <= 0x10_0000 * o) by (nonlinear_arith)
        requires
            0 <= n <= 0x10_0000,
            0 < o,
    ;
}

proof fn lemma_apart(a: int, b: int, o: int)
    requires
        0 < o,
    ensures
        a < b ==> a * o + o <= b * o,
        b < a ==> b * o + o <= a * o,
{
    assert(a < b ==> a * o + o <= b * o) by (nonlinear_arith)
        requires
            0 < o,
    ;
    assert(b < a ==> b * o + o <= a * o) by (nonlinear_arith)
        requires
            0 < o,
    ;
}

/// The index has turned where it has moved by more than 30 dollars, and only there.
pub proof fn lemma_turn(side: TradeSide, entry_brti: Binary64, brti: Binary64)
    requires
        entry_brti.finite(),
        brti.finite(),
    ensures
        ({
            let turned = position_tracker::reversed(side, brti.difference(entry_brti));
            &&& turns(side, entry_brti.units(), brti.units(), -pow2(1026)) ==> turned
            &&& turned ==> turns(side, entry_brti.units(), brti.units(), 0)
        }),
{
    accuracy::lemma_moved(brti, entry_brti, 30);
}

/// A position with prices in whole cents is left exactly where one of the five reasons holds, and for
/// the first that does: a bid below four tenths of the entry price; a bid 45 percent over it, or at
/// 95 cents, and 10 cents over it; a bid 8 cents below a peak that was 10 cents over it; an index that
/// has moved against it by more than 30 dollars, up to two to the power of minus 48 of a dollar; less
/// than 90 seconds to go at a loss.
pub proof fn lemma_left_to_the_cent(
    pos: OpenPosition,
    bid: Binary64,
    brti: Binary64,
    now_ms: u64,
    entry_cents: int,
    peak_cents: int,
    bid_cents: int,
)
    requires
        is_whole(pos.entry_price_cents, entry_cents),
        is_whole(pos.peak_price_cents, peak_cents),
        is_whole(bid, bid_cents),
        1 <= entry_cents < 0x10_0000,
        0 <= peak_cents < 0x10_0000,
        0 <= bid_cents < 0x10_0000,
        pos.entry_brti.finite(),
        brti.finite(),
    ensures
        rightly_left(
            position_tracker::exit_reason(pos, bid, brti, now_ms),
            pos,
            bid,
            brti,
            now_ms,
            0,
            pow2(1026) as int,
        ),
{
    let o = binary64::one();
    let (n, k, b) = (entry_cents, peak_cents, bid_cents);
    lemma_pow2_pos(1074);
    lemma_whole_conditions(pos.entry_price_cents, pos.peak_price_cents, bid, n, k, b);
    lemma_turn(pos.side, pos.entry_brti, brti);
    accuracy::lemma_whole_order(bid, pos.entry_price_cents, b, n);
    lemma_apart(10 * b, 4 * n, o);
    lemma_apart(100 * b, 145 * n, o);
    lemma_apart(95, b, o);
    lemma_apart(n + 10, b, o);
    lemma_apart(n + 10, k, o);
    lemma_apart(b + 8, k, o);
    lemma_apart(b, n, o);
    assert((10 * b) * o == 10 * (b * o) && (4 * n) * o == 4 * (n * o) && (100 * b) * o == 100 * (b
        * o) && (145 * n) * o == 145 * (n * o) && (n + 10) * o == n * o + 10 * o && (b + 8) * o == b
        * o + 8 * o) by (nonlinear_arith);
}

/// A position with any prices up to about a million cents is left likewise, where its prices are more
/// than a thirty-millionth of a cent off the limits.
pub proof fn lemma_left_at_any_price(
    pos: OpenPosition,
    bid: Binary64,
    brti: Binary64,
    now_ms: u64,
)
    requires
        pos.entry_price_cents.finite(),
        pos.peak_price_cents.finite(),
        bid.finite(),
        0 <= pos.entry_price_cents.units() <= 0x10_0000 * binary64::one(),
        0 <= pos.peak_price_cents.units() <= 0x10_0000 * binary64::one(),
        0 <= bid.units() <= 0x10_0000 * binary64::one(),
        pos.entry_brti.finite(),
        brti.finite(),
    ensures
        rightly_left(
            position_tracker::exit_reason(pos, bid, brti, now_ms),
            pos,
            bid,
            brti,
            now_ms,
            pow2(1049) as int,
            pow2(1026) as int,
        ),
{
    lemma_price_conditions(pos.entry_price_cents, pos.peak_price_cents, bid);
    lemma_turn(pos.side, pos.entry_brti, brti);
    binary64::lemma_order(bid, pos.entry_price_cents);
}

/// The stop-loss comes first at every finite entry price, whatever the other arguments are: where ten
/// bids are less than four entry prices, up to 14 units in the last place of the entry price, and only
/// there.
pub proof fn lemma_stop_loss_comes_first(
    pos: OpenPosition,
    bid: Binary64,
    brti: Binary64,
    now_ms: u64,
)
    requires
        pos.entry_price_cents.finite(),
        0 <= pos.entry_price_cents.units(),
        bid.finite(),
    ensures
        ({
            let reason = position_tracker::exit_reason(pos, bid, brti, now_ms);
            let e = pos.entry_price_cents.units();
            let place = accuracy::last_place(pos.entry_price_cents);
            &&& stops(e, bid.units(), -(14 * place)) ==> reason is Some && reason->0 is StopLoss
            &&& reason is Some && reason->0 is StopLoss ==> stops(e, bid.units(), 14 * place)
        }),
{
    let entry = pos.entry_price_cents;
    let m = entry.magnitude();
    let e = binary64::exponent(m);
    let s = binary64::significand(m);
    let g = pow2(e) as int;
    lemma2_to64();
    lemma2_to64_rest();
    lemma_pow2_pos(e);
    lemma_pow2_adds(1, e);
    lemma_pow2_adds(52, e + 1);
    lemma_mod_bound(m, BINADE as int);
    order::lemma_own_key(entry);
    assert(s * g <= (2 * BINADE) * g) by (nonlinear_arith)
        requires
            s < 2 * BINADE,
            0 < g,
    ;
    let one = Binary64::whole(1);
    let r = Binary64::ratio(4, 10);
    lemma_exit_literals();
    lemma_pow2_pos(1022);
    order::lemma_times_one(entry);
    order::lemma_own_key(r);
    binary64::lemma_order(r, one);
    order::lemma_product_commutes(entry, r);
    order::lemma_product_commutes(entry, one);
    order::lemma_product_key(r, entry);
    order::lemma_product_key(one, entry);
    order::lemma_product_monotone(r, one, entry);
    order::lemma_zero(entry);
    binary64::lemma_order(Binary64::whole(0), r);
    order::lemma_product_monotone(Binary64::whole(0), r, entry);
    lemma_stop_price(entry, e + 1);
    binary64::lemma_order(bid, entry.product(Binary64::ratio(4, 10)));
}

} // verus!
