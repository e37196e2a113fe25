//! Which opportunities become orders, how large, and what the answers change: in cents, milliseconds
//! and counts.

use crate::executor::client::{MarketBids, OrderResponse};
use crate::executor::engine;
use crate::executor::engine::{Admission, Book};
use crate::executor::kelly_laws;
use crate::executor::kelly_laws::held;
use crate::executor::position_tracker::OpenPosition;
use crate::executor::risk;
use crate::executor::risk::RiskGate;
use crate::executor::sizing;
use crate::numeric::accuracy;
use crate::numeric::accuracy::{is_whole, last_place};
use crate::numeric::binary64;
use crate::numeric::binary64::Binary64;
use crate::numeric::laws;
use crate::numeric::order;
use crate::numeric::rounding;
use crate::numeric::rounding::BINADE;
use crate::types::{TradeOpportunity, TradeSide};
use vstd::arithmetic::div_mod::*;
use vstd::arithmetic::power2::*;
use vstd::prelude::*;

verus! {

/// A ticker has one turn in 30 seconds, a side is held or blocked for two minutes after an exit, and a
/// day has 24 hours.
pub proof fn lemma_waits()
    ensures
        engine::ORDER_COOLDOWN_MS == 30_000,
        engine::THESIS_COOLDOWN_MS == 120_000,
        risk::DAY_MS == 24 * 60 * 60 * 1000,
{
}

/// The day's profit as of a time: zero from the first millisecond of a later day on, counted in UTC.
pub open spec fn profit_today(gate: RiskGate, now: u64) -> int {
    if now / 86_400_000 > gate.last_reset / 86_400_000 {
        0
    } else {
        gate.daily_loss_cents as int
    }
}

/// An opportunity is admitted exactly where its ticker has no open position, had no turn in the last
/// 30 seconds, and all four limits hold: confidence, edge, open positions and the day's loss. Of the
/// limits that do not hold the first in that order is the one that it is refused for.
pub proof fn lemma_admitted_exactly(
    book: Book,
    ticker: Seq<char>,
    confidence: Binary64,
    edge: Binary64,
    now: u64,
)
    ensures
        ({
            let found = book.admission(ticker, confidence, edge, now);
            let limits = book.gate.config;
            let open = book.positions.contains_key(ticker);
            let cooling = book.traded.contains_key(ticker) && now < book.traded[ticker] + 30_000;
            let unsure = confidence.less(limits.min_signal_confidence);
            let thin = edge.less(limits.min_edge);
            let full = book.gate.open_positions >= limits.max_open_positions;
            let lost = profit_today(book.gate, now) + limits.max_daily_loss_cents <= 0;
            &&& found == Admission::PositionOpen <==> open
            &&& found == Admission::CoolingDown <==> !open && cooling
            &&& found == Admission::Admitted <==> !open && !cooling && !unsure && !thin && !full
                && !lost
            &&& found is Refused ==> {
                let violation = found->violation;
                &&& violation is ConfidenceTooLow <==> unsure
                &&& violation is EdgeTooSmall <==> !unsure && thin
                &&& violation is TooManyOpenPositions <==> !unsure && !thin && full
                &&& violation is DailyLossLimitHit <==> !unsure && !thin && !full && lost
            }
        }),
{
}

/// Looking at an opportunity takes its ticker's turn, unless there was no turn to take, and begins a
/// new day where one has begun; it changes nothing else.
pub proof fn lemma_admission_takes_the_turn(book: Book, ticker: Seq<char>, other: Seq<char>, now: u64)
    requires
        other != ticker,
    ensures
        ({
            let after = book.after_admission(ticker, now);
            let open = book.positions.contains_key(ticker);
            let cooling = book.traded.contains_key(ticker) && now < book.traded[ticker] + 30_000;
            &&& open || cooling ==> after.traded == book.traded
            &&& !open && !cooling ==> after.traded.contains_key(ticker) && after.traded[ticker]
                == now
            &&& after.traded.contains_key(other) == book.traded.contains_key(other)
            &&& book.traded.contains_key(other) ==> after.traded[other] == book.traded[other]
            &&& after.gate.daily_loss_cents == profit_today(book.gate, now)
            &&& after.gate.open_positions == book.gate.open_positions
            &&& after.gate.config == book.gate.config
            &&& after.positions == book.positions
            &&& after.locks == book.locks
            &&& after.suppressions == book.suppressions
            &&& after.config == book.config
        }),
{
}

/// A fill is one more open position and a close one less, as far as the count goes, and a profit is
/// added to the day's, as far as that goes.
pub proof fn lemma_gate_counts(gate: RiskGate, pnl_cents: i64)
    ensures
        gate.filled().open_positions == (if gate.open_positions < 255 {
            gate.open_positions + 1
        } else {
            255
        }),
        gate.filled().daily_loss_cents == gate.daily_loss_cents,
        gate.closed().open_positions == (if gate.open_positions > 0 {
            gate.open_positions - 1
        } else {
            0
        }),
        gate.closed().daily_loss_cents == gate.daily_loss_cents,
        i64::MIN <= gate.daily_loss_cents + pnl_cents <= i64::MAX ==> gate.booked(
            pnl_cents as int,
        ).daily_loss_cents == gate.daily_loss_cents + pnl_cents,
        gate.booked(pnl_cents as int).open_positions == gate.open_positions,
        gate.booked(pnl_cents as int).config == gate.config,
        gate.filled().config == gate.config,
        gate.closed().config == gate.config,
        gate.filled().last_reset == gate.last_reset,
        gate.closed().last_reset == gate.last_reset,
        gate.booked(pnl_cents as int).last_reset == gate.last_reset,
{
}

/// A filled order opens a position of what was filled, on the opportunity's ticker and side, at the
/// limit price, with that as its peak, and holds the ticker to the side; an order that filled nothing
/// changes nothing. Other tickers keep what they have.
pub proof fn lemma_fill_opens_the_position(
    book: Book,
    opp: TradeOpportunity,
    order: OrderResponse,
    limit_price_cents: u64,
    now: u64,
    other: Seq<char>,
)
    requires
        limit_price_cents < 0x10_0000,
        other != opp.market.ticker@,
    ensures
        ({
            let after = book.after_order(opp, order, limit_price_cents, now);
            let ticker = opp.market.ticker@;
            let pos = after.positions[ticker];
            &&& order.filled_count == 0 ==> after == book
            &&& order.filled_count > 0 ==> {
                &&& after.positions.contains_key(ticker)
                &&& pos.ticker@ == ticker
                &&& pos.side == opp.side
                &&& pos.contracts == order.filled_count
                &&& pos.order_id == order.order_id
                &&& is_whole(pos.entry_price_cents, limit_price_cents as int)
                &&& is_whole(pos.peak_price_cents, limit_price_cents as int)
                &&& pos.entry_brti == opp.signal.brti_est.value
                &&& pos.opened_at_ms == now
                &&& pos.closes_at_ms == opp.market.closes_at
                &&& forall|side: TradeSide, later: u64|
                    later < u64::MAX ==> (#[trigger] after.locked_against(ticker, side, later)
                        <==> side != opp.side)
                &&& book.gate.open_positions < 255 ==> after.gate.open_positions
                    == book.gate.open_positions + 1
            }
            &&& after.gate.daily_loss_cents == book.gate.daily_loss_cents
            &&& after.positions.contains_key(other) == book.positions.contains_key(other)
            &&& book.positions.contains_key(other) ==> after.positions[other]
                == book.positions[other]
            &&& after.locks.contains_key(other) == book.locks.contains_key(other)
            &&& book.locks.contains_key(other) ==> after.locks[other] == book.locks[other]
            &&& after.suppressions == book.suppressions
            &&& after.traded == book.traded
            &&& after.config == book.config
        }),
{
    laws::lemma_whole_exact(limit_price_cents as int);
}

/// The bids of a market raise the peak of its position to the bid for the position's own side, where
/// that is higher, and change nothing else.
pub proof fn lemma_bids_raise_the_peak(
    book: Book,
    pos: OpenPosition,
    bids: MarketBids,
    brti: Binary64,
    now: u64,
)
    requires
        book.positions.contains_key(pos.ticker@),
        book.positions[pos.ticker@].peak_price_cents.finite(),
        bids.yes_bid_cents.finite(),
        bids.no_bid_cents.finite(),
    ensures
        ({
            let ticker = pos.ticker@;
            let before = book.positions[ticker];
            let bid = if pos.side == TradeSide::Yes {
                bids.yes_bid_cents
            } else {
                bids.no_bid_cents
            };
            let after = book.after_bids(pos, bids);
            let kept = after.positions[ticker];
            &&& kept.peak_price_cents == before.peak_price_cents || kept.peak_price_cents == bid
            &&& kept.peak_price_cents.units() >= before.peak_price_cents.units()
            &&& kept.peak_price_cents.units() >= bid.units()
            &&& kept == (OpenPosition { peak_price_cents: kept.peak_price_cents, ..before })
            &&& after == (Book { positions: book.positions.insert(ticker, kept), ..book })
            &&& match book.exit_after_bids(pos, bids, brti, now) {
                Some((leaving, reason)) => leaving == kept
                    && crate::executor::position_tracker::exit_reason(kept, bid, brti, now) == Some(
                    reason,
                ),
                None => crate::executor::position_tracker::exit_reason(kept, bid, brti, now)
                    is None,
            }
        }),
{
    let before = book.positions[pos.ticker@];
    binary64::lemma_order(before.peak_price_cents, bids.yes_bid_cents);
    binary64::lemma_order(before.peak_price_cents, bids.no_bid_cents);
}

/// An opportunity at a price in whole cents comes to nothing where the price is not between 5 and 95
/// cents, where its ticker is held to the other side, and where its own side was left at a loss a short
/// time ago; these come first, in this order, and nothing else comes before the bet.
pub proof fn lemma_no_order_is_sized(
    book: Book,
    opp: TradeOpportunity,
    now: u64,
    balance_cents: u64,
    price_cents: int,
)
    requires
        is_whole(
            if opp.side == TradeSide::Yes {
                opp.market.yes_price
            } else {
                opp.market.no_price
            },
            price_cents,
        ),
    ensures
        ({
            let found = book.sizing(opp, now, balance_cents);
            let ticker = opp.market.ticker@;
            let out = price_cents < 5 || price_cents > 95;
            let locked = book.locks.contains_key(ticker) && book.locks[ticker].side != opp.side
                && now < book.locks[ticker].cooldown_until_ms;
            let suppressed = book.suppressed(ticker, opp.side, now);
            &&& found is PriceOutOfBand <==> out
            &&& found is ThesisLocked <==> !out && locked
            &&& found is LossSuppressed <==> !out && !locked && suppressed
            &&& found is Order ==> found->contracts > 0 && found->limit_price_cents == price_cents
                + 1
        }),
{
    let price = engine::market_price(opp);
    let five = Binary64::whole(5);
    let most = Binary64::whole(95);
    laws::lemma_whole_exact(5);
    laws::lemma_whole_exact(95);
    accuracy::lemma_whole_order(five, price, 5, price_cents);
    accuracy::lemma_whole_order(price, most, price_cents, 95);
    if book.sizing(opp, now, balance_cents) is Order {
        crate::executor::laws::lemma_order_within_limits(book, opp, now, balance_cents);
        accuracy::lemma_whole_truncated(price, price_cents);
    }
}

/// The gross odds at a price in whole cents.
proof fn lemma_odds_at_a_price(price: Binary64, c: int)
    requires
        is_whole(price, c),
        1 <= c <= 99,
    ensures
        ({
            let o = binary64::one();
            let x = Binary64::whole(100).quotient(price);
            &&& x.finite()
            &&& o < x.units() < 128 * o
            &&& x.units() < pow2(1015) * o
            &&& -(c * pow2(1027)) <= c * x.units() - 100 * o <= c * pow2(1027)
            &&& 0 < last_place(x) <= pow2(1028)
        }),
{
    let o = binary64::one();
    let hundred = Binary64::whole(100);
    let x = hundred.quotient(price);
    let q = pow2(1027) as int;
    lemma2_to64();
    lemma2_to64_rest();
    lemma_pow2_pos(1074);
    lemma_pow2_pos(1027);
    lemma_pow2_adds(1, 1027);
    lemma_pow2_adds(47, 1027);
    lemma_pow2_adds(7, 1074);
    laws::lemma_whole_exact(100);
    let d = c * o;
    let n = (100 * o) * o;
    assert(0 < d && -(d * (128 * o)) < n && n < d * (128 * o)) by (nonlinear_arith)
        requires
            d == c * o,
            n == (100 * o) * o,
            1 <= c,
            0 < o,
    {
        assert(o <= c * o);
        assert(o * (128 * o) <= d * (128 * o));
        assert(o * (128 * o) == 128 * (o * o));
        assert((100 * o) * o == 100 * (o * o));
        assert(0 < o * o);
    }
    order::lemma_quotient_key(hundred, price);
    order::lemma_nearest_error(x, n, d, 1028);
    let u = x.units();
    assert(-(c * q) <= c * u - 100 * o <= c * q) by (nonlinear_arith)
        requires
            -(d * (2 * q)) <= 2 * (d * u - n) <= d * (2 * q),
            d == c * o,
            n == (100 * o) * o,
            0 < o,
    {
        let w = c * u - 100 * o;
        assert(d * u - n == o * w) by (nonlinear_arith)
            requires
                d == c * o,
                n == (100 * o) * o,
                w == c * u - 100 * o,
        ;
        assert(d * (2 * q) == 2 * (o * (c * q))) by (nonlinear_arith)
            requires
                d == c * o,
        ;
        if w > c * q {
            assert(o * w > o * (c * q));
        }
        if w < -(c * q) {
            assert(o * w < o * (-(c * q)));
            assert(o * (-(c * q)) == -(o * (c * q)));
        }
    }
    assert(c * q < o) by (nonlinear_arith)
        requires
            1 <= c <= 99,
            o == 0x8000_0000_0000 * q,
            0 < q,
    ;
    assert(o < u && u < 128 * o) by (nonlinear_arith)
        requires
            -(c * q) <= c * u - 100 * o <= c * q,
            c * q < o,
            1 <= c <= 99,
            0 < o,
    {
        if u <= o {
            assert(c * u <= c * o);
            assert(c * o <= 99 * o);
        }
        if u >= 128 * o {
            assert(c * u >= c * (128 * o));
            assert(c * (128 * o) >= 128 * o);
        }
    }
    lemma_pow2_adds(7, 1008);
    lemma_pow2_pos(1008);
    assert(128 * o <= pow2(1015) * o) by (nonlinear_arith)
        requires
            pow2(1015) == 128 * pow2(1008),
            1 <= pow2(1008),
            0 < o,
    ;
    let m = x.magnitude();
    let e = binary64::exponent(m);
    lemma_pow2_pos(e);
    order::lemma_own_key(x);
    if e > 1028 {
        let s = binary64::significand(m);
        lemma_mod_bound(m, BINADE as int);
        lemma_pow2_adds(52, 1029);
        rounding::lemma_pow2_monotone(1029, e);
        assert(BINADE * pow2(1029) <= s * pow2(e)) by (nonlinear_arith)
            requires
                BINADE <= s,
                0 <= pow2(1029) <= pow2(e),
        ;
    }
    rounding::lemma_pow2_monotone(e, if e <= 1028 {
        1028
    } else {
        e
    });
}

/// A multiplier of at most one has a small unit in the last place.
proof fn lemma_small_multiplier(m: Binary64)
    requires
        m.finite(),
        !m.negative(),
        m.units() <= binary64::one(),
    ensures
        0 <= m.units(),
        0 < last_place(m) <= pow2(1022),
{
    let e = binary64::exponent(m.magnitude());
    let s = binary64::significand(m.magnitude());
    lemma2_to64_rest();
    lemma_pow2_pos(e);
    lemma_pow2_pos(1022);
    order::lemma_own_key(m);
    if e > 1022 {
        lemma_mod_bound(m.magnitude(), BINADE as int);
        lemma_pow2_adds(52, 1023);
        lemma_pow2_adds(1, 1074);
        lemma2_to64();
        lemma_pow2_pos(1074);
        rounding::lemma_pow2_monotone(1023, e);
        assert(BINADE * pow2(1023) <= s * pow2(e)) by (nonlinear_arith)
            requires
                BINADE <= s,
                0 <= pow2(1023) <= pow2(e),
        ;
    }
    rounding::lemma_pow2_monotone(e, if e <= 1022 {
        1022
    } else {
        e
    });
}

/// The bet at a price in whole cents: the multiplier's part of `100 * edge / (100 - price)`, held
/// between zero and one, up to two to the power of minus 35, over the net price.
pub proof fn lemma_bet_at_a_price(edge: Binary64, price: Binary64, multiplier: Binary64, c: int)
    requires
        edge.finite(),
        -binary64::one() <= edge.units() <= binary64::one(),
        is_whole(price, c),
        1 <= c <= 99,
        multiplier.finite(),
        !multiplier.negative(),
        multiplier.units() <= binary64::one(),
    ensures
        ({
            let o = binary64::one();
            let bet = sizing::kelly(edge, Binary64::whole(100).quotient(price), multiplier);
            let off = bet.units() * ((100 - c) * o) - multiplier.units() * held(
                100 * edge.units(),
                0,
                (100 - c) * o,
            );
            &&& bet.finite()
            &&& 0 <= bet.units() <= o
            &&& -(pow2(1039) * o) <= off <= pow2(1039) * o
        }),
{
    let o = binary64::one();
    let odds = Binary64::whole(100).quotient(price);
    let bet = sizing::kelly(edge, odds, multiplier);
    let x = odds.units();
    let y = edge.units();
    let m = multiplier.units();
    let r = bet.units();
    let g = last_place(odds);
    let h = last_place(multiplier);
    let q = pow2(1027) as int;
    lemma_odds_at_a_price(price, c);
    lemma_small_multiplier(multiplier);
    kelly_laws::lemma_kelly_pays(edge, odds, multiplier);
    sizing::lemma_kelly_within_multiplier(edge, odds, multiplier);
    order::lemma_zero(price);
    binary64::lemma_order(Binary64::whole(0), bet);
    binary64::lemma_order(bet, multiplier);
    lemma2_to64();
    lemma_pow2_pos(1074);
    lemma_pow2_pos(1022);
    lemma_pow2_adds(1, 1027);
    lemma_pow2_adds(5, 1022);
    lemma_pow2_adds(12, 1027);
    lemma_pow2_pos(1027);
    let net = (x - o) * o;
    let t = held(y * x, 0, net);
    let limit = (100 - c) * o;
    let hh = held(100 * y, 0, limit);
    let w = c * x - 100 * o;
    let cq = c * q;
    // The net odds and the gain, times the price.
    assert(c * net == limit * o + w * o) by (nonlinear_arith)
        requires
            net == (x - o) * o,
            limit == (100 - c) * o,
            w == c * x - 100 * o,
    ;
    assert(c * (y * x) == (100 * y) * o + y * w) by (nonlinear_arith)
        requires
            w == c * x - 100 * o,
    ;
    assert(0 <= limit && 0 <= net && 0 < cq) by (nonlinear_arith)
        requires
            limit == (100 - c) * o,
            net == (x - o) * o,
            cq == c * q,
            1 <= c <= 99,
            0 < o < x,
            0 < q,
    ;
    lemma2_to64_rest();
    lemma_pow2_adds(47, 1027);
    assert(cq < o) by (nonlinear_arith)
        requires
            cq == c * q,
            1 <= c <= 99,
            o == 0x8000_0000_0000 * q,
            0 < q,
    ;
    let ocq = o * cq;
    lemma_bounded(w, o, cq);
    lemma_within(y, w, o, cq);
    kelly_laws::lemma_held_scaled(y * x, net, c);
    kelly_laws::lemma_held_scaled(100 * y, limit, o);
    assert(o * (100 * y) == (100 * y) * o && o * limit == limit * o && w * o == o * w)
        by (nonlinear_arith);
    assert(-ocq <= t * c - hh * o <= ocq);
    // The bet.
    let a = r * net - m * t;
    let most = 15 * (m * (o * g)) + net * h;
    assert(c * a == r * (c * net) - m * (t * c)) by (nonlinear_arith)
        requires
            a == r * net - m * t,
    ;
    assert(r * (c * net) == (r * limit) * o + r * (w * o)) by (nonlinear_arith)
        requires
            c * net == limit * o + w * o,
    ;
    let b = t * c - hh * o;
    assert(m * (t * c) == (m * hh) * o + m * b) by (nonlinear_arith)
        requires
            b == t * c - hh * o,
    ;
    let p = r * limit - m * hh;
    assert((r * limit) * o - (m * hh) * o == p * o) by (nonlinear_arith)
        requires
            p == r * limit - m * hh,
    ;
    let oo = o * o;
    lemma_within(r, o * w, o, ocq);
    lemma_within(m, b, o, ocq);
    assert(r * (w * o) == r * (o * w)) by (nonlinear_arith);
    assert(o * ocq == oo * cq && oo * cq <= oo * (99 * q)) by (nonlinear_arith)
        requires
            ocq == o * cq,
            oo == o * o,
            cq == c * q,
            c <= 99,
            0 < q,
            0 < o,
    {
        assert(c * q <= 99 * q);
        assert(0 < o * o);
    }
    assert(c * most <= oo * (2973 * q)) by (nonlinear_arith)
        requires
            most == 15 * (m * (o * g)) + net * h,
            c * net == limit * o + w * o,
            -cq <= w <= cq,
            cq == c * q,
            limit == (100 - c) * o,
            oo == o * o,
            0 <= m <= o,
            0 < g <= 2 * q,
            0 < h,
            32 * h <= q,
            1 <= c <= 99,
            cq < o,
            0 < o,
            0 < q,
            0 <= net,
    {
        assert(o * g <= o * (2 * q));
        assert(0 <= o * g);
        assert(m * (o * g) <= o * (o * g));
        assert(o * (o * g) <= o * (o * (2 * q)));
        assert(o * (o * (2 * q)) == 2 * (oo * q)) by (nonlinear_arith)
            requires
                oo == o * o,
        ;
        assert(0 <= oo * q) by (nonlinear_arith)
            requires
                oo == o * o,
                0 < q,
                0 < o,
        ;
        assert(15 * (m * (o * g)) <= 30 * (oo * q));
        assert(c * (15 * (m * (o * g))) <= 99 * (30 * (oo * q))) by (nonlinear_arith)
            requires
                1 <= c <= 99,
                15 * (m * (o * g)) <= 30 * (oo * q),
                0 <= oo * q,
        ;
        assert(w * o <= o * o) by (nonlinear_arith)
            requires
                w < o,
                0 < o,
        ;
        assert(limit * o <= 99 * oo) by (nonlinear_arith)
            requires
                limit == (100 - c) * o,
                oo == o * o,
                1 <= c,
                0 < o,
        ;
        assert(c * net <= 100 * oo);
        assert(c * (net * h) == (c * net) * h) by (nonlinear_arith);
        assert(32 * ((c * net) * h) <= (c * net) * q) by (nonlinear_arith)
            requires
                32 * h <= q,
                0 <= c * net,
        ;
        assert((c * net) * q <= (100 * oo) * q) by (nonlinear_arith)
            requires
                c * net <= 100 * oo,
                0 < q,
        ;
        assert((100 * oo) * q == 100 * (oo * q)) by (nonlinear_arith);
        assert(c * most == c * (15 * (m * (o * g))) + c * (net * h)) by (nonlinear_arith)
            requires
                most == 15 * (m * (o * g)) + net * h,
        ;
        assert(oo * (2973 * q) == 2973 * (oo * q)) by (nonlinear_arith);
        assert(0 <= c * net) by (nonlinear_arith)
            requires
                1 <= c,
                0 <= net,
        ;
    }
    assert(-(c * most) <= c * a <= c * most) by (nonlinear_arith)
        requires
            -most <= a <= most,
            1 <= c,
    ;
    assert(oo * (99 * q) == 99 * (oo * q) && oo * (2973 * q) == 2973 * (oo * q))
        by (nonlinear_arith);
    assert(-(3171 * (oo * q)) <= p * o <= 3171 * (oo * q));
    assert(-((4096 * q) * o) <= p <= (4096 * q) * o) by (nonlinear_arith)
        requires
            -(3171 * (oo * q)) <= p * o <= 3171 * (oo * q),
            oo == o * o,
            0 < o,
            0 < q,
    {
        let z = o * q;
        assert(oo * q == z * o) by (nonlinear_arith)
            requires
                oo == o * o,
                z == o * q,
        ;
        assert(0 < z);
        if p > 4096 * z {
            assert(p * o > (4096 * z) * o);
            assert((4096 * z) * o == 4096 * (z * o));
            assert(0 < z * o);
        }
        if p < -(4096 * z) {
            assert(p * o < (-(4096 * z)) * o);
            assert((-(4096 * z)) * o == -(4096 * (z * o)));
            assert(0 < z * o);
        }
        assert((4096 * q) * o == 4096 * z);
    }
}

proof fn lemma_bounded(w: int, o: int, b: int)
    requires
        -b <= w <= b,
        0 < o,
    ensures
        -(o * b) <= o * w <= o * b,
{
    assert(-(o * b) <= o * w <= o * b) by (nonlinear_arith)
        requires
            -b <= w <= b,
            0 < o,
    {
        assert(o * w <= o * b);
        assert(o * w >= o * (-b));
        assert(o * (-b) == -(o * b));
    }
}

proof fn lemma_within(y: int, w: int, o: int, b: int)
    requires
        -b <= w <= b,
        -o <= y <= o,
    ensures
        -(o * b) <= y * w <= o * b,
{
    assert(-(o * b) <= y * w <= o * b) by (nonlinear_arith)
        requires
            -b <= w <= b,
            -o <= y <= o,
    {
        let z = if y >= 0 {
            y
        } else {
            -y
        };
        let v = if w >= 0 {
            w
        } else {
            -w
        };
        assert(0 <= z * v);
        assert(z * v <= o * v);
        assert(o * v <= o * b);
        assert(y * w == z * v || y * w == -(z * v));
    }
}

/// An order at a price in whole cents spends what the bet is worth. With `f` the part
/// `100 * edge / (100 - price)` of the bankroll, held between zero and one, it is for as many contracts
/// as the multiplier's part of `f` pays for, and no more: its cost is at most that, and one contract
/// more would cost more, or be beyond a limit; up to a cent over the net price. Costs are multiplied by
/// the net price. The balance is below two to the power of 32 cents.
pub proof fn lemma_order_spends_the_bet(
    book: Book,
    opp: TradeOpportunity,
    now: u64,
    balance_cents: u64,
    price_cents: int,
)
    requires
        is_whole(
            if opp.side == TradeSide::Yes {
                opp.market.yes_price
            } else {
                opp.market.no_price
            },
            price_cents,
        ),
        opp.edge.finite(),
        -binary64::one() <= opp.edge.units() <= binary64::one(),
        book.config.kelly_multiplier.finite(),
        !book.config.kelly_multiplier.negative(),
        book.config.kelly_multiplier.units() <= binary64::one(),
        balance_cents < 0x1_0000_0000,
        book.sizing(opp, now, balance_cents) is Order,
    ensures
        ({
            let o = binary64::one();
            let n = book.sizing(opp, now, balance_cents)->contracts;
            let net = 100 - price_cents;
            let share = balance_cents * (book.config.kelly_multiplier.units() * held(
                100 * opp.edge.units(),
                0,
                net * o,
            ));
            &&& 0 < n <= book.config.max_contracts
            &&& n * price_cents <= book.config.max_position_cents
            &&& ((n * price_cents) * net) * (o * o) <= share + o * o
            &&& n == book.config.max_contracts || (n + 1) * price_cents
                > book.config.max_position_cents || share < (((n + 1) * price_cents) * net) * (o
                * o) + o * o
        }),
{
    let o = binary64::one();
    let price = engine::market_price(opp);
    let c = price_cents;
    let multiplier = book.config.kelly_multiplier;
    let bet = sizing::kelly(opp.edge, Binary64::whole(100).quotient(price), multiplier);
    let n = book.sizing(opp, now, balance_cents)->contracts as int;
    let r = bet.units();
    let limit = (100 - c) * o;
    let hh = held(100 * opp.edge.units(), 0, limit);
    let mh = multiplier.units() * hh;
    let k = balance_cents as int;
    lemma_no_order_is_sized(book, opp, now, balance_cents, c);
    lemma_bet_at_a_price(opp.edge, price, multiplier, c);
    lemma2_to64();
    lemma2_to64_rest();
    lemma_pow2_pos(1074);
    lemma_pow2_pos(1039);
    lemma_pow2_adds(35, 1039);
    assert(o <= c * o) by (nonlinear_arith)
        requires
            1 <= c,
            0 < o,
    ;
    kelly_laws::lemma_contracts_are_the_most(
        bet,
        balance_cents,
        price,
        book.config.max_position_cents,
        book.config.max_contracts,
    );
    crate::executor::laws::lemma_order_within_limits(book, opp, now, balance_cents);
    lemma_spent(n, c, k, r, mh, o, pow2(1039) as int);
    lemma_spent(n + 1, c, k, r, mh, o, pow2(1039) as int);
    let most = book.config.max_position_cents as int;
    assert(n * (c * o) <= most * o ==> n * c <= most) by (nonlinear_arith)
        requires
            0 < o,
    {
        assert(n * (c * o) == (n * c) * o);
        if n * c > most {
            assert((n * c) * o > most * o);
        }
    }
    assert(most * o < (n + 1) * (c * o) ==> most < (n + 1) * c) by (nonlinear_arith)
        requires
            0 < o,
    {
        assert((n + 1) * (c * o) == ((n + 1) * c) * o);
        if (n + 1) * c <= most {
            assert(((n + 1) * c) * o <= most * o);
        }
    }
}

/// What a count of contracts costs, against what a bet is worth.
proof fn lemma_spent(n: int, c: int, k: int, r: int, mh: int, o: int, q: int)
    requires
        1 <= c <= 99,
        0 <= k < 0x1_0000_0000,
        0 < o,
        o == 0x8_0000_0000 * q,
        0 < q,
        -(q * o) <= r * ((100 - c) * o) - mh <= q * o,
    ensures
        0x40_0000 * (n * (c * o)) <= 0x40_0000 * (r * k) + (o + c * o) ==> ((n * c) * (100 - c)) * (o
            * o) <= k * mh + o * o,
        0x40_0000 * (r * k) < 0x40_0000 * (n * (c * o)) + (o + c * o) ==> k * mh < ((n * c) * (100
            - c)) * (o * o) + o * o,
{
    let net = 100 - c;
    let no = net * o;
    let oo = o * o;
    let d = r * no - mh;
    let cost = (n * c) * net;
    // The bet's share, times the net price.
    assert((r * k) * no == k * mh + k * d) by (nonlinear_arith)
        requires
            d == r * no - mh,
    ;
    assert(8 * (k * d) <= oo && -oo <= 8 * (k * d)) by (nonlinear_arith)
        requires
            0 <= k < 0x1_0000_0000,
            -(q * o) <= d <= q * o,
            o == 0x8_0000_0000 * q,
            oo == o * o,
            0 < q,
            0 < o,
    {
        let z = q * o;
        assert(0 < z);
        assert(k * d <= k * z);
        assert(k * d >= k * (-z));
        assert(k * (-z) == -(k * z));
        assert(k * z <= 0x1_0000_0000 * z);
        assert(oo == 0x8_0000_0000 * z) by (nonlinear_arith)
            requires
                oo == o * o,
                o == 0x8_0000_0000 * q,
                z == q * o,
        ;
    }
    assert((n * (c * o)) * no == cost * oo) by (nonlinear_arith)
        requires
            no == net * o,
            oo == o * o,
            cost == (n * c) * net,
    ;
    assert(0 < no && (o + c * o) * no <= 10_000 * oo && 0 < oo) by (nonlinear_arith)
        requires
            no == net * o,
            oo == o * o,
            net == 100 - c,
            1 <= c <= 99,
            0 < o,
    {
        assert(o + c * o <= 100 * o);
        assert(0 < net * o <= 99 * o);
        assert((o + c * o) * no <= (100 * o) * no);
        assert((100 * o) * no <= (100 * o) * (99 * o));
        assert((100 * o) * (99 * o) == 9900 * (o * o));
        assert(0 < o * o);
    }
    let lhs = n * (c * o);
    let rhs = r * k;
    let slack = o + c * o;
    if 0x40_0000 * lhs <= 0x40_0000 * rhs + slack {
        assert(0x40_0000 * (lhs * no) <= 0x40_0000 * (rhs * no) + slack * no) by (nonlinear_arith)
            requires
                0x40_0000 * lhs <= 0x40_0000 * rhs + slack,
                0 < no,
        ;
    }
    if 0x40_0000 * rhs < 0x40_0000 * lhs + slack {
        assert(0x40_0000 * (rhs * no) < 0x40_0000 * (lhs * no) + slack * no) by (nonlinear_arith)
            requires
                0x40_0000 * rhs < 0x40_0000 * lhs + slack,
                0 < no,
        ;
    }
}

} // verus!
