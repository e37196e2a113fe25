//! Laws on the order of the executor's steps, on settlements, and on what is signed.

use crate::executor::auth;
use crate::executor::engine;
use crate::executor::engine::Book;
use crate::executor::risk;
use crate::executor::risk::RiskViolation;
use crate::executor::run;
use crate::executor::run::{Event, Handling, Outcome, Round, RoundEvent, RoundStep, Stage, Step};
use crate::numeric::binary64::Binary64;
use crate::numeric::decimal;
use crate::text;
use crate::types::{TradeOpportunity, TradeSide};
use vstd::prelude::*;

verus! {

/// An opportunity asks for the balance where it is admitted, and only there; else it is finished, and
/// says why.
pub proof fn lemma_only_the_admitted_go_on(book: Book, opp: TradeOpportunity, now: u64)
    ensures
        ({
            let (after, stage, step) = run::considered(book, opp, now);
            let found = book.admission(
                opp.market.ticker@,
                opp.signal.confidence,
                opp.edge,
                now,
            );
            &&& after.positions == book.positions
            &&& step is AskBalance <==> found is Admitted
            &&& stage == Stage::Funding <==> found is Admitted
            &&& stage == Stage::Finished <==> step is Finished
            &&& step is Finished <==> found !is Admitted
            &&& book.positions.contains_key(opp.market.ticker@) ==> step == (Step::Finished {
                outcome: Outcome::PositionOpen,
            })
            &&& found is CoolingDown ==> step == (Step::Finished { outcome: Outcome::CoolingDown })
            &&& found is Refused ==> step == (Step::Finished {
                outcome: Outcome::Refused { violation: found->violation },
            })
        }),
{
}

/// The sales come first, each once and in their order; the opportunity is considered after the last one,
/// whether the sales went through or not.
pub proof fn lemma_sales_come_first(handling: Handling, book: Book, event: Event)
    requires
        handling.wf(),
        handling.awaits(event),
        event is Sold || event is SaleFailed,
    ensures
        ({
            let (after, stage, next, step) = handling.advanced(book, event);
            &&& next == handling.next + 1
            &&& next < handling.sales@.len() ==> {
                &&& stage == Stage::Selling
                &&& step == (Step::Sell {
                    pos: handling.sales@[next].0,
                    reason: handling.sales@[next].1,
                })
                &&& event is SaleFailed ==> after == book
            }
            &&& next == handling.sales@.len() ==> {
                &&& stage != Stage::Selling
                &&& step is AskBalance || step is Finished
                &&& event is SaleFailed ==> (after, stage, step) == run::considered(
                    book,
                    handling.opp,
                    handling.now,
                )
            }
        }),
{
}

/// An order is for the ticker and the side of the opportunity, and its answer is held against the same
/// price. Nothing but an answered order or sale changes the book on the way.
pub proof fn lemma_order_is_for_the_opportunity(handling: Handling, book: Book, event: Event)
    requires
        handling.awaits(event),
        !(event is Sold || event is SaleFailed),
    ensures
        ({
            let (after, stage, next, step) = handling.advanced(book, event);
            &&& next == handling.next
            &&& event !is Ordered ==> after == book
            &&& step is Order <==> event is Balance && book.sizing(
                handling.opp,
                handling.now,
                event->cents,
            ) is Order
            &&& step is Order ==> {
                let sizing = book.sizing(handling.opp, handling.now, event->cents);
                &&& step->ticker == handling.opp.market.ticker
                &&& step->side == handling.opp.side
                &&& step->contracts == sizing->contracts
                &&& step->limit_price_cents == sizing->limit_price_cents
                &&& stage == (Stage::Placing {
                    contracts: step->contracts,
                    limit_price_cents: step->limit_price_cents,
                })
            }
            &&& step !is Order ==> stage == Stage::Finished && step is Finished
            &&& event is NoBalance ==> step->outcome == Outcome::NoBalance
            &&& event is OrderFailed ==> step->outcome == Outcome::OrderFailed
            &&& event is Ordered ==> step->outcome == Outcome::Answered && after
                == book.after_order(
                handling.opp,
                event->order,
                handling.stage->limit_price_cents,
                handling.now,
            )
            &&& event is Balance && step !is Order ==> step->outcome == (Outcome::Unsized {
                sizing: book.sizing(handling.opp, handling.now, event->cents),
            })
        }),
{
}

/// A round asks for the bids of one position after the other and is finished after the last. A position
/// is sold where it is still open and its bids give a reason; missing bids and failed sales change
/// nothing.
pub proof fn lemma_round_asks_for_each(round: Round, book: Book, event: RoundEvent)
    requires
        round.awaits(event),
    ensures
        ({
            let (after, next, selling, step) = round.advanced(book, event);
            let pos = round.open@[round.next as int];
            &&& step is Sell ==> {
                &&& event is Bids
                &&& book.positions.contains_key(pos.ticker@)
                &&& selling == Some(step->pos)
                &&& step->pos.side == book.positions[pos.ticker@].side
                &&& step->pos.entry_price_cents == book.positions[pos.ticker@].entry_price_cents
                &&& step->pos.contracts == book.positions[pos.ticker@].contracts
            }
            &&& step !is Sell && next < round.open@.len() ==> step == (RoundStep::AskBids {
                ticker: round.open@[next].ticker,
            })
            &&& step !is Sell && next >= round.open@.len() ==> step is Finished
            &&& event is NoBids || event is SaleFailed ==> after == book && step !is Sell
            &&& event is Sold ==> after == book.after_exit(
                round.selling->0,
                event->exit,
                event->now,
            )
            &&& event is Bids ==> (step is Sell <==> book.exit_after_bids(
                pos,
                event->bids,
                round.current_brti,
                round.now,
            ) is Some)
        }),
{
}

/// A settlement takes the position out of the book, frees its place, and keeps the other side of its
/// ticker locked for two minutes; every other ticker stays as it was.
pub proof fn lemma_settlement(
    book: Book,
    ticker: Seq<char>,
    now: u64,
    other: Seq<char>,
    side: TradeSide,
    later: u64,
)
    requires
        book.positions.contains_key(ticker),
        now + 120_000 <= u64::MAX,
        other != ticker,
    ensures
        ({
            let after = book.settled(ticker, now);
            &&& !after.positions.contains_key(ticker)
            &&& after.positions.contains_key(other) == book.positions.contains_key(other)
            &&& book.positions.contains_key(other) ==> after.positions[other]
                == book.positions[other]
            &&& book.gate.open_positions > 0 ==> after.gate.open_positions
                == book.gate.open_positions - 1
            &&& after.gate.daily_loss_cents == book.gate.daily_loss_cents
            &&& after.traded == book.traded
            &&& after.suppressions == book.suppressions
            &&& after.locked_against(ticker, side, later) <==> side != book.positions[ticker].side
                && later < now + 120_000
            &&& after.locked_against(other, side, later) == book.locked_against(other, side, later)
        }),
{
}

/// After a row of settlements exactly the other positions are open, as they were.
pub proof fn lemma_settlements_leave_the_rest(book: Book, tickers: Seq<String>, now: u64)
    ensures
        ({
            let after = book.all_settled(tickers, now);
            &&& forall|i: int|
                0 <= i < tickers.len() ==> !after.positions.contains_key((#[trigger] tickers[i])@)
            &&& forall|k: Seq<char>| #[trigger]
                after.positions.contains_key(k) ==> book.positions.contains_key(k)
                    && after.positions[k] == book.positions[k]
            &&& forall|k: Seq<char>|
                book.positions.contains_key(k) && #[trigger] unlisted(tickers, k)
                    ==> after.positions.contains_key(k)
        }),
    decreases tickers.len(),
{
    if tickers.len() > 0 {
        let rest = tickers.drop_last();
        lemma_settlements_leave_the_rest(book, rest, now);
        let before = book.all_settled(rest, now);
        let after = book.all_settled(tickers, now);
        assert forall|i: int| 0 <= i < tickers.len() implies !after.positions.contains_key(
            (#[trigger] tickers[i])@,
        ) by {
            if i < rest.len() {
                assert(rest[i] == tickers[i]);
            }
        }
        assert forall|k: Seq<char>|
            book.positions.contains_key(k) && #[trigger] unlisted(
                tickers,
                k,
            ) implies after.positions.contains_key(k) by {
            assert(tickers[tickers.len() - 1]@ != k);
            assert forall|i: int| 0 <= i < rest.len() implies (#[trigger] rest[i])@ != k by {
                assert(rest[i] == tickers[i]);
            }
            assert(unlisted(rest, k));
            assert(before.positions.contains_key(k));
        }
        assert forall|k: Seq<char>| #[trigger] after.positions.contains_key(
            k,
        ) implies book.positions.contains_key(k) && after.positions[k] == book.positions[k] by {
            assert(before.positions.contains_key(k));
        }
    }
}

/// Whether a row of tickers does not hold one.
pub open spec fn unlisted(tickers: Seq<String>, ticker: Seq<char>) -> bool {
    forall|i: int| 0 <= i < tickers.len() ==> (#[trigger] tickers[i])@ != ticker
}

/// A refusal is recorded where a limit was broken or the price is out of the band, and only there; each
/// cause has a name of its own.
pub proof fn lemma_refusals_are_named(a: Outcome, b: Outcome)
    ensures
        run::refusal_name(a) is Some <==> a is Refused || (a is Unsized && a->sizing
            is PriceOutOfBand),
        run::refusal_name(a) is Some && run::refusal_name(a) == run::refusal_name(b) ==> a is Refused
            == b is Refused && (a is Refused ==> same_cause(a->violation, b->violation)),
{
    reveal_strlit("ConfidenceTooLow");
    reveal_strlit("EdgeTooSmall");
    reveal_strlit("TooManyOpenPositions");
    reveal_strlit("DailyLossLimitHit");
    reveal_strlit("PriceBandOutOfRange");
    assert("ConfidenceTooLow"@.len() == 16 && "EdgeTooSmall"@.len() == 12
        && "TooManyOpenPositions"@.len() == 20 && "DailyLossLimitHit"@.len() == 17
        && "PriceBandOutOfRange"@.len() == 19);
}

/// Whether two violations are of one limit.
pub open spec fn same_cause(a: RiskViolation, b: RiskViolation) -> bool {
    &&& a is ConfidenceTooLow == b is ConfidenceTooLow
    &&& a is EdgeTooSmall == b is EdgeTooSmall
    &&& a is TooManyOpenPositions == b is TooManyOpenPositions
    &&& a is DailyLossLimitHit == b is DailyLossLimitHit
}

/// The two sides have different names.
pub proof fn lemma_side_names_differ()
    ensures
        engine::side_name(TradeSide::Yes) != engine::side_name(TradeSide::No),
{
    reveal_strlit("Yes");
    reveal_strlit("No");
    assert("Yes"@.len() == 3 && "No"@.len() == 2);
}

/// A setting that is written as a number is that number, and without one it is the default.
pub proof fn lemma_setting(value: Option<&str>, default: u64, n: u64)
    ensures
        value is None ==> risk::setting_value(value, default) == default,
        value is Some && value->0@ == text::decimal(n as int) ==> risk::setting_value(
            value,
            default,
        ) == n,
        value is Some && value->0@.len() == 0 ==> risk::setting_value(value, default) == default,
{
    text::lemma_decimal_reads_back(n);
}

/// The settings of the executor that are numbers of either sign or fractions: the number that is written,
/// and the default without one.
pub proof fn lemma_signed_setting(value: Option<&str>, default: i64, fraction: Binary64, n: i64)
    ensures
        value is None ==> engine::signed_setting(value, default) == default,
        value is Some && value->0@ == (if n < 0 {
            seq!['-'] + text::decimal(-n)
        } else {
            text::decimal(n as int)
        }) ==> engine::signed_setting(value, default) == n,
        value is None ==> engine::number_setting(value, fraction) == fraction,
        value is Some && decimal::number_text(value->0@) is Some ==> Some(
            engine::number_setting(value, fraction),
        ) == decimal::number_text(value->0@),
        value is Some && decimal::number_text(value->0@) is None ==> engine::number_setting(
            value,
            fraction,
        ) == fraction,
{
    text::lemma_signed_reads_back(n);
}

/// What is signed is the time, the method and the path, in that order: it determines the time where the
/// method does not begin with a digit, and together with the method the path.
pub proof fn lemma_signature_covers_the_request(
    ts_ms: u64,
    method: Seq<char>,
    path: Seq<char>,
    other_ts_ms: u64,
    other_method: Seq<char>,
    other_path: Seq<char>,
)
    requires
        method.len() > 0 && !text::is_digit(method[0]),
        other_method.len() > 0 && !text::is_digit(other_method[0]),
        auth::signed_text(ts_ms, method, path) == auth::signed_text(
            other_ts_ms,
            other_method,
            other_path,
        ),
    ensures
        ts_ms == other_ts_ms,
        method + path == other_method + other_path,
        method == other_method ==> path == other_path,
{
    let a = text::decimal(ts_ms as int);
    let b = text::decimal(other_ts_ms as int);
    let s = auth::signed_text(ts_ms, method, path);
    let t = auth::signed_text(other_ts_ms, other_method, other_path);
    lemma_digits_only(ts_ms as int);
    lemma_digits_only(other_ts_ms as int);
    assert(s[a.len() as int] == method[0]);
    assert(t[b.len() as int] == other_method[0]);
    if a.len() < b.len() {
        assert(t[a.len() as int] == b[a.len() as int]);
        assert(text::is_digit(b[a.len() as int]));
    }
    if b.len() < a.len() {
        assert(s[b.len() as int] == a[b.len() as int]);
        assert(text::is_digit(a[b.len() as int]));
    }
    assert(a =~= s.take(a.len() as int));
    assert(b =~= t.take(b.len() as int));
    text::lemma_decimal_reads_back(ts_ms);
    text::lemma_decimal_reads_back(other_ts_ms);
    assert(method + path =~= s.skip(a.len() as int));
    assert(other_method + other_path =~= t.skip(b.len() as int));
    if method == other_method {
        assert(path =~= (method + path).skip(method.len() as int));
        assert(other_path =~= (other_method + other_path).skip(method.len() as int));
    }
}

proof fn lemma_digits_only(n: int)
    requires
        0 <= n,
    ensures
        text::all_digits(text::decimal(n)),
    decreases n,
{
    if n >= 10 {
        lemma_digits_only(n / 10);
        let s = text::decimal(n);
        assert forall|i: int| 0 <= i < s.len() implies text::is_digit(#[trigger] s[i]) by {
            if i < s.len() - 1 {
                assert(s[i] == text::decimal(n / 10)[i]);
            }
        }
    }
}

} // verus!
