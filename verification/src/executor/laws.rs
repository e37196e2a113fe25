//! What holds of the executor across its steps.

use crate::executor::client::{ExitResponse, OrderResponse};
use crate::executor::engine;
use crate::executor::engine::{Admission, Book, Sizing, ORDER_COOLDOWN_MS, THESIS_COOLDOWN_MS};
use crate::executor::position_tracker::OpenPosition;
use crate::executor::risk;
use crate::executor::run;
use crate::executor::run::{Event, Handling, Round, RoundEvent, Stage, Step};
use crate::executor::sizing;
use crate::numeric::binary64;
use crate::numeric::binary64::Binary64;
use crate::numeric::laws;
use crate::types::{TradeOpportunity, TradeSide};
use vstd::prelude::*;

verus! {

/// A ticker with an open position is never entered again, and looking at the opportunity leaves
/// the ticker's last turn as it was.
pub proof fn lemma_open_ticker_is_refused(
    book: Book,
    ticker: Seq<char>,
    confidence: Binary64,
    edge: Binary64,
    now: u64,
)
    requires
        book.positions.contains_key(ticker),
    ensures
        book.admission(ticker, confidence, edge, now) == Admission::PositionOpen,
        book.after_admission(ticker, now).traded == book.traded,
        book.after_admission(ticker, now).positions == book.positions,
{
}

/// Whatever became of an opportunity, its ticker is not looked at again for 30 seconds, nor while
/// the clock shows an earlier time.
pub proof fn lemma_one_turn_in_thirty_seconds(
    book: Book,
    ticker: Seq<char>,
    confidence: Binary64,
    edge: Binary64,
    now: u64,
    later: u64,
    later_confidence: Binary64,
    later_edge: Binary64,
)
    requires
        book.admission(ticker, confidence, edge, now) is Admitted || book.admission(
            ticker,
            confidence,
            edge,
            now,
        ) is Refused,
        later < now + ORDER_COOLDOWN_MS,
    ensures
        book.after_admission(ticker, now).admission(
            ticker,
            later_confidence,
            later_edge,
            later,
        ) == Admission::CoolingDown,
{
}

/// While a position is open no order is sized for the other side of its ticker, until the last
/// millisecond that the clock can show.
pub proof fn lemma_open_position_blocks_other_side(
    book: Book,
    opp: TradeOpportunity,
    now: u64,
    balance_cents: u64,
)
    requires
        book.held(),
        book.positions.contains_key(opp.market.ticker@),
        book.positions[opp.market.ticker@].side != opp.side,
        now < u64::MAX,
    ensures
        book.sizing(opp, now, balance_cents) !is Order,
{
}

/// For two minutes after a sale no order is sized for the other side of the ticker, and none for
/// the same side either where the loss reached the threshold.
pub proof fn lemma_exit_blocks_reentry(
    book: Book,
    pos: OpenPosition,
    exit: ExitResponse,
    now: u64,
    opp: TradeOpportunity,
    later: u64,
    balance_cents: u64,
)
    requires
        exit.filled_count > 0,
        now + THESIS_COOLDOWN_MS <= u64::MAX,
        now <= later < now + THESIS_COOLDOWN_MS,
        opp.market.ticker@ == pos.ticker@,
    ensures
        opp.side != pos.side ==> book.after_exit(pos, exit, now).sizing(
            opp,
            later,
            balance_cents,
        ) !is Order,
        opp.side == pos.side && engine::profit(pos, exit) < 0 && risk::saturated(
            -engine::profit(pos, exit),
        ) >= book.config.reentry_loss_threshold_cents ==> book.after_exit(pos, exit, now).sizing(
            opp,
            later,
            balance_cents,
        ) !is Order,
{
}

/// A sale says nothing of other tickers: neither their positions nor their locks change, nor
/// whether a side of them is suppressed.
pub proof fn lemma_exit_is_local(
    book: Book,
    pos: OpenPosition,
    exit: ExitResponse,
    now: u64,
    ticker: Seq<char>,
    side: TradeSide,
    later: u64,
)
    requires
        ticker != pos.ticker@,
    ensures
        ({
            let after = book.after_exit(pos, exit, now);
            &&& after.positions.contains_key(ticker) == book.positions.contains_key(ticker)
            &&& book.positions.contains_key(ticker) ==> after.positions[ticker]
                == book.positions[ticker]
            &&& after.locked_against(ticker, side, later) == book.locked_against(
                ticker,
                side,
                later,
            )
            &&& after.suppressed(ticker, side, later) == book.suppressed(ticker, side, later)
        }),
{
    if engine::thesis_name(ticker, side) == engine::thesis_name(pos.ticker@, pos.side) {
        engine::lemma_thesis_name_distinct(ticker, side, pos.ticker@, pos.side);
    }
}

/// An order is within the limits: it costs at most what a position may cost at the market price,
/// is for at most the contract limit, and its limit price is one cent over the whole cents of the
/// market price.
pub proof fn lemma_order_within_limits(
    book: Book,
    opp: TradeOpportunity,
    now: u64,
    balance_cents: u64,
)
    requires
        book.sizing(opp, now, balance_cents) is Order,
    ensures
        ({
            let order = book.sizing(opp, now, balance_cents);
            &&& 0 < order->contracts <= book.config.max_contracts
            &&& order->contracts * engine::market_price(opp).units()
                <= book.config.max_position_cents * binary64::one()
            &&& order->limit_price_cents == engine::market_price(opp).truncated() + 1
            &&& 6 <= order->limit_price_cents <= 96
        }),
{
    let price = engine::market_price(opp);
    let bet = sizing::kelly(
        opp.edge,
        Binary64::whole(100).quotient(price),
        book.config.kelly_multiplier,
    );
    sizing::lemma_contracts_within_limits(
        bet,
        balance_cents,
        price,
        book.config.max_position_cents,
        book.config.max_contracts,
    );
    laws::lemma_truncated_at_most(price, 95);
    laws::lemma_truncated_at_least(price, 5);
}

/// An order that filled nothing leaves no trace, and one that filled opens a position of exactly
/// what was filled, which holds its ticker to its side.
pub proof fn lemma_only_fills_open_positions(
    book: Book,
    opp: TradeOpportunity,
    order: OrderResponse,
    limit_price_cents: u64,
    now: u64,
)
    requires
        book.held(),
    ensures
        ({
            let after = book.after_order(opp, order, limit_price_cents, now);
            let ticker = opp.market.ticker@;
            &&& after.held()
            &&& order.filled_count == 0 ==> after == book
            &&& order.filled_count > 0 ==> after.positions.contains_key(ticker)
                && after.positions[ticker].contracts == order.filled_count
                && after.positions[ticker].side == opp.side
        }),
{
}

/// Where a position was opened and then sold, the count of open positions is what it was before,
/// as long as it has room, and the ticker has no position.
pub proof fn lemma_exit_undoes_fill(
    book: Book,
    opp: TradeOpportunity,
    order: OrderResponse,
    limit_price_cents: u64,
    now: u64,
    exit: ExitResponse,
    later: u64,
)
    requires
        order.filled_count > 0,
        exit.filled_count > 0,
        book.gate.open_positions < u8::MAX,
        !book.positions.contains_key(opp.market.ticker@),
    ensures
        ({
            let opened = book.after_order(opp, order, limit_price_cents, now);
            let pos = opened.positions[opp.market.ticker@];
            let after = opened.after_exit(pos, exit, later);
            &&& after.gate.open_positions == book.gate.open_positions
            &&& after.positions == book.positions
        }),
{
    let opened = book.after_order(opp, order, limit_price_cents, now);
    let pos = opened.positions[opp.market.ticker@];
    assert(opened.after_exit(pos, exit, later).positions =~= book.positions);
}

/// Settling a row of tickers drops their positions and no others, and blocks the other side of
/// each for two minutes.
pub proof fn lemma_settlement(book: Book, tickers: Seq<String>, now: u64)
    requires
        now + THESIS_COOLDOWN_MS <= u64::MAX,
        forall|i: int|
            0 <= i < tickers.len() ==> book.positions.contains_key((#[trigger] tickers[i])@),
        forall|i: int, j: int|
            0 <= i < j < tickers.len() ==> (#[trigger] tickers[i])@ != (#[trigger] tickers[j])@,
    ensures
        ({
            let after = book.all_settled(tickers, now);
            &&& forall|k: Seq<char>| #[trigger]
                after.positions.contains_key(k) <==> book.positions.contains_key(k) && !(exists|
                    i: int,
                |
                    0 <= i < tickers.len() && (#[trigger] tickers[i])@ == k)
            &&& forall|k: Seq<char>| #[trigger]
                after.positions.contains_key(k) ==> after.positions[k] == book.positions[k]
            &&& forall|i: int|
                0 <= i < tickers.len() ==> after.locks.contains_key((#[trigger] tickers[i])@)
                    && after.locks[tickers[i]@].side == book.positions[tickers[i]@].side
                    && after.locks[tickers[i]@].cooldown_until_ms == now + THESIS_COOLDOWN_MS
            &&& after.gate.open_positions == (if book.gate.open_positions >= tickers.len() {
                book.gate.open_positions - tickers.len()
            } else {
                0
            })
            &&& after.gate.daily_loss_cents == book.gate.daily_loss_cents
            &&& after.suppressions == book.suppressions
        }),
    decreases tickers.len(),
{
    if tickers.len() > 0 {
        let rest = tickers.drop_last();
        let last = tickers.last()@;
        let n = rest.len() as int;
        assert forall|i: int| 0 <= i < rest.len() implies book.positions.contains_key(
            (#[trigger] rest[i])@,
        ) by {
            assert(rest[i] == tickers[i]);
        }
        assert forall|i: int, j: int| 0 <= i < j < rest.len() implies (#[trigger] rest[i])@ != (
        #[trigger] rest[j])@ by {
            assert(rest[i] == tickers[i] && rest[j] == tickers[j]);
        }
        lemma_settlement(book, rest, now);
        let middle = book.all_settled(rest, now);
        let after = book.all_settled(tickers, now);
        assert(tickers[n]@ == last);
        assert forall|i: int| 0 <= i < rest.len() implies (#[trigger] rest[i])@ != last by {
            assert(tickers[i]@ != tickers[n]@);
        }
        assert(middle.positions.contains_key(last));
        assert forall|k: Seq<char>| #[trigger] after.positions.contains_key(k) <==>
            book.positions.contains_key(k) && !(exists|i: int|
            0 <= i < tickers.len() && (#[trigger] tickers[i])@ == k) by {
            if exists|i: int| 0 <= i < rest.len() && (#[trigger] rest[i])@ == k {
                let i = choose|i: int| 0 <= i < rest.len() && (#[trigger] rest[i])@ == k;
                assert(tickers[i]@ == k);
            }
            if exists|i: int| 0 <= i < tickers.len() && (#[trigger] tickers[i])@ == k {
                let i = choose|i: int| 0 <= i < tickers.len() && (#[trigger] tickers[i])@ == k;
                if i < n {
                    assert(rest[i]@ == k);
                }
            }
        }
        assert forall|i: int| 0 <= i < tickers.len() implies after.locks.contains_key(
            (#[trigger] tickers[i])@,
        ) && after.locks[tickers[i]@].side == book.positions[tickers[i]@].side
            && after.locks[tickers[i]@].cooldown_until_ms == now + THESIS_COOLDOWN_MS by {
            if i < n {
                assert(rest[i] == tickers[i]);
            }
        }
    }
}

/// A day's loss that reaches its limit stops every opportunity until the next day.
pub proof fn lemma_loss_limit_stops_trading(
    book: Book,
    ticker: Seq<char>,
    confidence: Binary64,
    edge: Binary64,
    now: u64,
)
    requires
        book.gate.halted(),
        now / risk::DAY_MS <= book.gate.last_reset / risk::DAY_MS,
    ensures
        book.admission(ticker, confidence, edge, now) !is Admitted,
{
}

/// The only order that an opportunity comes to is for its own ticker and side, for as many contracts
/// as the balance and the limits give, and at one cent over the whole cents of the price. There is
/// none where the price is not between 5 and 95 cents, or the ticker is held to the other side, or
/// the side was left at a loss a short time ago.
pub proof fn lemma_the_only_order(handling: Handling, book: Book, event: Event)
    requires
        handling.awaits(event),
        handling.advanced(book, event).3 is Order,
    ensures
        ({
            let opp = handling.opp;
            let price = engine::market_price(opp);
            let contracts = sizing::contracts(
                sizing::kelly(
                    opp.edge,
                    Binary64::whole(100).quotient(price),
                    book.config.kelly_multiplier,
                ),
                event->cents as int,
                price,
                book.config.max_position_cents as int,
                book.config.max_contracts as int,
            );
            &&& event is Balance
            &&& handling.advanced(book, event).3 == (Step::Order {
                ticker: opp.market.ticker,
                side: opp.side,
                contracts: contracts as u64,
                limit_price_cents: (price.truncated() + 1) as u64,
            })
            &&& 0 < contracts <= book.config.max_contracts
            &&& Binary64::whole(5).at_most(price) && price.at_most(Binary64::whole(95))
            &&& !book.locked_against(opp.market.ticker@, opp.side, handling.now)
            &&& !book.suppressed(opp.market.ticker@, opp.side, handling.now)
        }),
{
    lemma_order_within_limits(book, handling.opp, handling.now, event->cents);
    let opp = handling.opp;
    let price = engine::market_price(opp);
    sizing::lemma_contracts_within_limits(
        sizing::kelly(
            opp.edge,
            Binary64::whole(100).quotient(price),
            book.config.kelly_multiplier,
        ),
        event->cents,
        price,
        book.config.max_position_cents,
        book.config.max_contracts,
    );
}

/// One thing that happens to the executor.
pub enum Happening {
    /// Work on an opportunity begins.
    Began { handling: Handling },
    /// The opportunity that is being worked on has its answer.
    Answered { event: Event },
    /// A round begins, and settles tickers.
    RoundBegan { settled: Seq<String>, now: u64 },
    /// A round has its answer.
    RoundAnswered { round: Round, answer: RoundEvent },
}

/// What has become of the executor.
pub struct History {
    pub book: Book,
    /// The opportunity that is being worked on.
    pub handling: Option<Handling>,
    /// The orders so far: the ticker of each, and when work on its opportunity began.
    pub orders: Seq<(Seq<char>, u64)>,
}

impl History {
    /// The history before anything has happened.
    pub open spec fn fresh(book: Book) -> History {
        History { book, handling: None, orders: Seq::empty() }
    }

    /// Whether something can happen now.
    pub open spec fn allows(self, happening: Happening) -> bool {
        match happening {
            Happening::Began { handling } => {
                &&& handling.next == 0
                &&& handling.stage == (if handling.sales@.len() > 0 {
                    Stage::Selling
                } else {
                    run::considered(self.book, handling.opp, handling.now).1
                })
            },
            Happening::Answered { event } => self.handling is Some && self.handling->0.wf()
                && self.handling->0.awaits(event),
            Happening::RoundBegan { settled, now } => true,
            Happening::RoundAnswered { round, answer } => round.awaits(answer),
        }
    }

    /// What becomes of the executor.
    pub open spec fn after(self, happening: Happening) -> History {
        match happening {
            Happening::Began { handling } => History {
                book: if handling.sales@.len() > 0 {
                    self.book
                } else {
                    run::considered(self.book, handling.opp, handling.now).0
                },
                handling: Some(handling),
                ..self
            },
            Happening::Answered { event } => {
                let handling = self.handling->0;
                let (book, stage, next, step) = handling.advanced(self.book, event);
                History {
                    book,
                    handling: Some(Handling { stage, next: next as usize, ..handling }),
                    orders: if step is Order {
                        self.orders.push((handling.opp.market.ticker@, handling.now))
                    } else {
                        self.orders
                    },
                }
            },
            Happening::RoundBegan { settled, now } => History {
                book: self.book.all_settled(settled, now),
                ..self
            },
            Happening::RoundAnswered { round, answer } => History {
                book: round.advanced(self.book, answer).0,
                ..self
            },
        }
    }

    /// The orders are apart, and the book and the opportunity remember them.
    spec fn apart(self) -> bool {
        &&& forall|i: int|
            0 <= i < self.orders.len() ==> self.book.traded.contains_key(
                (#[trigger] self.orders[i]).0,
            ) && self.orders[i].1 <= self.book.traded[self.orders[i].0]
        &&& forall|i: int, j: int|
            0 <= i < j < self.orders.len() && (#[trigger] self.orders[i]).0 == (
            #[trigger] self.orders[j]).0 ==> self.orders[i].1 + ORDER_COOLDOWN_MS
                <= self.orders[j].1
        &&& self.handling is Some && self.handling->0.stage == Stage::Funding ==> {
            let ticker = self.handling->0.opp.market.ticker@;
            let now = self.handling->0.now;
            &&& self.book.traded.contains_key(ticker)
            &&& now <= self.book.traded[ticker]
            &&& forall|i: int|
                0 <= i < self.orders.len() && (#[trigger] self.orders[i]).0 == ticker
                    ==> self.orders[i].1 + ORDER_COOLDOWN_MS <= now
        }
    }
}

/// What has become of the executor after a row of things has happened.
pub open spec fn history(book: Book, happenings: Seq<Happening>) -> History
    decreases happenings.len(),
{
    if happenings.len() == 0 {
        History::fresh(book)
    } else {
        history(book, happenings.drop_last()).after(happenings.last())
    }
}

/// Whether a row of things can happen.
pub open spec fn can_happen(book: Book, happenings: Seq<Happening>) -> bool
    decreases happenings.len(),
{
    happenings.len() > 0 ==> can_happen(book, happenings.drop_last()) && history(
        book,
        happenings.drop_last(),
    ).allows(happenings.last())
}

/// Whatever happens, two orders for one ticker are at least 30 seconds apart.
pub proof fn lemma_orders_are_apart(book: Book, happenings: Seq<Happening>)
    requires
        can_happen(book, happenings),
    ensures
        ({
            let orders = history(book, happenings).orders;
            forall|i: int, j: int|
                0 <= i < j < orders.len() && (#[trigger] orders[i]).0 == (#[trigger] orders[j]).0
                    ==> orders[i].1 + ORDER_COOLDOWN_MS <= orders[j].1
        }),
{
    lemma_history_apart(book, happenings);
}

proof fn lemma_history_apart(book: Book, happenings: Seq<Happening>)
    requires
        can_happen(book, happenings),
    ensures
        history(book, happenings).apart(),
    decreases happenings.len(),
{
    if happenings.len() > 0 {
        let before = history(book, happenings.drop_last());
        lemma_history_apart(book, happenings.drop_last());
        match happenings.last() {
            Happening::Began { handling } => {
                if handling.sales@.len() == 0 {
                    lemma_considered_apart(before, before.book, handling);
                }
            },
            Happening::Answered { event } => {
                lemma_answered_apart(before, event);
            },
            Happening::RoundBegan { settled, now } => {
                lemma_settled_traded(before.book, settled, now);
            },
            Happening::RoundAnswered { round, answer } => {},
        }
    }
}

/// An opportunity that is looked at keeps the orders apart.
proof fn lemma_considered_apart(before: History, book: Book, handling: Handling)
    requires
        before.apart(),
        book.traded == before.book.traded,
    ensures
        ({
            let (after, stage, step) = run::considered(book, handling.opp, handling.now);
            let ticker = handling.opp.market.ticker@;
            &&& step !is Order
            &&& forall|i: int|
                0 <= i < before.orders.len() ==> after.traded.contains_key(
                    (#[trigger] before.orders[i]).0,
                ) && before.orders[i].1 <= after.traded[before.orders[i].0]
            &&& stage == Stage::Funding ==> {
                &&& after.traded.contains_key(ticker)
                &&& handling.now <= after.traded[ticker]
                &&& forall|i: int|
                    0 <= i < before.orders.len() && (#[trigger] before.orders[i]).0 == ticker
                        ==> before.orders[i].1 + ORDER_COOLDOWN_MS <= handling.now
            }
        }),
{
}

proof fn lemma_answered_apart(before: History, event: Event)
    requires
        before.apart(),
        before.allows(Happening::Answered { event }),
    ensures
        before.after(Happening::Answered { event }).apart(),
{
    let handling = before.handling->0;
    let (book, stage, next, step) = handling.advanced(before.book, event);
    let after = before.after(Happening::Answered { event });
    match event {
        Event::Sold { exit, reason, now } => {
            let sold = before.book.after_exit(handling.sales@[handling.next as int].0, exit, now);
            if handling.next + 1 >= handling.sales@.len() {
                lemma_considered_apart(before, sold, handling);
            }
        },
        Event::SaleFailed => {
            if handling.next + 1 >= handling.sales@.len() {
                lemma_considered_apart(before, before.book, handling);
            }
        },
        Event::Balance { cents } => {
            if step is Order {
                let n = before.orders.len() as int;
                assert forall|i: int, j: int|
                    0 <= i < j < after.orders.len() && (#[trigger] after.orders[i]).0 == (
                    #[trigger] after.orders[j]).0 implies after.orders[i].1 + ORDER_COOLDOWN_MS
                    <= after.orders[j].1 by {
                    assert(after.orders[i] == before.orders[i]);
                    if j < n {
                        assert(after.orders[j] == before.orders[j]);
                    }
                }
            }
        },
        _ => {},
    }
}

proof fn lemma_settled_traded(book: Book, tickers: Seq<String>, now: u64)
    ensures
        book.all_settled(tickers, now).traded == book.traded,
    decreases tickers.len(),
{
    if tickers.len() > 0 {
        lemma_settled_traded(book, tickers.drop_last(), now);
    }
}

} // verus!
