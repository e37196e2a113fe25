//! The order in which the executor's steps follow each other.
//!
//! An opportunity is worked on in turns: a step says what to ask the exchange next, an event says
//! how it went. So is a round of reconciliation.

use crate::executor::client::{ExitResponse, MarketBids, OrderResponse, Position};
use crate::executor::engine;
use crate::executor::engine::{Admission, Book, Executor, Sizing, THESIS_COOLDOWN_MS};
use crate::executor::position_tracker;
use crate::executor::position_tracker::{ExitReason, OpenPosition};
use crate::executor::risk;
use crate::executor::risk::RiskViolation;
use crate::historian::schema::{FillRecord, RealizedPnlRecord, RiskViolationRecord};
use crate::numeric::binary64::Binary64;
use crate::types::{TradeOpportunity, TradeSide};
use vstd::prelude::*;

verus! {

/// What is being waited for.
#[derive(Clone, Copy, Debug, PartialEq, Eq, Structural)]
pub enum Stage {
    /// The sale of a position that the index has moved against.
    Selling,
    /// The balance.
    Funding,
    /// The answer to an order.
    Placing { contracts: u64, limit_price_cents: u64 },
    Finished,
}

/// How an opportunity ended.
#[derive(Clone, Copy, Debug, PartialEq, Eq, Structural)]
pub enum Outcome {
    PositionOpen,
    CoolingDown,
    Refused { violation: RiskViolation },
    NoBalance,
    /// The opportunity came to no order.
    Unsized { sizing: Sizing },
    OrderFailed,
    /// The exchange took the order.
    Answered,
}

/// What to do next.
#[derive(Debug)]
pub enum Step {
    /// Sell a position.
    Sell { pos: OpenPosition, reason: ExitReason },
    /// Ask for the balance.
    AskBalance,
    /// Place a limit order.
    Order { ticker: String, side: TradeSide, contracts: u64, limit_price_cents: u64 },
    Finished { outcome: Outcome },
}

/// How it went.
#[derive(Debug)]
pub enum Event {
    /// The exchange took a sale; `reason` is how its reason is written.
    Sold { exit: ExitResponse, reason: String, now: u64 },
    SaleFailed,
    Balance { cents: u64 },
    NoBalance,
    /// The exchange took an order.
    Ordered { order: OrderResponse, recorded_ms: u64 },
    OrderFailed,
}

/// An opportunity that is being worked on.
pub struct Handling {
    pub opp: TradeOpportunity,
    /// When work on it began.
    pub now: u64,
    /// The positions that the index has moved against, and how far.
    pub sales: Vec<(OpenPosition, ExitReason)>,
    /// Which of them is being sold.
    pub next: usize,
    pub stage: Stage,
}

/// What to do next, and what to record of what was done.
pub struct Progress {
    pub step: Step,
    pub fill: Option<FillRecord>,
    pub pnl: Option<RealizedPnlRecord>,
}

/// Whether an opportunity goes on once the sales are done.
pub open spec fn considered(book: Book, opp: TradeOpportunity, now: u64) -> (Book, Stage, Step) {
    let ticker = opp.market.ticker@;
    let after = book.after_admission(ticker, now);
    match book.admission(ticker, opp.signal.confidence, opp.edge, now) {
        Admission::PositionOpen => (
            after,
            Stage::Finished,
            Step::Finished { outcome: Outcome::PositionOpen },
        ),
        Admission::CoolingDown => (
            after,
            Stage::Finished,
            Step::Finished { outcome: Outcome::CoolingDown },
        ),
        Admission::Refused { violation } => (
            after,
            Stage::Finished,
            Step::Finished { outcome: Outcome::Refused { violation } },
        ),
        Admission::Admitted => (after, Stage::Funding, Step::AskBalance),
    }
}

/// What an opportunity comes to with the balance.
pub open spec fn funded(book: Book, opp: TradeOpportunity, now: u64, cents: u64) -> (Stage, Step) {
    match book.sizing(opp, now, cents) {
        Sizing::Order { contracts, limit_price_cents } => (
            Stage::Placing { contracts, limit_price_cents },
            Step::Order {
                ticker: opp.market.ticker,
                side: opp.side,
                contracts,
                limit_price_cents,
            },
        ),
        sizing => (Stage::Finished, Step::Finished { outcome: Outcome::Unsized { sizing } }),
    }
}

impl Handling {
    /// Whether an event answers what is being waited for.
    pub open spec fn awaits(self, event: Event) -> bool {
        match event {
            Event::Sold { exit, reason, now } => self.stage == Stage::Selling && now
                + THESIS_COOLDOWN_MS <= u64::MAX,
            Event::SaleFailed => self.stage == Stage::Selling,
            Event::Balance { cents } => self.stage == Stage::Funding,
            Event::NoBalance => self.stage == Stage::Funding,
            Event::Ordered { order, recorded_ms } => self.stage is Placing && order.filled_count
                * self.stage->limit_price_cents <= u64::MAX,
            Event::OrderFailed => self.stage is Placing,
        }
    }

    /// The sale that is being waited for is one of the list.
    pub open spec fn wf(self) -> bool {
        self.stage == Stage::Selling ==> self.next < self.sales@.len()
    }

    /// The book, the stage, the sale and the step that follow an event.
    pub open spec fn advanced(self, book: Book, event: Event) -> (Book, Stage, int, Step) {
        match event {
            Event::Sold { exit, reason, now } => self.sold(
                book.after_exit(self.sales@[self.next as int].0, exit, now),
            ),
            Event::SaleFailed => self.sold(book),
            Event::Balance { cents } => {
                let (stage, step) = funded(book, self.opp, self.now, cents);
                (book, stage, self.next as int, step)
            },
            Event::NoBalance => (
                book,
                Stage::Finished,
                self.next as int,
                Step::Finished { outcome: Outcome::NoBalance },
            ),
            Event::Ordered { order, recorded_ms } => (
                book.after_order(self.opp, order, self.stage->limit_price_cents, self.now),
                Stage::Finished,
                self.next as int,
                Step::Finished { outcome: Outcome::Answered },
            ),
            Event::OrderFailed => (
                book,
                Stage::Finished,
                self.next as int,
                Step::Finished { outcome: Outcome::OrderFailed },
            ),
        }
    }

    /// What follows a sale: the next one, or else the opportunity itself.
    pub open spec fn sold(self, book: Book) -> (Book, Stage, int, Step) {
        if self.next + 1 < self.sales@.len() {
            (
                book,
                Stage::Selling,
                self.next + 1,
                Step::Sell {
                    pos: self.sales@[self.next + 1].0,
                    reason: self.sales@[self.next + 1].1,
                },
            )
        } else {
            let (after, stage, step) = considered(book, self.opp, self.now);
            (after, stage, self.next + 1, step)
        }
    }
}

/// Whether a record is what is recorded of an order.
pub open spec fn is_fill_record(
    record: FillRecord,
    opp: TradeOpportunity,
    order: OrderResponse,
    limit_price_cents: u64,
    recorded_ms: u64,
) -> bool {
    &&& record.timestamp_ms == recorded_ms
    &&& record.order_id == order.order_id
    &&& record.ticker == opp.market.ticker
    &&& record.side@ == engine::side_name(opp.side)
    &&& record.contracts == order.filled_count
    &&& record.price_cents == limit_price_cents
    &&& record.status == order.status
}

/// Whether a record is what is recorded of a sale.
pub open spec fn is_pnl_record(
    record: RealizedPnlRecord,
    pos: OpenPosition,
    exit: ExitResponse,
    reason: String,
    now: u64,
) -> bool {
    &&& record.timestamp_ms == now
    &&& record.ticker == pos.ticker
    &&& record.side@ == engine::side_name(pos.side)
    &&& record.contracts == exit.filled_count
    &&& record.entry_price_cents == pos.entry_price_cents.rounded().truncated()
    &&& record.exit_price_cents == exit.fill_price_cents
    &&& record.pnl_cents == engine::profit(pos, exit)
    &&& record.reason == reason
}

/// The name under which the end of an opportunity stands among the risk violations, if it does.
pub open spec fn refusal_name(outcome: Outcome) -> Option<Seq<char>> {
    match outcome {
        Outcome::Refused { violation } => Some(risk::violation_name(violation)),
        Outcome::Unsized { sizing: Sizing::PriceOutOfBand { price_cents: _ } } => Some(
            "PriceBandOutOfRange"@,
        ),
        _ => None,
    }
}

/// What is recorded of an opportunity that was refused; `detail` is how the refusal is written.
pub fn refusal_record(outcome: &Outcome, now: u64, detail: String) -> (r: Option<
    RiskViolationRecord,
>)
    ensures
        match r {
            Some(record) => {
                &&& record.timestamp_ms == now
                &&& refusal_name(*outcome) == Some(record.violation_type@)
                &&& record.detail == detail
            },
            None => refusal_name(*outcome) is None,
        },
{
    let name: &str = match outcome {
        Outcome::Refused { violation } => risk::violation_type_str(violation),
        Outcome::Unsized { sizing: Sizing::PriceOutOfBand { price_cents: _ } } =>
        "PriceBandOutOfRange",
        _ => {
            return None;
        },
    };
    Some(RiskViolationRecord { timestamp_ms: now, violation_type: name.to_string(), detail })
}

impl Executor {
    /// Whether an opportunity goes on once the sales are done.
    fn go_on(&mut self, opp: &TradeOpportunity, now: u64) -> (r: (Stage, Step))
        requires
            old(self).wf(),
        ensures
            final(self).wf(),
            (final(self)@, r.0, r.1) == considered(old(self)@, *opp, now),
    {
        match self.consider(opp, now) {
            Admission::PositionOpen => (
                Stage::Finished,
                Step::Finished { outcome: Outcome::PositionOpen },
            ),
            Admission::CoolingDown => (
                Stage::Finished,
                Step::Finished { outcome: Outcome::CoolingDown },
            ),
            Admission::Refused { violation } => (
                Stage::Finished,
                Step::Finished { outcome: Outcome::Refused { violation } },
            ),
            Admission::Admitted => (Stage::Funding, Step::AskBalance),
        }
    }

    /// Begins work on an opportunity: the positions that the index has moved against are sold
    /// first.
    pub fn begin(&mut self, opp: TradeOpportunity, now: u64) -> (r: (Handling, Step))
        requires
            old(self).wf(),
        ensures
            final(self).wf(),
            r.0.wf(),
            r.0.opp == opp,
            r.0.now == now,
            r.0.next == 0,
            forall|i: int|
                0 <= i < r.0.sales@.len() ==> {
                    let pos = (#[trigger] r.0.sales@[i]).0;
                    &&& old(self)@.positions.contains_key(pos.ticker@)
                    &&& old(self)@.positions[pos.ticker@] == pos
                    &&& position_tracker::reversed(
                        pos.side,
                        opp.signal.brti_est.value.difference(pos.entry_brti),
                    )
                    &&& r.0.sales@[i].1 == engine::reversal(pos, opp.signal.brti_est.value)
                },
            forall|i: int, j: int|
                0 <= i < j < r.0.sales@.len() ==> (#[trigger] r.0.sales@[i]).0.ticker@ != (
                #[trigger] r.0.sales@[j]).0.ticker@,
            forall|k: Seq<char>| #[trigger]
                old(self)@.positions.contains_key(k) && position_tracker::reversed(
                    old(self)@.positions[k].side,
                    opp.signal.brti_est.value.difference(old(self)@.positions[k].entry_brti),
                ) ==> exists|i: int|
                    0 <= i < r.0.sales@.len() && (#[trigger] r.0.sales@[i]).0 == old(self)@.positions[k],
            if r.0.sales@.len() > 0 {
                &&& final(self)@ == old(self)@
                &&& r.0.stage == Stage::Selling
                &&& r.1 == (Step::Sell { pos: r.0.sales@[0].0, reason: r.0.sales@[0].1 })
            } else {
                (final(self)@, r.0.stage, r.1) == considered(old(self)@, opp, now)
            },
    {
        let sales: Vec<(OpenPosition, ExitReason)> = self.reversals(opp.signal.brti_est.value);
        if sales.len() > 0 {
            let step: Step = Step::Sell { pos: sales[0].0.clone(), reason: sales[0].1 };
            (Handling { opp, now, sales, next: 0, stage: Stage::Selling }, step)
        } else {
            let (stage, step) = self.go_on(&opp, now);
            (Handling { opp, now, sales, next: 0, stage }, step)
        }
    }

    /// Takes in how the last step went, and says what follows.
    pub fn advance(&mut self, handling: &mut Handling, event: Event) -> (r: Progress)
        requires
            old(self).wf(),
            old(handling).wf(),
            old(handling).awaits(event),
        ensures
            final(self).wf(),
            final(handling).wf(),
            final(handling).opp == old(handling).opp,
            final(handling).now == old(handling).now,
            final(handling).sales == old(handling).sales,
            (final(self)@, final(handling).stage, final(handling).next as int, r.step) == old(handling).advanced(old(self)@, event),
            match r.fill {
                Some(record) => event matches Event::Ordered { order, recorded_ms }
                    && is_fill_record(
                    record,
                    old(handling).opp,
                    order,
                    old(handling).stage->limit_price_cents,
                    recorded_ms,
                ),
                None => event !is Ordered,
            },
            match r.pnl {
                Some(record) => event matches Event::Sold { exit, reason, now }
                    && exit.filled_count > 0 && is_pnl_record(
                    record,
                    old(handling).sales@[old(handling).next as int].0,
                    exit,
                    reason,
                    now,
                ),
                None => event matches Event::Sold { exit, reason, now } ==> exit.filled_count == 0,
            },
    {
        match event {
            Event::Sold { exit, reason, now } => {
                let pnl: Option<RealizedPnlRecord> = self.conclude_exit(
                    &handling.sales[handling.next].0,
                    &exit,
                    reason,
                    now,
                );
                let step: Step = self.after_sale(handling);
                Progress { step, fill: None, pnl }
            },
            Event::SaleFailed => {
                let step: Step = self.after_sale(handling);
                Progress { step, fill: None, pnl: None }
            },
            Event::Balance { cents } => {
                let step: Step = match self.size(&handling.opp, handling.now, cents) {
                    Sizing::Order { contracts, limit_price_cents } => {
                        handling.stage = Stage::Placing { contracts, limit_price_cents };
                        Step::Order {
                            ticker: handling.opp.market.ticker.clone(),
                            side: handling.opp.side,
                            contracts,
                            limit_price_cents,
                        }
                    },
                    sizing => {
                        handling.stage = Stage::Finished;
                        Step::Finished { outcome: Outcome::Unsized { sizing } }
                    },
                };
                Progress { step, fill: None, pnl: None }
            },
            Event::NoBalance => {
                handling.stage = Stage::Finished;
                Progress {
                    step: Step::Finished { outcome: Outcome::NoBalance },
                    fill: None,
                    pnl: None,
                }
            },
            Event::Ordered { order, recorded_ms } => {
                let limit_price_cents: u64 = match handling.stage {
                    Stage::Placing { contracts: _, limit_price_cents } => limit_price_cents,
                    _ => 0,
                };
                let record: FillRecord = self.apply_order(
                    &handling.opp,
                    &order,
                    limit_price_cents,
                    handling.now,
                    recorded_ms,
                );
                handling.stage = Stage::Finished;
                Progress {
                    step: Step::Finished { outcome: Outcome::Answered },
                    fill: Some(record),
                    pnl: None,
                }
            },
            Event::OrderFailed => {
                handling.stage = Stage::Finished;
                Progress {
                    step: Step::Finished { outcome: Outcome::OrderFailed },
                    fill: None,
                    pnl: None,
                }
            },
        }
    }

    /// What follows a sale: the next one, or else the opportunity itself.
    fn after_sale(&mut self, handling: &mut Handling) -> (r: Step)
        requires
            old(self).wf(),
            old(handling).wf(),
            old(handling).stage == Stage::Selling,
        ensures
            final(self).wf(),
            final(handling).wf(),
            final(handling).opp == old(handling).opp,
            final(handling).now == old(handling).now,
            final(handling).sales == old(handling).sales,
            (final(self)@, final(handling).stage, final(handling).next as int, r) == old(handling).sold(old(self)@),
    {
        let count: usize = handling.sales.len();
        handling.next = handling.next + 1;
        if handling.next < count {
            Step::Sell {
                pos: handling.sales[handling.next].0.clone(),
                reason: handling.sales[handling.next].1,
            }
        } else {
            let (stage, step) = self.go_on(&handling.opp, handling.now);
            handling.stage = stage;
            step
        }
    }
}

/// What to do next in a round of reconciliation.
#[derive(Debug)]
pub enum RoundStep {
    /// Ask for the bids of a market.
    AskBids { ticker: String },
    /// Sell a position.
    Sell { pos: OpenPosition, reason: ExitReason },
    Finished,
}

/// How it went.
#[derive(Debug)]
pub enum RoundEvent {
    Bids { bids: MarketBids },
    NoBids,
    /// The exchange took a sale; `reason` is how its reason is written.
    Sold { exit: ExitResponse, reason: String, now: u64 },
    SaleFailed,
}

/// A round of reconciliation.
pub struct Round {
    /// The index when the round began.
    pub current_brti: Binary64,
    /// When the round began.
    pub now: u64,
    /// The positions that were open then and are not settled.
    pub open: Vec<OpenPosition>,
    /// Which of them is being looked at.
    pub next: usize,
    /// The position that is being sold.
    pub selling: Option<OpenPosition>,
}

impl Round {
    /// What comes after the position that was looked at.
    pub open spec fn following(self) -> RoundStep {
        if self.next + 1 < self.open@.len() {
            RoundStep::AskBids { ticker: self.open@[self.next + 1].ticker }
        } else {
            RoundStep::Finished
        }
    }

    /// Whether an event answers what is being waited for.
    pub open spec fn awaits(self, event: RoundEvent) -> bool {
        match event {
            RoundEvent::Bids { bids } => self.selling is None && self.next < self.open@.len(),
            RoundEvent::NoBids => self.selling is None && self.next < self.open@.len(),
            RoundEvent::Sold { exit, reason, now } => self.selling is Some && self.next
                < self.open@.len() && now + THESIS_COOLDOWN_MS <= u64::MAX,
            RoundEvent::SaleFailed => self.selling is Some && self.next < self.open@.len(),
        }
    }

    /// The book, the position looked at, the position being sold and the step that follow an event.
    pub open spec fn advanced(self, book: Book, event: RoundEvent) -> (
        Book,
        int,
        Option<OpenPosition>,
        RoundStep,
    ) {
        match event {
            RoundEvent::Bids { bids } => {
                let pos = self.open@[self.next as int];
                let after = book.after_bids(pos, bids);
                match book.exit_after_bids(pos, bids, self.current_brti, self.now) {
                    Some((leaving, reason)) => (
                        after,
                        self.next as int,
                        Some(leaving),
                        RoundStep::Sell { pos: leaving, reason },
                    ),
                    None => (after, self.next + 1, None, self.following()),
                }
            },
            RoundEvent::NoBids => (book, self.next + 1, None, self.following()),
            RoundEvent::Sold { exit, reason, now } => (
                book.after_exit(self.selling->0, exit, now),
                self.next + 1,
                None,
                self.following(),
            ),
            RoundEvent::SaleFailed => (book, self.next + 1, None, self.following()),
        }
    }
}

impl Executor {
    /// Begins a round of reconciliation: the positions that the exchange no longer reports are
    /// settled, and the others are looked at one after another.
    pub fn begin_round(
        &mut self,
        reported: &Vec<Position>,
        current_brti: Binary64,
        now: u64,
    ) -> (r: (Round, RoundStep, Vec<String>))
        requires
            old(self).wf(),
            now + THESIS_COOLDOWN_MS <= u64::MAX,
        ensures
            final(self).wf(),
            final(self)@ == old(self)@.all_settled(r.2@, now),
            forall|i: int|
                0 <= i < r.2@.len() ==> old(self)@.positions.contains_key((#[trigger] r.2@[i])@)
                    && !engine::reported(reported@, r.2@[i]@),
            forall|i: int, j: int|
                0 <= i < j < r.2@.len() ==> (#[trigger] r.2@[i])@ != (#[trigger] r.2@[j])@,
            forall|k: Seq<char>| #[trigger]
                old(self)@.positions.contains_key(k) && !engine::reported(reported@, k)
                    ==> exists|i: int| 0 <= i < r.2@.len() && (#[trigger] r.2@[i])@ == k,
            r.0.current_brti == current_brti,
            r.0.now == now,
            r.0.next == 0,
            r.0.selling is None,
            forall|i: int|
                0 <= i < r.0.open@.len() ==> final(self)@.positions.contains_key(
                    (#[trigger] r.0.open@[i]).ticker@,
                ) && final(self)@.positions[r.0.open@[i].ticker@] == r.0.open@[i],
            forall|i: int, j: int|
                0 <= i < j < r.0.open@.len() ==> (#[trigger] r.0.open@[i]).ticker@ != (
                #[trigger] r.0.open@[j]).ticker@,
            forall|k: Seq<char>| #[trigger]
                final(self)@.positions.contains_key(k) ==> exists|i: int|
                    0 <= i < r.0.open@.len() && #[trigger] r.0.open@[i] == final(self)@.positions[k],
            r.1 == (if r.0.open@.len() > 0 {
                RoundStep::AskBids { ticker: r.0.open@[0].ticker }
            } else {
                RoundStep::Finished
            }),
    {
        let settled: Vec<String> = self.settle(reported, now);
        let open: Vec<OpenPosition> = self.open_positions();
        let step: RoundStep = if open.len() > 0 {
            RoundStep::AskBids { ticker: open[0].ticker.clone() }
        } else {
            RoundStep::Finished
        };
        (Round { current_brti, now, open, next: 0, selling: None }, step, settled)
    }

    /// Takes in how the last step of a round went, and says what follows.
    pub fn advance_round(&mut self, round: &mut Round, event: RoundEvent) -> (r: (
        RoundStep,
        Option<RealizedPnlRecord>,
    ))
        requires
            old(self).wf(),
            old(round).awaits(event),
        ensures
            final(self).wf(),
            final(round).current_brti == old(round).current_brti,
            final(round).now == old(round).now,
            final(round).open == old(round).open,
            (final(self)@, final(round).next as int, final(round).selling, r.0) == old(round).advanced(old(self)@, event),
            match r.1 {
                Some(record) => event matches RoundEvent::Sold { exit, reason, now }
                    && exit.filled_count > 0 && is_pnl_record(
                    record,
                    old(round).selling->0,
                    exit,
                    reason,
                    now,
                ),
                None => event matches RoundEvent::Sold { exit, reason, now } ==> exit.filled_count
                    == 0,
            },
    {
        let mut pnl: Option<RealizedPnlRecord> = None;
        match event {
            RoundEvent::Bids { bids } => {
                match self.observe_bids(
                    &round.open[round.next],
                    &bids,
                    round.current_brti,
                    round.now,
                ) {
                    Some((pos, reason)) => {
                        round.selling = Some(pos.clone());
                        return (RoundStep::Sell { pos, reason }, pnl);
                    },
                    None => {},
                }
            },
            RoundEvent::NoBids => {},
            RoundEvent::Sold { exit, reason, now } => {
                match &round.selling {
                    Some(pos) => {
                        pnl = self.conclude_exit(pos, &exit, reason, now);
                    },
                    None => {},
                }
                round.selling = None;
            },
            RoundEvent::SaleFailed => {
                round.selling = None;
            },
        }
        let count: usize = round.open.len();
        round.next = round.next + 1;
        let step: RoundStep = if round.next < count {
            RoundStep::AskBids { ticker: round.open[round.next].ticker.clone() }
        } else {
            RoundStep::Finished
        };
        (step, pnl)
    }
}

/// No order is placed before the opportunity was admitted and the balance known: an order follows
/// the balance alone, and the balance is asked for only where the opportunity was admitted.
pub proof fn lemma_order_follows_balance(handling: Handling, book: Book, event: Event)
    requires
        handling.awaits(event),
    ensures
        handling.advanced(book, event).3 is Order ==> event is Balance && book.sizing(
            handling.opp,
            handling.now,
            event->cents,
        ) is Order,
        handling.advanced(book, event).3 is AskBalance ==> {
            let sold = match event {
                Event::Sold { exit, reason, now } => book.after_exit(
                    handling.sales@[handling.next as int].0,
                    exit,
                    now,
                ),
                _ => book,
            };
            sold.admission(
                handling.opp.market.ticker@,
                handling.opp.signal.confidence,
                handling.opp.edge,
                handling.now,
            ) == Admission::Admitted
        },
{
}

/// A failed sale, or one that filled nothing, keeps the position, so that it is tried again later.
pub proof fn lemma_failed_sale_keeps_position(handling: Handling, book: Book, event: Event)
    requires
        handling.awaits(event),
        event is SaleFailed || (event is Sold && event->exit.filled_count == 0),
    ensures
        handling.advanced(book, event).0.positions == book.positions,
{
}

/// A round looks at each position once: an event moves it on to the next, but for bids that lead to
/// a sale of the same.
pub proof fn lemma_round_moves_on(round: Round, book: Book, event: RoundEvent)
    requires
        round.awaits(event),
    ensures
        ({
            let (after, next, selling, step) = round.advanced(book, event);
            &&& step is Sell <==> selling is Some
            &&& selling is Some ==> next == round.next && event is Bids
            &&& selling is None ==> next == round.next + 1
        }),
{
}

} // verus!
