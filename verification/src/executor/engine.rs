//! What the executor decides: which opportunities become orders, what an answer of the exchange
//! changes, and which positions are left.
//!
//! The exchange is asked elsewhere; each step here takes what it answered and the time.

use crate::clock;
use crate::executor::client::{ExitResponse, MarketBids, OrderResponse, Position};
use crate::executor::position_tracker;
use crate::executor::position_tracker::{ExitReason, OpenPosition, PositionTracker};
use crate::executor::risk;
use crate::executor::risk::{RiskConfig, RiskGate, RiskViolation};
use crate::executor::sizing;
use crate::historian::schema::{FillRecord, RealizedPnlRecord};
use crate::numeric::binary64::Binary64;
use crate::numeric::decimal;
use crate::numeric::laws;
use crate::text;
use crate::ticker_map::TickerMap;
use crate::types::{TradeOpportunity, TradeSide};
use vstd::prelude::*;
use vstd::string::*;

verus! {

/// For how long after an exit the other side of a ticker stays blocked.
pub const THESIS_COOLDOWN_MS: u64 = 120_000;

/// For how long after an order its ticker gets no other.
pub const ORDER_COOLDOWN_MS: u64 = 30_000;

/// The side that a ticker is held to, and until when.
#[derive(Clone, Copy, Debug, PartialEq, Eq, Structural)]
pub struct ThesisLock {
    pub side: TradeSide,
    pub cooldown_until_ms: u64,
}

/// The settings of the executor beside the risk limits.
#[derive(Clone, Copy, Debug, PartialEq, Eq, Structural)]
pub struct ExecutorConfig {
    /// The most that one position may cost.
    pub max_position_cents: u64,
    /// The scale of the Kelly bet.
    pub kelly_multiplier: Binary64,
    pub max_contracts: u64,
    /// The loss from which on a side of a ticker is not entered again for a while.
    pub reentry_loss_threshold_cents: i64,
}

/// What a setting says: the number that its text holds, or a default.
pub open spec fn number_setting(value: Option<&str>, default: Binary64) -> Binary64 {
    match value {
        Some(s) => match decimal::number_text(s@) {
            Some(x) => x,
            None => default,
        },
        None => default,
    }
}

/// What a setting says: the signed number that its text holds, or a default.
pub open spec fn signed_setting(value: Option<&str>, default: i64) -> i64 {
    match value {
        Some(s) => match text::signed_text(s@) {
            Some(n) => n,
            None => default,
        },
        None => default,
    }
}

impl ExecutorConfig {
    /// The settings, from the texts of the environment's `KELLY_FRACTION`, `MAX_CONTRACTS` and
    /// `REENTRY_LOSS_THRESHOLD_CENTS`.
    pub fn from_env(
        risk: &RiskConfig,
        kelly_fraction: Option<&str>,
        max_contracts: Option<&str>,
        reentry_loss_threshold_cents: Option<&str>,
    ) -> (r: Self)
        ensures
            r == (ExecutorConfig {
                max_position_cents: risk.max_position_cents,
                kelly_multiplier: number_setting(kelly_fraction, Binary64::ratio(25, 100)),
                max_contracts: risk::setting_value(max_contracts, 100),
                reentry_loss_threshold_cents: signed_setting(reentry_loss_threshold_cents, 10),
            }),
    {
        ExecutorConfig {
            max_position_cents: risk.max_position_cents,
            kelly_multiplier: match kelly_fraction {
                Some(s) => match decimal::parse_number(s) {
                    Some(x) => x,
                    None => Binary64::from_ratio(25, 100),
                },
                None => Binary64::from_ratio(25, 100),
            },
            max_contracts: risk::setting(max_contracts, 100),
            reentry_loss_threshold_cents: match reentry_loss_threshold_cents {
                Some(s) => match text::parse_i64(s) {
                    Some(n) => n,
                    None => 10,
                },
                None => 10,
            },
        }
    }
}

/// The name of a side.
pub open spec fn side_name(side: TradeSide) -> Seq<char> {
    match side {
        TradeSide::Yes => "Yes"@,
        TradeSide::No => "No"@,
    }
}

/// The name of a side.
pub fn side_str(side: &TradeSide) -> (r: &'static str)
    ensures
        r@ == side_name(*side),
{
    match side {
        TradeSide::Yes => "Yes",
        TradeSide::No => "No",
    }
}

/// The name under which a side of a ticker is remembered.
pub open spec fn thesis_name(ticker: Seq<char>, side: TradeSide) -> Seq<char> {
    ticker + ":"@ + side_name(side)
}

/// The name under which a side of a ticker is remembered.
pub fn thesis_key(ticker: &str, side: &TradeSide) -> (r: String)
    ensures
        r@ == thesis_name(ticker@, *side),
{
    let mut r: String = text::join(ticker, ":");
    r.append(side_str(side));
    r
}

/// Two sides, or two tickers, are never remembered under one name.
pub proof fn lemma_thesis_name_distinct(t1: Seq<char>, s1: TradeSide, t2: Seq<char>, s2: TradeSide)
    requires
        thesis_name(t1, s1) == thesis_name(t2, s2),
    ensures
        t1 == t2,
        s1 == s2,
{
    reveal_strlit(":");
    reveal_strlit("Yes");
    reveal_strlit("No");
    let n1 = thesis_name(t1, s1);
    let n2 = thesis_name(t2, s2);
    assert(n1[n1.len() - 1] == side_name(s1).last());
    assert(n2[n2.len() - 1] == side_name(s2).last());
    assert(s1 == s2);
    assert(t1 == n1.take(t1.len() as int));
    assert(t2 == n2.take(t2.len() as int));
}

/// What the executor remembers, as values.
#[verifier::ext_equal]
pub struct Book {
    pub config: ExecutorConfig,
    pub gate: RiskGate,
    pub positions: Map<Seq<char>, OpenPosition>,
    pub locks: Map<Seq<char>, ThesisLock>,
    /// Until when a side of a ticker is not entered, by its name.
    pub suppressions: Map<Seq<char>, u64>,
    /// When a ticker last got an order, or was refused one.
    pub traded: Map<Seq<char>, u64>,
}

/// Whether an opportunity is looked at further.
#[derive(Clone, Copy, Debug, PartialEq, Eq, Structural)]
pub enum Admission {
    /// There is an open position on the ticker.
    PositionOpen,
    /// The ticker had its turn too short a time ago.
    CoolingDown,
    Refused { violation: RiskViolation },
    Admitted,
}

/// What an opportunity comes to.
#[derive(Clone, Copy, Debug, PartialEq, Eq, Structural)]
pub enum Sizing {
    /// The price is not between 5 and 95 cents.
    PriceOutOfBand { price_cents: Binary64 },
    /// The other side of the ticker is held, or was until a short time ago.
    ThesisLocked,
    /// The same side of the ticker was left at a loss a short time ago.
    LossSuppressed,
    /// The odds leave nothing to bet.
    ZeroKelly,
    /// The bet does not pay for a contract, or a limit leaves none.
    ZeroContracts,
    Order { contracts: u64, limit_price_cents: u64 },
}

impl Book {
    /// While a position is open its ticker is held to its side, without an end.
    pub open spec fn held(self) -> bool {
        forall|k: Seq<char>| #[trigger]
            self.positions.contains_key(k) ==> self.locks.contains_key(k) && self.locks[k] == (
            ThesisLock { side: self.positions[k].side, cooldown_until_ms: u64::MAX })
    }

    /// Whether a ticker had its turn too short a time ago; a clock that has gone back since then
    /// shows no time at all.
    pub open spec fn cooling(self, ticker: Seq<char>, now: u64) -> bool {
        self.traded.contains_key(ticker) && clock::monus(now as int, self.traded[ticker] as int)
            < ORDER_COOLDOWN_MS
    }

    /// Whether an opportunity on a ticker is looked at further.
    pub open spec fn admission(
        self,
        ticker: Seq<char>,
        confidence: Binary64,
        edge: Binary64,
        now: u64,
    ) -> Admission {
        if self.positions.contains_key(ticker) {
            Admission::PositionOpen
        } else if self.cooling(ticker, now) {
            Admission::CoolingDown
        } else {
            match self.gate.on_day_of(now).violation(confidence, edge) {
                Some(violation) => Admission::Refused { violation },
                None => Admission::Admitted,
            }
        }
    }

    /// The book after an opportunity on a ticker has been looked at.
    pub open spec fn after_admission(self, ticker: Seq<char>, now: u64) -> Book {
        Book {
            gate: self.gate.on_day_of(now),
            traded: if self.positions.contains_key(ticker) || self.cooling(ticker, now) {
                self.traded
            } else {
                self.traded.insert(ticker, now)
            },
            ..self
        }
    }

    /// Whether the other side of a ticker is held.
    pub open spec fn locked_against(self, ticker: Seq<char>, side: TradeSide, now: u64) -> bool {
        self.locks.contains_key(ticker) && self.locks[ticker].side != side && now
            < self.locks[ticker].cooldown_until_ms
    }

    /// Whether a side of a ticker was left at a loss a short time ago.
    pub open spec fn suppressed(self, ticker: Seq<char>, side: TradeSide, now: u64) -> bool {
        self.suppressions.contains_key(thesis_name(ticker, side)) && now
            < self.suppressions[thesis_name(ticker, side)]
    }

    /// What an opportunity comes to.
    pub open spec fn sizing(self, opp: TradeOpportunity, now: u64, balance_cents: u64) -> Sizing {
        let price = market_price(opp);
        let ticker = opp.market.ticker@;
        let bet = sizing::kelly(
            opp.edge,
            Binary64::whole(100).quotient(price),
            self.config.kelly_multiplier,
        );
        let contracts = sizing::contracts(
            bet,
            balance_cents as int,
            price,
            self.config.max_position_cents as int,
            self.config.max_contracts as int,
        );
        if !(Binary64::whole(5).at_most(price) && price.at_most(Binary64::whole(95))) {
            Sizing::PriceOutOfBand { price_cents: price }
        } else if self.locked_against(ticker, opp.side, now) {
            Sizing::ThesisLocked
        } else if self.suppressed(ticker, opp.side, now) {
            Sizing::LossSuppressed
        } else if bet.at_most(Binary64::whole(0)) {
            Sizing::ZeroKelly
        } else if contracts == 0 {
            Sizing::ZeroContracts
        } else {
            Sizing::Order {
                contracts: contracts as u64,
                limit_price_cents: (price.truncated() + 1) as u64,
            }
        }
    }

    /// The book after an order has been answered: only what was filled becomes a position.
    pub open spec fn after_order(
        self,
        opp: TradeOpportunity,
        order: OrderResponse,
        limit_price_cents: u64,
        now: u64,
    ) -> Book {
        let ticker = opp.market.ticker@;
        if order.filled_count == 0 {
            self
        } else {
            Book {
                gate: self.gate.filled(),
                positions: self.positions.insert(
                    ticker,
                    opened(opp, order, limit_price_cents, now),
                ),
                locks: self.locks.insert(
                    ticker,
                    ThesisLock { side: opp.side, cooldown_until_ms: u64::MAX },
                ),
                ..self
            }
        }
    }

    /// The book after a position was sold, in part or whole.
    pub open spec fn after_exit(self, pos: OpenPosition, exit: ExitResponse, now: u64) -> Book {
        let ticker = pos.ticker@;
        let until = (now + THESIS_COOLDOWN_MS) as u64;
        let pnl = profit(pos, exit);
        if exit.filled_count == 0 {
            self
        } else {
            Book {
                gate: self.gate.closed().booked(pnl),
                positions: self.positions.remove(ticker),
                suppressions: if pnl < 0 && risk::saturated(-pnl)
                    >= self.config.reentry_loss_threshold_cents {
                    self.suppressions.insert(thesis_name(ticker, pos.side), until)
                } else {
                    self.suppressions
                },
                locks: self.locks.insert(
                    ticker,
                    ThesisLock { side: pos.side, cooldown_until_ms: until },
                ),
                ..self
            }
        }
    }

    /// The book after the bids of a position's market have come in.
    pub open spec fn after_bids(self, pos: OpenPosition, bids: MarketBids) -> Book {
        let ticker = pos.ticker@;
        if self.positions.contains_key(ticker) {
            Book {
                positions: self.positions.insert(
                    ticker,
                    self.positions[ticker].raised(bids.bid(pos.side)),
                ),
                ..self
            }
        } else {
            self
        }
    }

    /// The position to leave after the bids of its market have come in, and why.
    pub open spec fn exit_after_bids(
        self,
        pos: OpenPosition,
        bids: MarketBids,
        current_brti: Binary64,
        now: u64,
    ) -> Option<(OpenPosition, ExitReason)> {
        let ticker = pos.ticker@;
        let price = bids.bid(pos.side);
        if self.positions.contains_key(ticker) {
            let updated = self.positions[ticker].raised(price);
            match position_tracker::exit_reason(updated, price, current_brti, now) {
                Some(reason) => Some((updated, reason)),
                None => None,
            }
        } else {
            None
        }
    }

    /// The book after the position of a ticker has been settled.
    pub open spec fn settled(self, ticker: Seq<char>, now: u64) -> Book {
        Book {
            gate: self.gate.closed(),
            positions: self.positions.remove(ticker),
            locks: self.locks.insert(
                ticker,
                ThesisLock {
                    side: self.positions[ticker].side,
                    cooldown_until_ms: (now + THESIS_COOLDOWN_MS) as u64,
                },
            ),
            ..self
        }
    }

    /// The book after the positions of a row of tickers have been settled.
    pub open spec fn all_settled(self, tickers: Seq<String>, now: u64) -> Book
        decreases tickers.len(),
    {
        if tickers.len() == 0 {
            self
        } else {
            self.all_settled(tickers.drop_last(), now).settled(tickers.last()@, now)
        }
    }
}

/// Whether an exchange's row of positions has one on a ticker.
pub open spec fn reported(open: Seq<Position>, ticker: Seq<char>) -> bool {
    exists|i: int| 0 <= i < open.len() && (#[trigger] open[i]).ticker@ == ticker
}

/// Why a position is left when the index has moved against it.
pub open spec fn reversal(pos: OpenPosition, current_brti: Binary64) -> ExitReason {
    ExitReason::BrtiReversal {
        entry_brti: pos.entry_brti,
        current_brti,
        delta: current_brti.difference(pos.entry_brti),
    }
}

/// The price of the side that an opportunity bets on.
pub open spec fn market_price(opp: TradeOpportunity) -> Binary64 {
    match opp.side {
        TradeSide::Yes => opp.market.yes_price,
        TradeSide::No => opp.market.no_price,
    }
}

/// The position that a filled order opens.
pub open spec fn opened(
    opp: TradeOpportunity,
    order: OrderResponse,
    limit_price_cents: u64,
    now: u64,
) -> OpenPosition {
    OpenPosition {
        order_id: order.order_id,
        ticker: opp.market.ticker,
        side: opp.side,
        contracts: order.filled_count,
        entry_price_cents: Binary64::whole(limit_price_cents as int),
        entry_brti: opp.signal.brti_est.value,
        opened_at_ms: now,
        closes_at_ms: opp.market.closes_at,
        peak_price_cents: Binary64::whole(limit_price_cents as int),
    }
}

/// The profit of a sale in cents: the sale price less the entry price, for each contract sold.
pub open spec fn profit(pos: OpenPosition, exit: ExitResponse) -> int {
    Binary64::whole(exit.fill_price_cents as int).difference(pos.entry_price_cents).product(
        Binary64::whole(exit.filled_count as int),
    ).rounded_integer()
}

/// The executor's state.
pub struct Executor {
    pub config: ExecutorConfig,
    pub gate: RiskGate,
    pub tracker: PositionTracker,
    pub locks: TickerMap<ThesisLock>,
    pub suppressions: TickerMap<u64>,
    pub traded: TickerMap<u64>,
}

impl View for Executor {
    type V = Book;

    open spec fn view(&self) -> Book {
        Book {
            config: self.config,
            gate: self.gate,
            positions: self.tracker@,
            locks: self.locks@,
            suppressions: self.suppressions@,
            traded: self.traded@,
        }
    }
}

impl Executor {
    /// The tables are in order, and each open position holds its ticker to its side.
    pub open spec fn wf(self) -> bool {
        &&& self.tracker.wf()
        &&& self.locks.wf()
        &&& self.suppressions.wf()
        &&& self.traded.wf()
        &&& self@.held()
    }

    /// An executor without positions or memories.
    pub fn new(config: ExecutorConfig, gate: RiskGate) -> (r: Self)
        ensures
            r.wf(),
            r@ == (Book {
                config,
                gate,
                positions: Map::empty(),
                locks: Map::empty(),
                suppressions: Map::empty(),
                traded: Map::empty(),
            }),
    {
        Executor {
            config,
            gate,
            tracker: PositionTracker::new(),
            locks: TickerMap::new(),
            suppressions: TickerMap::new(),
            traded: TickerMap::new(),
        }
    }

    /// Looks at an opportunity: one order for a ticker at a time, and within the risk limits.
    pub fn consider(&mut self, opp: &TradeOpportunity, now: u64) -> (r: Admission)
        requires
            old(self).wf(),
        ensures
            final(self).wf(),
            final(self)@ == old(self)@.after_admission(opp.market.ticker@, now),
            r == old(self)@.admission(
                opp.market.ticker@,
                opp.signal.confidence,
                opp.edge,
                now,
            ),
    {
        self.gate.maybe_reset_daily(now);
        if self.tracker.positions.contains_key(opp.market.ticker.as_str()) {
            return Admission::PositionOpen;
        }
        match self.traded.get(opp.market.ticker.as_str()) {
            Some(last_traded) => {
                if clock::elapsed_ms(now, *last_traded) < ORDER_COOLDOWN_MS {
                    return Admission::CoolingDown;
                }
            },
            None => {},
        }
        self.traded.insert(opp.market.ticker.clone(), now);
        match self.gate.check(opp) {
            Err(violation) => Admission::Refused { violation },
            Ok(()) => Admission::Admitted,
        }
    }

    /// What an opportunity comes to, with the balance that there is.
    pub fn size(&self, opp: &TradeOpportunity, now: u64, balance_cents: u64) -> (r: Sizing)
        requires
            self.wf(),
        ensures
            r == self@.sizing(*opp, now, balance_cents),
    {
        let price: Binary64 = match opp.side {
            TradeSide::Yes => opp.market.yes_price,
            TradeSide::No => opp.market.no_price,
        };
        if !(Binary64::from_u64(5).le(price) && price.le(Binary64::from_u64(95))) {
            return Sizing::PriceOutOfBand { price_cents: price };
        }
        match self.locks.get(opp.market.ticker.as_str()) {
            Some(lock) => {
                if lock.side != opp.side && now < lock.cooldown_until_ms {
                    return Sizing::ThesisLocked;
                }
            },
            None => {},
        }
        let key: String = thesis_key(opp.market.ticker.as_str(), &opp.side);
        match self.suppressions.get(key.as_str()) {
            Some(until) => {
                if now < *until {
                    return Sizing::LossSuppressed;
                }
            },
            None => {},
        }
        let odds: Binary64 = Binary64::from_u64(100).div(price);
        let bet: Binary64 = sizing::kelly_fraction(opp.edge, odds, self.config.kelly_multiplier);
        if bet.le(Binary64::from_u64(0)) {
            return Sizing::ZeroKelly;
        }
        let contracts: u64 = sizing::compute_contracts(
            bet,
            balance_cents,
            price,
            self.config.max_position_cents,
            self.config.max_contracts,
        );
        if contracts == 0 {
            return Sizing::ZeroContracts;
        }
        proof {
            laws::lemma_truncated_at_most(price, 95);
        }
        Sizing::Order { contracts, limit_price_cents: price.to_u64() + 1 }
    }

    /// Takes in the answer to an order, and says what is recorded of it.
    pub fn apply_order(
        &mut self,
        opp: &TradeOpportunity,
        order: &OrderResponse,
        limit_price_cents: u64,
        now: u64,
        recorded_ms: u64,
    ) -> (r: FillRecord)
        requires
            old(self).wf(),
            order.filled_count * limit_price_cents <= u64::MAX,
        ensures
            final(self).wf(),
            final(self)@ == old(self)@.after_order(*opp, *order, limit_price_cents, now),
            r.timestamp_ms == recorded_ms,
            r.order_id == order.order_id,
            r.ticker == opp.market.ticker,
            r.side@ == side_name(opp.side),
            r.contracts == order.filled_count,
            r.price_cents == limit_price_cents,
            r.status == order.status,
    {
        if order.filled_count > 0 {
            self.gate.record_fill(order.filled_count * limit_price_cents);
            self.tracker.add(
                OpenPosition {
                    order_id: order.order_id.clone(),
                    ticker: opp.market.ticker.clone(),
                    side: opp.side,
                    contracts: order.filled_count,
                    entry_price_cents: Binary64::from_u64(limit_price_cents),
                    entry_brti: opp.signal.brti_est.value,
                    opened_at_ms: now,
                    closes_at_ms: opp.market.closes_at,
                    peak_price_cents: Binary64::from_u64(limit_price_cents),
                },
            );
            self.locks.insert(
                opp.market.ticker.clone(),
                ThesisLock { side: opp.side, cooldown_until_ms: u64::MAX },
            );
        }
        FillRecord {
            timestamp_ms: recorded_ms,
            order_id: order.order_id.clone(),
            ticker: opp.market.ticker.clone(),
            side: side_str(&opp.side).to_owned(),
            contracts: order.filled_count,
            price_cents: limit_price_cents,
            status: order.status.clone(),
        }
    }

    /// Takes in the answer to a sale, and says what is recorded of it. A sale that filled nothing
    /// changes nothing.
    pub fn conclude_exit(
        &mut self,
        pos: &OpenPosition,
        exit: &ExitResponse,
        reason: String,
        now: u64,
    ) -> (r: Option<RealizedPnlRecord>)
        requires
            old(self).wf(),
            now + THESIS_COOLDOWN_MS <= u64::MAX,
        ensures
            final(self).wf(),
            final(self)@ == old(self)@.after_exit(*pos, *exit, now),
            match r {
                None => exit.filled_count == 0,
                Some(record) => {
                    &&& exit.filled_count > 0
                    &&& record.timestamp_ms == now
                    &&& record.ticker == pos.ticker
                    &&& record.side@ == side_name(pos.side)
                    &&& record.contracts == exit.filled_count
                    &&& record.entry_price_cents == pos.entry_price_cents.rounded().truncated()
                    &&& record.exit_price_cents == exit.fill_price_cents
                    &&& record.pnl_cents == profit(*pos, *exit)
                    &&& record.reason == reason
                },
            },
    {
        if exit.filled_count == 0 {
            return None;
        }
        self.tracker.remove(pos.ticker.as_str());
        self.gate.record_close();
        let pnl_cents: i64 = Binary64::from_u64(exit.fill_price_cents).sub(
            pos.entry_price_cents,
        ).mul(Binary64::from_u64(exit.filled_count)).round_to_i64();
        self.gate.record_pnl(pnl_cents);
        if pnl_cents < 0 {
            let loss: i64 = if pnl_cents == i64::MIN {
                i64::MAX
            } else {
                -pnl_cents
            };
            if loss >= self.config.reentry_loss_threshold_cents {
                let key: String = thesis_key(pos.ticker.as_str(), &pos.side);
                self.suppressions.insert(key, now + THESIS_COOLDOWN_MS);
            }
        }
        self.locks.insert(
            pos.ticker.clone(),
            ThesisLock { side: pos.side, cooldown_until_ms: now + THESIS_COOLDOWN_MS },
        );
        Some(
            RealizedPnlRecord {
                timestamp_ms: now,
                ticker: pos.ticker.clone(),
                side: side_str(&pos.side).to_owned(),
                contracts: exit.filled_count,
                entry_price_cents: pos.entry_price_cents.round().to_u64(),
                exit_price_cents: exit.fill_price_cents,
                pnl_cents,
                reason,
            },
        )
    }

    /// The open positions.
    pub fn open_positions(&self) -> (r: Vec<OpenPosition>)
        requires
            self.wf(),
        ensures
            r@.len() == self@.positions.len(),
            forall|i: int|
                0 <= i < r@.len() ==> self@.positions.contains_key((#[trigger] r@[i]).ticker@)
                    && self@.positions[r@[i].ticker@] == r@[i],
            forall|i: int, j: int|
                0 <= i < j < r@.len() ==> (#[trigger] r@[i]).ticker@ != (#[trigger] r@[j]).ticker@,
            forall|k: Seq<char>| #[trigger]
                self@.positions.contains_key(k) ==> exists|i: int|
                    0 <= i < r@.len() && #[trigger] r@[i] == self@.positions[k],
    {
        let entries: &Vec<(String, OpenPosition)> = &self.tracker.positions.entries;
        proof {
            self.tracker.positions.lemma_entries();
        }
        let mut r: Vec<OpenPosition> = Vec::new();
        let mut i: usize = 0;
        while i < entries.len()
            invariant
                i <= entries.len(),
                entries@ == self.tracker.positions.entries@,
                r@.len() == i,
                forall|j: int| 0 <= j < i ==> #[trigger] r@[j] == entries@[j].1,
            decreases entries.len() - i,
        {
            r.push(entries[i].1.clone());
            i = i + 1;
        }
        proof {
            assert forall|j: int| 0 <= j < r@.len() implies self@.positions.contains_key(
                (#[trigger] r@[j]).ticker@,
            ) && self@.positions[r@[j].ticker@] == r@[j] && r@[j].ticker@ == entries@[j].0@ by {
                assert(self.tracker@.contains_key(entries@[j].0@));
            }
            assert forall|a: int, b: int| 0 <= a < b < r@.len() implies (
            #[trigger] r@[a]).ticker@ != (#[trigger] r@[b]).ticker@ by {
                assert(entries@[a].0@ != entries@[b].0@);
            }
            assert forall|k: Seq<char>| #[trigger] self@.positions.contains_key(k) implies exists|
                j: int,
            |
                0 <= j < r@.len() && #[trigger] r@[j] == self@.positions[k] by {
                let j = choose|j: int| 0 <= j < entries@.len() && (#[trigger] entries@[j]).0@ == k;
                assert(r@[j] == self@.positions[k]);
            }
        }
        r
    }

    /// The positions that the index has moved against, and how far.
    pub fn reversals(&self, current_brti: Binary64) -> (r: Vec<(OpenPosition, ExitReason)>)
        requires
            self.wf(),
        ensures
            forall|i: int|
                0 <= i < r@.len() ==> {
                    let pos = (#[trigger] r@[i]).0;
                    &&& self@.positions.contains_key(pos.ticker@)
                    &&& self@.positions[pos.ticker@] == pos
                    &&& position_tracker::reversed(
                        pos.side,
                        current_brti.difference(pos.entry_brti),
                    )
                    &&& r@[i].1 == reversal(pos, current_brti)
                },
            forall|i: int, j: int|
                0 <= i < j < r@.len() ==> (#[trigger] r@[i]).0.ticker@ != (
                #[trigger] r@[j]).0.ticker@,
            forall|k: Seq<char>| #[trigger]
                self@.positions.contains_key(k) && position_tracker::reversed(
                    self@.positions[k].side,
                    current_brti.difference(self@.positions[k].entry_brti),
                ) ==> exists|i: int| 0 <= i < r@.len() && (#[trigger] r@[i]).0
                    == self@.positions[k],
    {
        let all: Vec<OpenPosition> = self.open_positions();
        let mut r: Vec<(OpenPosition, ExitReason)> = Vec::new();
        let mut i: usize = 0;
        while i < all.len()
            invariant
                i <= all.len(),
                forall|a: int, b: int|
                    0 <= a < b < all@.len() ==> (#[trigger] all@[a]).ticker@ != (
                    #[trigger] all@[b]).ticker@,
                forall|j: int|
                    0 <= j < r@.len() ==> {
                        let pos = (#[trigger] r@[j]).0;
                        &&& exists|a: int| 0 <= a < i && #[trigger] all@[a] == pos
                        &&& position_tracker::reversed(
                            pos.side,
                            current_brti.difference(pos.entry_brti),
                        )
                        &&& r@[j].1 == reversal(pos, current_brti)
                    },
                forall|a: int, b: int|
                    0 <= a < b < r@.len() ==> (#[trigger] r@[a]).0.ticker@ != (
                    #[trigger] r@[b]).0.ticker@,
                forall|a: int|
                    0 <= a < i && position_tracker::reversed(
                        (#[trigger] all@[a]).side,
                        current_brti.difference(all@[a].entry_brti),
                    ) ==> exists|j: int| 0 <= j < r@.len() && (#[trigger] r@[j]).0 == all@[a],
            decreases all.len() - i,
        {
            let delta: Binary64 = current_brti.sub(all[i].entry_brti);
            let ghost before = r@;
            if position_tracker::is_reversed(all[i].side, delta) {
                r.push(
                    (
                        all[i].clone(),
                        ExitReason::BrtiReversal {
                            entry_brti: all[i].entry_brti,
                            current_brti,
                            delta,
                        },
                    ),
                );
                proof {
                    assert(r@[r@.len() - 1].0 == all@[i as int]);
                    assert forall|a: int, b: int| 0 <= a < b < r@.len() implies (
                    #[trigger] r@[a]).0.ticker@ != (#[trigger] r@[b]).0.ticker@ by {
                        assert(r@[a] == before[a]);
                        if b == r@.len() - 1 {
                            let c = choose|c: int|
                                0 <= c < i && #[trigger] all@[c] == before[a].0;
                            assert(all@[c].ticker@ != all@[i as int].ticker@);
                        } else {
                            assert(r@[b] == before[b]);
                        }
                    }
                }
            }
            proof {
                assert forall|j: int| 0 <= j < before.len() implies r@[j] == #[trigger] before[j] by {
                }
                assert forall|a: int|
                    0 <= a < i + 1 && position_tracker::reversed(
                        (#[trigger] all@[a]).side,
                        current_brti.difference(all@[a].entry_brti),
                    ) implies exists|j: int|
                    0 <= j < r@.len() && (#[trigger] r@[j]).0 == all@[a] by {
                    if a < i {
                        let j = choose|j: int|
                            0 <= j < before.len() && (#[trigger] before[j]).0 == all@[a];
                        assert(r@[j].0 == all@[a]);
                    } else {
                        assert(r@[r@.len() - 1].0 == all@[a]);
                    }
                }
            }
            i = i + 1;
        }
        proof {
            assert forall|k: Seq<char>| #[trigger]
                self@.positions.contains_key(k) && position_tracker::reversed(
                    self@.positions[k].side,
                    current_brti.difference(self@.positions[k].entry_brti),
                ) implies exists|j: int|
                0 <= j < r@.len() && (#[trigger] r@[j]).0 == self@.positions[k] by {
                let a = choose|a: int|
                    0 <= a < all@.len() && #[trigger] all@[a] == self@.positions[k];
                assert(position_tracker::reversed(
                    all@[a].side,
                    current_brti.difference(all@[a].entry_brti),
                ));
            }
        }
        r
    }

    /// Takes the bids of a position's market into its peak, and says whether to leave it.
    pub fn observe_bids(
        &mut self,
        pos: &OpenPosition,
        bids: &MarketBids,
        current_brti: Binary64,
        now: u64,
    ) -> (r: Option<(OpenPosition, ExitReason)>)
        requires
            old(self).wf(),
        ensures
            final(self).wf(),
            final(self)@ == old(self)@.after_bids(*pos, *bids),
            r == old(self)@.exit_after_bids(*pos, *bids, current_brti, now),
    {
        let price: Binary64 = match pos.side {
            TradeSide::Yes => bids.yes_bid_cents,
            TradeSide::No => bids.no_bid_cents,
        };
        let updated: OpenPosition = match self.tracker.update_peak(pos.ticker.as_str(), price) {
            Some(updated) => updated,
            None => {
                return None;
            },
        };
        match position_tracker::check_exit(&updated, price, current_brti, now) {
            Some(reason) => Some((updated, reason)),
            None => None,
        }
    }

    /// The tickers of the positions that the exchange no longer reports.
    fn unreported(&self, open: &Vec<Position>) -> (r: Vec<String>)
        requires
            self.wf(),
        ensures
            forall|i: int|
                0 <= i < r@.len() ==> self@.positions.contains_key((#[trigger] r@[i])@)
                    && !reported(open@, r@[i]@),
            forall|i: int, j: int|
                0 <= i < j < r@.len() ==> (#[trigger] r@[i])@ != (#[trigger] r@[j])@,
            forall|k: Seq<char>| #[trigger]
                self@.positions.contains_key(k) && !reported(open@, k) ==> exists|i: int|
                    0 <= i < r@.len() && (#[trigger] r@[i])@ == k,
    {
        let kept: Vec<OpenPosition> = self.open_positions();
        let mut r: Vec<String> = Vec::new();
        let mut i: usize = 0;
        while i < kept.len()
            invariant
                i <= kept.len(),
                forall|a: int, b: int|
                    0 <= a < b < kept@.len() ==> (#[trigger] kept@[a]).ticker@ != (
                    #[trigger] kept@[b]).ticker@,
                forall|j: int|
                    0 <= j < r@.len() ==> (exists|a: int|
                        0 <= a < i && (#[trigger] kept@[a]).ticker@ == (#[trigger] r@[j])@)
                        && !reported(open@, r@[j]@),
                forall|a: int, b: int|
                    0 <= a < b < r@.len() ==> (#[trigger] r@[a])@ != (#[trigger] r@[b])@,
                forall|a: int|
                    0 <= a < i && !reported(open@, (#[trigger] kept@[a]).ticker@) ==> exists|
                        j: int,
                    |
                        0 <= j < r@.len() && (#[trigger] r@[j])@ == kept@[a].ticker@,
            decreases kept.len() - i,
        {
            let ghost row = r@;
            if !has_position(open, kept[i].ticker.as_str()) {
                r.push(kept[i].ticker.clone());
                proof {
                    assert(r@[r@.len() - 1]@ == kept@[i as int].ticker@);
                    assert forall|a: int, b: int| 0 <= a < b < r@.len() implies (
                    #[trigger] r@[a])@ != (#[trigger] r@[b])@ by {
                        assert(r@[a] == row[a]);
                        if b == r@.len() - 1 {
                            let c = choose|c: int|
                                0 <= c < i && (#[trigger] kept@[c]).ticker@ == row[a]@;
                            assert(kept@[c].ticker@ != kept@[i as int].ticker@);
                        } else {
                            assert(r@[b] == row[b]);
                        }
                    }
                }
            }
            proof {
                assert forall|j: int| 0 <= j < r@.len() implies (exists|a: int|
                    0 <= a < i + 1 && (#[trigger] kept@[a]).ticker@ == (#[trigger] r@[j])@)
                    && !reported(open@, r@[j]@) by {
                    if j < row.len() {
                        assert(r@[j] == row[j]);
                        let a = choose|a: int|
                            0 <= a < i && (#[trigger] kept@[a]).ticker@ == row[j]@;
                        assert(kept@[a].ticker@ == r@[j]@);
                    } else {
                        assert(kept@[i as int].ticker@ == r@[j]@);
                    }
                }
                assert forall|a: int|
                    0 <= a < i + 1 && !reported(
                        open@,
                        (#[trigger] kept@[a]).ticker@,
                    ) implies exists|j: int|
                    0 <= j < r@.len() && (#[trigger] r@[j])@ == kept@[a].ticker@ by {
                    if a < i {
                        let j = choose|j: int|
                            0 <= j < row.len() && (#[trigger] row[j])@ == kept@[a].ticker@;
                        assert(r@[j] == row[j]);
                    } else {
                        assert(r@[r@.len() - 1]@ == kept@[a].ticker@);
                    }
                }
            }
            i = i + 1;
        }
        proof {
            assert forall|k: Seq<char>| #[trigger]
                self@.positions.contains_key(k) && !reported(open@, k) implies exists|j: int|
                0 <= j < r@.len() && (#[trigger] r@[j])@ == k by {
                let a = choose|a: int|
                    0 <= a < kept@.len() && #[trigger] kept@[a] == self@.positions[k];
                assert(!reported(open@, kept@[a].ticker@));
            }
        }
        r
    }

    /// Drops the position of a ticker that was settled.
    fn settle_one(&mut self, ticker: &String, now: u64)
        requires
            old(self).wf(),
            old(self)@.positions.contains_key(ticker@),
            now + THESIS_COOLDOWN_MS <= u64::MAX,
        ensures
            final(self).wf(),
            final(self)@ == old(self)@.settled(ticker@, now),
    {
        match self.tracker.remove(ticker.as_str()) {
            Some(pos) => {
                self.gate.record_close();
                self.locks.insert(
                    ticker.clone(),
                    ThesisLock { side: pos.side, cooldown_until_ms: now + THESIS_COOLDOWN_MS },
                );
            },
            None => {},
        }
    }

    /// Drops the positions that the exchange no longer reports, and returns their tickers.
    pub fn settle(&mut self, open: &Vec<Position>, now: u64) -> (r: Vec<String>)
        requires
            old(self).wf(),
            now + THESIS_COOLDOWN_MS <= u64::MAX,
        ensures
            final(self).wf(),
            final(self)@ == old(self)@.all_settled(r@, now),
            forall|i: int|
                0 <= i < r@.len() ==> old(self)@.positions.contains_key((#[trigger] r@[i])@)
                    && !reported(open@, r@[i]@),
            forall|i: int, j: int|
                0 <= i < j < r@.len() ==> (#[trigger] r@[i])@ != (#[trigger] r@[j])@,
            forall|k: Seq<char>| #[trigger]
                old(self)@.positions.contains_key(k) && !reported(open@, k) ==> exists|i: int|
                    0 <= i < r@.len() && (#[trigger] r@[i])@ == k,
    {
        let r: Vec<String> = self.unreported(open);
        let ghost before = self@;
        let mut i: usize = 0;
        proof {
            assert(r@.take(0) == Seq::<String>::empty());
        }
        while i < r.len()
            invariant
                i <= r.len(),
                now + THESIS_COOLDOWN_MS <= u64::MAX,
                self.wf(),
                self@ == before.all_settled(r@.take(i as int), now),
                forall|a: int, b: int|
                    0 <= a < b < r@.len() ==> (#[trigger] r@[a])@ != (#[trigger] r@[b])@,
                forall|a: int|
                    i <= a < r@.len() ==> self@.positions.contains_key((#[trigger] r@[a])@),
            decreases r.len() - i,
        {
            proof {
                assert(r@.take(i + 1).drop_last() == r@.take(i as int));
                assert(self@.positions.contains_key(r@[i as int]@));
            }
            self.settle_one(&r[i], now);
            i = i + 1;
        }
        proof {
            assert(r@.take(i as int) == r@);
        }
        r
    }
}

/// Whether an exchange's row of positions has one on a ticker.
pub fn has_position(open: &Vec<Position>, ticker: &str) -> (r: bool)
    ensures
        r == reported(open@, ticker@),
{
    let mut i: usize = 0;
    while i < open.len()
        invariant
            i <= open.len(),
            forall|j: int| 0 <= j < i ==> (#[trigger] open@[j]).ticker@ != ticker@,
        decreases open.len() - i,
    {
        if text::same_text(open[i].ticker.as_str(), ticker) {
            return true;
        }
        i = i + 1;
    }
    false
}

} // verus!
