//! The limits that an opportunity has to pass before money is put on it.

use crate::clock;
use crate::numeric::binary64::Binary64;
use crate::text;
use crate::types::TradeOpportunity;
use vstd::prelude::*;

verus! {

/// A day, in milliseconds.
pub const DAY_MS: u64 = 86_400_000;

/// The limits that every opportunity is held to.
#[derive(Clone, Copy, Debug, PartialEq, Eq, Structural)]
pub struct RiskConfig {
    /// The most that one position may cost, in cents.
    pub max_position_cents: u64,
    /// Trading halts where the loss of a day has reached this many cents.
    pub max_daily_loss_cents: u64,
    /// The least confidence of a signal.
    pub min_signal_confidence: Binary64,
    /// The least edge over the probability that the market implies.
    pub min_edge: Binary64,
    /// The most positions that may be open at a time.
    pub max_open_positions: u8,
}

/// What a setting says: the number that its text holds, or a default where there is no text or
/// it holds none.
pub open spec fn setting_value(value: Option<&str>, default: u64) -> u64 {
    match value {
        Some(s) => match text::unsigned_text(s@) {
            Some(n) => n,
            None => default,
        },
        None => default,
    }
}

/// Reads a setting.
pub fn setting(value: Option<&str>, default: u64) -> (r: u64)
    ensures
        r == setting_value(value, default),
{
    match value {
        Some(s) => match text::parse_u64(s) {
            Some(n) => n,
            None => default,
        },
        None => default,
    }
}

impl RiskConfig {
    /// The limits, from the texts of the environment's `MAX_POSITION_SIZE_CENTS` and
    /// `MAX_DAILY_LOSS_CENTS`.
    pub fn from_env(
        max_position_size_cents: Option<&str>,
        max_daily_loss_cents: Option<&str>,
    ) -> (r: Self)
        ensures
            r == (RiskConfig {
                max_position_cents: setting_value(max_position_size_cents, 500),
                max_daily_loss_cents: setting_value(max_daily_loss_cents, 5000),
                min_signal_confidence: Binary64::ratio(45, 100),
                min_edge: Binary64::ratio(8, 100),
                max_open_positions: 5,
            }),
    {
        RiskConfig {
            max_position_cents: setting(max_position_size_cents, 500),
            max_daily_loss_cents: setting(max_daily_loss_cents, 5000),
            min_signal_confidence: Binary64::from_ratio(45, 100),
            min_edge: Binary64::from_ratio(8, 100),
            max_open_positions: 5,
        }
    }
}

/// The running state that the limits are held against.
#[derive(Clone, Copy, Debug, PartialEq, Eq, Structural)]
pub struct RiskGate {
    pub config: RiskConfig,
    /// Profit of the day in cents; negative for a loss.
    pub daily_loss_cents: i64,
    pub open_positions: u8,
    /// Unix milliseconds at which the day's profit was last set to zero.
    pub last_reset: u64,
}

/// The limit that an opportunity failed.
#[derive(Clone, Copy, Debug, PartialEq, Eq, Structural)]
pub enum RiskViolation {
    ConfidenceTooLow { actual: Binary64, required: Binary64 },
    EdgeTooSmall { actual: Binary64, required: Binary64 },
    TooManyOpenPositions { current: u8, max: u8 },
    DailyLossLimitHit { loss_cents: i64, limit_cents: u64 },
}

/// A whole number held within the range of `i64`.
pub open spec fn saturated(n: int) -> int {
    if n > i64::MAX {
        i64::MAX as int
    } else if n < i64::MIN {
        i64::MIN as int
    } else {
        n
    }
}

impl RiskGate {
    /// Whether the loss of the day has reached its limit.
    pub open spec fn halted(self) -> bool {
        self.daily_loss_cents <= -self.config.max_daily_loss_cents
    }

    /// The first limit that an opportunity fails, if any.
    pub open spec fn violation(self, confidence: Binary64, edge: Binary64) -> Option<
        RiskViolation,
    > {
        if confidence.less(self.config.min_signal_confidence) {
            Some(
                RiskViolation::ConfidenceTooLow {
                    actual: confidence,
                    required: self.config.min_signal_confidence,
                },
            )
        } else if edge.less(self.config.min_edge) {
            Some(RiskViolation::EdgeTooSmall { actual: edge, required: self.config.min_edge })
        } else if self.open_positions >= self.config.max_open_positions {
            Some(
                RiskViolation::TooManyOpenPositions {
                    current: self.open_positions,
                    max: self.config.max_open_positions,
                },
            )
        } else if self.halted() {
            Some(
                RiskViolation::DailyLossLimitHit {
                    loss_cents: self.daily_loss_cents,
                    limit_cents: self.config.max_daily_loss_cents,
                },
            )
        } else {
            None
        }
    }

    /// The counts with one more position open.
    pub open spec fn filled(self) -> RiskGate {
        RiskGate {
            open_positions: if self.open_positions < u8::MAX {
                (self.open_positions + 1) as u8
            } else {
                self.open_positions
            },
            ..self
        }
    }

    /// The counts with one position closed.
    pub open spec fn closed(self) -> RiskGate {
        RiskGate {
            open_positions: if self.open_positions > 0 {
                (self.open_positions - 1) as u8
            } else {
                self.open_positions
            },
            ..self
        }
    }

    /// The counts with a profit, or a loss, booked.
    pub open spec fn booked(self, pnl_cents: int) -> RiskGate {
        RiskGate { daily_loss_cents: saturated(self.daily_loss_cents + pnl_cents) as i64, ..self }
    }

    /// The counts at a given time: on a later day, counted in UTC, the day's profit is zero again.
    pub open spec fn on_day_of(self, now_ms: u64) -> RiskGate {
        if now_ms / DAY_MS > self.last_reset / DAY_MS {
            RiskGate { daily_loss_cents: 0, last_reset: now_ms, ..self }
        } else {
            self
        }
    }

    /// A gate without positions or profit, whose day is that of a given time.
    pub fn starting_at(config: RiskConfig, now_ms: u64) -> (r: Self)
        ensures
            r == (RiskGate { config, daily_loss_cents: 0, open_positions: 0, last_reset: now_ms }),
    {
        RiskGate { config, daily_loss_cents: 0, open_positions: 0, last_reset: now_ms }
    }

    /// A gate without positions or profit, as of now.
    pub fn new(config: RiskConfig) -> (r: Self)
        ensures
            r.config == config,
            r.daily_loss_cents == 0,
            r.open_positions == 0,
            exists|now: std::time::SystemTime| r.last_reset == clock::clock_value(
                    #[trigger] clock::reading_millis(now),
                ),
    {
        RiskGate::starting_at(config, clock::local_ts_ms())
    }

    /// Whether an opportunity passes all limits; if not, the first that it fails.
    pub fn check(&self, opp: &TradeOpportunity) -> (r: Result<(), RiskViolation>)
        ensures
            r == (match self.violation(opp.signal.confidence, opp.edge) {
                Some(v) => Err::<(), RiskViolation>(v),
                None => Ok(()),
            }),
    {
        if opp.signal.confidence.lt(self.config.min_signal_confidence) {
            return Err(
                RiskViolation::ConfidenceTooLow {
                    actual: opp.signal.confidence,
                    required: self.config.min_signal_confidence,
                },
            );
        }
        if opp.edge.lt(self.config.min_edge) {
            return Err(
                RiskViolation::EdgeTooSmall { actual: opp.edge, required: self.config.min_edge },
            );
        }
        if self.open_positions >= self.config.max_open_positions {
            return Err(
                RiskViolation::TooManyOpenPositions {
                    current: self.open_positions,
                    max: self.config.max_open_positions,
                },
            );
        }
        if self.daily_loss_cents as i128 <= -(self.config.max_daily_loss_cents as i128) {
            return Err(
                RiskViolation::DailyLossLimitHit {
                    loss_cents: self.daily_loss_cents,
                    limit_cents: self.config.max_daily_loss_cents,
                },
            );
        }
        Ok(())
    }

    /// Counts a position that was opened, whatever it cost.
    pub fn record_fill(&mut self, _cost_cents: u64)
        ensures
            *final(self) == old(self).filled(),
    {
        self.open_positions = self.open_positions.saturating_add(1);
    }

    /// Counts a position that was closed.
    pub fn record_close(&mut self)
        ensures
            *final(self) == old(self).closed(),
    {
        self.open_positions = self.open_positions.saturating_sub(1);
    }

    /// Books a profit, or a loss where it is negative.
    pub fn record_pnl(&mut self, pnl_cents: i64)
        ensures
            *final(self) == old(self).booked(pnl_cents as int),
    {
        let total: i128 = self.daily_loss_cents as i128 + pnl_cents as i128;
        self.daily_loss_cents = if total > i64::MAX as i128 {
            i64::MAX
        } else if total < i64::MIN as i128 {
            i64::MIN
        } else {
            total as i64
        };
    }

    /// Begins a new day where one has begun since the last.
    pub fn maybe_reset_daily(&mut self, now_ms: u64)
        ensures
            *final(self) == old(self).on_day_of(now_ms),
    {
        let last_day: u64 = self.last_reset / DAY_MS;
        let today: u64 = now_ms / DAY_MS;
        if today > last_day {
            self.daily_loss_cents = 0;
            self.last_reset = now_ms;
        }
    }
}

/// The name of a violation.
pub open spec fn violation_name(v: RiskViolation) -> Seq<char> {
    match v {
        RiskViolation::ConfidenceTooLow { .. } => "ConfidenceTooLow"@,
        RiskViolation::EdgeTooSmall { .. } => "EdgeTooSmall"@,
        RiskViolation::TooManyOpenPositions { .. } => "TooManyOpenPositions"@,
        RiskViolation::DailyLossLimitHit { .. } => "DailyLossLimitHit"@,
    }
}

/// The name of a violation.
pub fn violation_type_str(v: &RiskViolation) -> (r: &'static str)
    ensures
        r@ == violation_name(*v),
{
    match v {
        RiskViolation::ConfidenceTooLow { .. } => "ConfidenceTooLow",
        RiskViolation::EdgeTooSmall { .. } => "EdgeTooSmall",
        RiskViolation::TooManyOpenPositions { .. } => "TooManyOpenPositions",
        RiskViolation::DailyLossLimitHit { .. } => "DailyLossLimitHit",
    }
}

/// An opportunity passes only while each limit holds, whichever is checked first.
pub proof fn lemma_passes_only_within_limits(gate: RiskGate, confidence: Binary64, edge: Binary64)
    ensures
        gate.violation(confidence, edge) is None <==> {
            &&& !confidence.less(gate.config.min_signal_confidence)
            &&& !edge.less(gate.config.min_edge)
            &&& gate.open_positions < gate.config.max_open_positions
            &&& gate.daily_loss_cents > -gate.config.max_daily_loss_cents
        },
{
}

/// Closing a position undoes opening it, as long as the count has room.
pub proof fn lemma_close_undoes_fill(gate: RiskGate)
    requires
        gate.open_positions < u8::MAX,
    ensures
        gate.filled().closed() == gate,
{
}

/// Once the loss limit is hit nothing passes for the rest of the day, and the next day begins
/// without a loss.
pub proof fn lemma_loss_halts_the_day(
    gate: RiskGate,
    now_ms: u64,
    confidence: Binary64,
    edge: Binary64,
)
    requires
        gate.halted(),
    ensures
        now_ms / DAY_MS <= gate.last_reset / DAY_MS ==> gate.on_day_of(now_ms).violation(
            confidence,
            edge,
        ) is Some,
        now_ms / DAY_MS > gate.last_reset / DAY_MS ==> gate.on_day_of(now_ms).daily_loss_cents == 0
            && (gate.config.max_daily_loss_cents > 0 ==> !gate.on_day_of(now_ms).halted()),
{
}

} // verus!
