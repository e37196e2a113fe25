//! The values that pass between the stages: trades, index estimates, markets, signals and trade
//! opportunities.

use crate::numeric::binary64::Binary64;
use vstd::prelude::*;

verus! {

/// The exchanges that the index is made of.
#[derive(Clone, Copy, Debug, PartialEq, Eq, Hash, Structural)]
pub enum Exchange {
    Coinbase,
    Kraken,
    Bitstamp,
    Gemini,
    ItBit,
    Lmax,
    Bullish,
    CryptoCom,
}

/// One trade on an exchange.
#[derive(Clone, Copy, Debug, PartialEq, Eq, Structural)]
pub struct Trade {
    pub exchange: Exchange,
    pub price: Binary64,
    pub size: Binary64,
    /// Unix milliseconds that the exchange reports.
    pub exchange_ts: u64,
    /// Unix milliseconds at receipt.
    pub local_ts: u64,
}

/// How the index is reconstructed.
#[derive(Clone, Copy, Debug, PartialEq, Eq, Structural)]
pub struct ReconstructorConfig {
    /// Length of the rolling window of trades, in seconds.
    pub window_secs: u64,
    /// How many live feeds an estimate needs.
    pub min_exchanges: u8,
    /// A feed that is silent for longer than this many milliseconds is left out.
    pub staleness_threshold_ms: u64,
}

/// An estimate of the index.
#[derive(Clone, Copy, Debug, PartialEq, Eq, Structural)]
pub struct BrtiEstimate {
    pub value: Binary64,
    pub timestamp: u64,
    /// How many feeds contributed.
    pub exchange_count: u8,
    /// Between zero and one; lower where feeds are missing.
    pub confidence: Binary64,
}

/// Where the momentum points.
#[derive(Clone, Copy, Debug, PartialEq, Eq, Structural)]
pub enum Direction {
    Up,
    Down,
    Neutral,
}

/// What an opportunity rests on.
#[derive(Clone, Copy, Debug, PartialEq, Eq, Structural)]
pub struct Signal {
    pub direction: Direction,
    /// The probability that the bet wins, as the model sees it.
    pub confidence: Binary64,
    pub brti_est: BrtiEstimate,
    /// Unix milliseconds.
    pub generated_at: u64,
}

/// A market on the index, open for trading.
#[derive(Debug)]
pub struct KalshiMarket {
    pub ticker: String,
    /// Cents, from 0 to 100.
    pub yes_price: Binary64,
    /// Cents, from 0 to 100.
    pub no_price: Binary64,
    /// The index value that the market resolves around.
    pub strike: Binary64,
    /// Unix milliseconds.
    pub open_time: u64,
    /// Unix milliseconds.
    pub closes_at: u64,
    /// Whether the prices were computed, there being no bid in the orderbook.
    pub synthetic: bool,
}

impl Clone for KalshiMarket {
    fn clone(&self) -> (r: Self)
        ensures
            r == *self,
    {
        KalshiMarket {
            ticker: self.ticker.clone(),
            yes_price: self.yes_price,
            no_price: self.no_price,
            strike: self.strike,
            open_time: self.open_time,
            closes_at: self.closes_at,
            synthetic: self.synthetic,
        }
    }
}

/// What a contract pays out on.
#[derive(Clone, Copy, Debug, PartialEq, Eq, Structural)]
pub enum TradeSide {
    Yes,
    No,
}

/// A bet whose edge over the market clears the minimum.
#[derive(Debug)]
pub struct TradeOpportunity {
    pub market: KalshiMarket,
    pub signal: Signal,
    pub side: TradeSide,
    /// Our probability less the one that the market implies.
    pub edge: Binary64,
    /// Suggested position size as a fraction of the bankroll.
    pub kelly_fraction: Binary64,
}

impl Clone for TradeOpportunity {
    fn clone(&self) -> (r: Self)
        ensures
            r == *self,
    {
        TradeOpportunity {
            market: self.market.clone(),
            signal: self.signal,
            side: self.side,
            edge: self.edge,
            kelly_fraction: self.kelly_fraction,
        }
    }
}

} // verus!
