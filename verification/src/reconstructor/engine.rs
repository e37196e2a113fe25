//! The estimate over all exchanges.

use crate::numeric::binary64::Binary64;
use crate::reconstructor::window;
use crate::reconstructor::window::TradeWindow;
use crate::types::{BrtiEstimate, Exchange, ReconstructorConfig, Trade};
use vstd::prelude::*;

verus! {

/// How many exchanges there are.
pub const EXCHANGES: usize = 8;

/// The place of an exchange's window.
pub open spec fn place(exchange: Exchange) -> int {
    match exchange {
        Exchange::Coinbase => 0,
        Exchange::Kraken => 1,
        Exchange::Bitstamp => 2,
        Exchange::Gemini => 3,
        Exchange::ItBit => 4,
        Exchange::Lmax => 5,
        Exchange::Bullish => 6,
        Exchange::CryptoCom => 7,
    }
}

fn place_of(exchange: Exchange) -> (r: usize)
    ensures
        r == place(exchange),
        r < EXCHANGES,
{
    match exchange {
        Exchange::Coinbase => 0,
        Exchange::Kraken => 1,
        Exchange::Bitstamp => 2,
        Exchange::Gemini => 3,
        Exchange::ItBit => 4,
        Exchange::Lmax => 5,
        Exchange::Bullish => 6,
        Exchange::CryptoCom => 7,
    }
}

/// The median prices of the windows that are not stale.
pub open spec fn live_prices(windows: Seq<Seq<Trade>>, now_ms: int, threshold_ms: int) -> Seq<
    Binary64,
>
    decreases windows.len(),
{
    if windows.len() == 0 {
        Seq::empty()
    } else {
        let rest = live_prices(windows.drop_last(), now_ms, threshold_ms);
        match window::median_price(windows.last()) {
            Some(price) => if window::stale(windows.last(), now_ms, threshold_ms) {
                rest
            } else {
                rest.push(price)
            },
            None => rest,
        }
    }
}

/// The sum of a row of numbers, added up from the left.
pub open spec fn total(s: Seq<Binary64>) -> Binary64
    decreases s.len(),
{
    if s.len() == 0 {
        Binary64::make(true, 0)
    } else {
        total(s.drop_last()).sum(s.last())
    }
}

/// The mean of a row of prices, in whole cents.
pub open spec fn mean_in_cents(prices: Seq<Binary64>) -> Binary64 {
    total(prices).quotient(Binary64::whole(prices.len() as int)).product(
        Binary64::whole(100),
    ).rounded().quotient(Binary64::whole(100))
}

/// The estimate from a row of windows: none where fewer windows are live than are needed.
pub open spec fn estimate(
    windows: Seq<Seq<Trade>>,
    config: ReconstructorConfig,
    now_ms: u64,
) -> Option<BrtiEstimate> {
    let live = live_prices(windows, now_ms as int, config.staleness_threshold_ms as int);
    if live.len() < config.min_exchanges {
        None
    } else {
        Some(
            BrtiEstimate {
                value: mean_in_cents(live),
                timestamp: now_ms,
                exchange_count: live.len() as u8,
                confidence: Binary64::whole(live.len() as int).quotient(Binary64::whole(8)),
            },
        )
    }
}

/// There are at most as many live prices as windows.
pub proof fn lemma_live_len(windows: Seq<Seq<Trade>>, now_ms: int, threshold_ms: int)
    ensures
        live_prices(windows, now_ms, threshold_ms).len() <= windows.len(),
    decreases windows.len(),
{
    if windows.len() > 0 {
        lemma_live_len(windows.drop_last(), now_ms, threshold_ms);
    }
}

/// One window for each exchange, and the settings.
pub struct ReconstructorEngine {
    windows: Vec<TradeWindow>,
    config: ReconstructorConfig,
}

impl View for ReconstructorEngine {
    type V = Seq<Seq<Trade>>;

    closed spec fn view(&self) -> Seq<Seq<Trade>> {
        Seq::new(self.windows@.len(), |i: int| self.windows@[i]@)
    }
}

impl ReconstructorEngine {
    /// The settings.
    pub closed spec fn config(self) -> ReconstructorConfig {
        self.config
    }

    /// There is a window for each exchange, and its length fits in milliseconds.
    pub open spec fn wf(self) -> bool {
        &&& self@.len() == EXCHANGES
        &&& self.config().window_secs * 1000 <= u64::MAX
    }

    /// An engine with an empty window for each exchange.
    pub fn new(config: ReconstructorConfig) -> (r: Self)
        requires
            config.window_secs * 1000 <= u64::MAX,
        ensures
            r.wf(),
            r.config() == config,
            r@ == Seq::new(EXCHANGES as nat, |i: int| Seq::<Trade>::empty()),
    {
        let mut windows: Vec<TradeWindow> = Vec::new();
        let mut i: usize = 0;
        while i < EXCHANGES
            invariant
                i <= EXCHANGES,
                windows@.len() == i,
                forall|j: int| 0 <= j < i ==> (#[trigger] windows@[j])@ == Seq::<Trade>::empty(),
            decreases EXCHANGES - i,
        {
            windows.push(TradeWindow::new());
            i = i + 1;
        }
        ReconstructorEngine { windows, config }
    }

    /// Takes a trade into the window of its exchange, and estimates anew.
    pub fn ingest(&mut self, trade: Trade) -> (r: Option<BrtiEstimate>)
        requires
            old(self).wf(),
        ensures
            final(self).wf(),
            final(self).config() == old(self).config(),
            final(self)@ == old(self)@.update(
                place(trade.exchange),
                window::pushed(
                    old(self)@[place(trade.exchange)],
                    trade,
                    old(self).config().window_secs as int,
                ),
            ),
            r == estimate(final(self)@, old(self).config(), trade.local_ts),
    {
        let ghost before = self@;
        let i: usize = place_of(trade.exchange);
        self.windows[i].push(trade, self.config.window_secs);
        proof {
            assert(self@ =~= before.update(
                place(trade.exchange),
                window::pushed(
                    before[place(trade.exchange)],
                    trade,
                    self.config.window_secs as int,
                ),
            ));
        }
        self.publish(trade.local_ts)
    }

    /// The estimate from the windows that are not stale.
    fn publish(&self, now_ms: u64) -> (r: Option<BrtiEstimate>)
        requires
            self.wf(),
        ensures
            r == estimate(self@, self.config(), now_ms),
    {
        let mut live: Vec<Binary64> = Vec::new();
        let mut i: usize = 0;
        let threshold_ms: u64 = self.config.staleness_threshold_ms;
        proof {
            assert(self@.take(0) == Seq::<Seq<Trade>>::empty());
        }
        while i < self.windows.len()
            invariant
                i <= self.windows@.len(),
                threshold_ms == self.config.staleness_threshold_ms,
                live@ == live_prices(self@.take(i as int), now_ms as int, threshold_ms as int),
            decreases self.windows.len() - i,
        {
            proof {
                assert(self@.take(i + 1).drop_last() == self@.take(i as int));
                assert(self@.take(i + 1).last() == self.windows@[i as int]@);
            }
            if !self.windows[i].is_stale(now_ms, threshold_ms) {
                match self.windows[i].vwmp() {
                    Some(price) => {
                        live.push(price);
                    },
                    None => {},
                }
            }
            i = i + 1;
        }
        proof {
            assert(self@.take(i as int) == self@);
            lemma_live_len(self@, now_ms as int, threshold_ms as int);
        }
        let count: u8 = live.len() as u8;
        if count < self.config.min_exchanges {
            return None;
        }
        let mut sum: Binary64 = Binary64::from_sign_and_magnitude(true, 0);
        let mut j: usize = 0;
        proof {
            assert(live@.take(0) == Seq::<Binary64>::empty());
        }
        while j < live.len()
            invariant
                j <= live.len(),
                sum == total(live@.take(j as int)),
            decreases live.len() - j,
        {
            proof {
                assert(live@.take(j + 1).drop_last() == live@.take(j as int));
            }
            sum = sum.add(live[j]);
            j = j + 1;
        }
        proof {
            assert(live@.take(j as int) == live@);
        }
        let value: Binary64 = sum.div(Binary64::from_u64(live.len() as u64)).mul(
            Binary64::from_u64(100),
        ).round().div(Binary64::from_u64(100));
        let confidence: Binary64 = Binary64::from_u64(count as u64).div(Binary64::from_u64(8));
        Some(BrtiEstimate { value, timestamp: now_ms, exchange_count: count, confidence })
    }
}

/// An estimate counts the windows that are live and no others: there are at least as many as are
/// needed and at most one for each exchange, and a window that is stale has no part in it.
pub proof fn lemma_stale_windows_have_no_part(
    windows: Seq<Seq<Trade>>,
    i: int,
    other: Seq<Trade>,
    config: ReconstructorConfig,
    now_ms: u64,
)
    requires
        windows.len() == EXCHANGES,
        0 <= i < windows.len(),
        window::stale(windows[i], now_ms as int, config.staleness_threshold_ms as int),
        window::stale(other, now_ms as int, config.staleness_threshold_ms as int),
    ensures
        estimate(windows.update(i, other), config, now_ms) == estimate(windows, config, now_ms),
        estimate(windows, config, now_ms) is Some ==> config.min_exchanges <= estimate(
            windows,
            config,
            now_ms,
        )->0.exchange_count < EXCHANGES,
{
    lemma_live_same(
        windows,
        i,
        other,
        now_ms as int,
        config.staleness_threshold_ms as int,
    );
    lemma_live_stale_len(windows, i, now_ms as int, config.staleness_threshold_ms as int);
}

proof fn lemma_live_same(
    windows: Seq<Seq<Trade>>,
    i: int,
    other: Seq<Trade>,
    now_ms: int,
    threshold_ms: int,
)
    requires
        0 <= i < windows.len(),
        window::stale(windows[i], now_ms, threshold_ms),
        window::stale(other, now_ms, threshold_ms),
    ensures
        live_prices(windows.update(i, other), now_ms, threshold_ms) == live_prices(
            windows,
            now_ms,
            threshold_ms,
        ),
    decreases windows.len(),
{
    let changed = windows.update(i, other);
    if i < windows.len() - 1 {
        lemma_live_same(windows.drop_last(), i, other, now_ms, threshold_ms);
        assert(changed.drop_last() == windows.drop_last().update(i, other));
    } else {
        assert(changed.drop_last() == windows.drop_last());
    }
}

proof fn lemma_live_stale_len(
    windows: Seq<Seq<Trade>>,
    i: int,
    now_ms: int,
    threshold_ms: int,
)
    requires
        0 <= i < windows.len(),
        window::stale(windows[i], now_ms, threshold_ms),
    ensures
        live_prices(windows, now_ms, threshold_ms).len() < windows.len(),
    decreases windows.len(),
{
    if i < windows.len() - 1 {
        lemma_live_stale_len(windows.drop_last(), i, now_ms, threshold_ms);
    } else {
        lemma_live_len(windows.drop_last(), now_ms, threshold_ms);
    }
}

/// The confidence of an estimate is its count of live windows over eight.
pub proof fn lemma_confidence_is_share_of_exchanges(
    windows: Seq<Seq<Trade>>,
    config: ReconstructorConfig,
    now_ms: u64,
)
    requires
        windows.len() == EXCHANGES,
        estimate(windows, config, now_ms) is Some,
    ensures
        ({
            let e = estimate(windows, config, now_ms)->0;
            &&& e.exchange_count <= EXCHANGES
            &&& e.confidence == Binary64::whole(e.exchange_count as int).quotient(
                Binary64::whole(8),
            )
            &&& e.timestamp == now_ms
        }),
{
    lemma_live_len(windows, now_ms as int, config.staleness_threshold_ms as int);
}

} // verus!
