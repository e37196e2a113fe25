//! The open markets, as the exchange lists them.

use crate::clock;
use crate::executor::client::ClientError;
use crate::json;
use crate::json::{Json, JsonTree};
use crate::numeric::binary64::Binary64;
use crate::numeric::laws;
use crate::text;
use crate::types::KalshiMarket;
use vstd::prelude::*;

verus! {

/// What `chrono` reads as an RFC 3339 moment, in milliseconds since the Unix epoch.
pub uninterp spec fn chrono_millis(s: Seq<char>) -> Option<i64>;

/// Reads a moment with `chrono::DateTime::parse_from_rfc3339`, which depends on the text alone, and
/// takes its `timestamp_millis`. The format is that of RFC 3339 and is not restated.
#[verifier::external_body]
fn parse_millis(s: &str) -> (r: Option<i64>)
    ensures
        r == chrono_millis(s@),
{
    chrono::DateTime::parse_from_rfc3339(s).ok().map(|dt| dt.timestamp_millis())
}

/// A count of milliseconds without its sign, in the low 64 bits.
pub open spec fn low_bits(millis: i64) -> u64 {
    (millis as int % 0x1_0000_0000_0000_0000) as u64
}

/// The time in milliseconds that was read, in the low 64 bits; zero where none was.
pub fn time_ms(millis: Option<i64>) -> (r: u64)
    ensures
        r == (match millis {
            Some(n) => low_bits(n),
            None => 0,
        }),
{
    match millis {
        Some(n) => if n >= 0 {
            n as u64
        } else {
            (n as i128 + 0x1_0000_0000_0000_0000) as u64
        },
        None => 0,
    }
}

/// The time under a key; zero where there is none.
pub open spec fn time_field(m: JsonTree, key: Seq<char>) -> u64 {
    match m.text_field(key) {
        Some(s) => match chrono_millis(s) {
            Some(n) => low_bits(n),
            None => 0,
        },
        None => 0,
    }
}

fn time_of(m: &Json, key: &str) -> (r: u64)
    ensures
        r == time_field(m.tree(), key@),
{
    match m.text_field(key) {
        Some(s) => time_ms(parse_millis(s)),
        None => 0,
    }
}

/// A price in cents: a number under one key, or else the text of a number of dollars under another;
/// zero where there is neither.
pub open spec fn price_field(m: JsonTree, cents: Seq<char>, dollars: Seq<char>) -> Binary64 {
    match m.number_field(cents) {
        Some(price) => price,
        None => match m.decimal_field(dollars) {
            Some(price) => price.product(Binary64::whole(100)),
            None => Binary64::whole(0),
        },
    }
}

fn price_of(m: &Json, cents: &str, dollars: &str) -> (r: Binary64)
    ensures
        r == price_field(m.tree(), cents@, dollars@),
{
    match m.number_field(cents) {
        Some(price) => price,
        None => match m.decimal_field(dollars) {
            Some(price) => price.mul(Binary64::from_u64(100)),
            None => Binary64::from_u64(0),
        },
    }
}

/// What the hyperbolic tangent is taken of: the distance from the strike in percent.
pub open spec fn distance_percent(brti_est: Binary64, strike: Binary64) -> Binary64 {
    brti_est.difference(strike).quotient(strike).product(Binary64::whole(100))
}

/// The prices of a market without bids, given the hyperbolic tangent of the distance: the closer to
/// the end, the more certain, and never below 1 or above 99 cents.
pub open spec fn computed_prices(
    brti_est: Binary64,
    strike: Binary64,
    seconds_to_close: Binary64,
    tanh_distance: Binary64,
) -> (Binary64, Binary64) {
    let one = Binary64::whole(1);
    let hundred = Binary64::whole(100);
    let time_factor = seconds_to_close.quotient(Binary64::whole(900)).lesser_of(one);
    let base = Binary64::ratio(5, 10).sum(tanh_distance.product(Binary64::ratio(4, 10)));
    let yes_prob = if strike.less(brti_est) {
        base.sum(
            one.difference(base).product(one.difference(time_factor)).product(
                Binary64::ratio(5, 10),
            ),
        )
    } else {
        base.product(time_factor)
    };
    let yes = yes_prob.product(hundred).held_between(one, Binary64::whole(99));
    let no = hundred.difference(yes).held_between(one, Binary64::whole(99));
    (yes, no)
}

/// The prices of a market without bids, given the hyperbolic tangent of the distance.
pub fn prices_at(
    brti_est: Binary64,
    strike: Binary64,
    seconds_to_close: Binary64,
    tanh_distance: Binary64,
) -> (r: (Binary64, Binary64))
    ensures
        r == computed_prices(brti_est, strike, seconds_to_close, tanh_distance),
{
    let one: Binary64 = Binary64::from_u64(1);
    let hundred: Binary64 = Binary64::from_u64(100);
    let time_factor: Binary64 = seconds_to_close.div(Binary64::from_u64(900)).min(one);
    let base: Binary64 = Binary64::from_ratio(5, 10).add(
        tanh_distance.mul(Binary64::from_ratio(4, 10)),
    );
    let yes_prob: Binary64 = if strike.lt(brti_est) {
        base.add(
            one.sub(base).mul(one.sub(time_factor)).mul(Binary64::from_ratio(5, 10)),
        )
    } else {
        base.mul(time_factor)
    };
    let yes: Binary64 = yes_prob.mul(hundred).clamp(one, Binary64::from_u64(99));
    let no: Binary64 = hundred.sub(yes).clamp(one, Binary64::from_u64(99));
    (yes, no)
}

/// The prices of a market without bids, from the index, the strike and the time to go. `tanh` is
/// the hyperbolic tangent.
pub fn synthetic_prices<F: Fn(Binary64) -> Binary64>(
    brti_est: Binary64,
    strike: Binary64,
    seconds_to_close: Binary64,
    tanh: F,
) -> (r: (Binary64, Binary64))
    requires
        forall|x: Binary64| call_requires(tanh, (x,)),
    ensures
        exists|t: Binary64|
            call_ensures(tanh, (distance_percent(brti_est, strike),), t) && r
                == #[trigger] computed_prices(brti_est, strike, seconds_to_close, t),
{
    let distance: Binary64 = brti_est.sub(strike).div(strike).mul(Binary64::from_u64(100));
    let t: Binary64 = tanh(distance);
    prices_at(brti_est, strike, seconds_to_close, t)
}

/// Whether the prices of a listed market are computed: nobody bids for yes, and there are an index,
/// a strike and time to go.
pub open spec fn is_synthetic(m: JsonTree, brti: Binary64, now_ms: u64) -> bool {
    let zero = Binary64::whole(0);
    &&& price_field(m, "yes_bid"@, "yes_bid_dollars"@).same(zero)
    &&& !brti.same(zero)
    &&& !listed_strike(m).same(zero)
    &&& time_field(m, "close_time"@) > now_ms
}

/// The strike of a listed market; zero where it has none.
pub open spec fn listed_strike(m: JsonTree) -> Binary64 {
    match m.number_field("floor_strike"@) {
        Some(strike) => strike,
        None => Binary64::whole(0),
    }
}

/// The time that a listed market has to go, in seconds.
pub open spec fn seconds_to_go(m: JsonTree, now_ms: u64) -> Binary64 {
    Binary64::whole(
        clock::monus(time_field(m, "close_time"@) as int, now_ms as int),
    ).quotient(Binary64::whole(1000))
}

/// A market as values.
pub struct MarketView {
    pub ticker: Seq<char>,
    pub yes_price: Binary64,
    pub no_price: Binary64,
    pub strike: Binary64,
    pub open_time: u64,
    pub closes_at: u64,
    pub synthetic: bool,
}

impl View for KalshiMarket {
    type V = MarketView;

    open spec fn view(&self) -> MarketView {
        MarketView {
            ticker: self.ticker@,
            yes_price: self.yes_price,
            no_price: self.no_price,
            strike: self.strike,
            open_time: self.open_time,
            closes_at: self.closes_at,
            synthetic: self.synthetic,
        }
    }
}

/// The market that an entry of the list is, if it has a ticker, given the hyperbolic tangent of the
/// distance where its prices are computed.
pub open spec fn listed_market(
    m: JsonTree,
    brti: Binary64,
    now_ms: u64,
    tanh_distance: Binary64,
) -> Option<MarketView> {
    let synthetic = is_synthetic(m, brti, now_ms);
    let computed = computed_prices(
        brti,
        listed_strike(m),
        seconds_to_go(m, now_ms),
        tanh_distance,
    );
    match m.text_field("ticker"@) {
        Some(ticker) => Some(
            MarketView {
                ticker,
                yes_price: if synthetic {
                    computed.0
                } else {
                    price_field(m, "yes_bid"@, "yes_bid_dollars"@)
                },
                no_price: if synthetic {
                    computed.1
                } else {
                    price_field(m, "no_bid"@, "no_bid_dollars"@)
                },
                strike: listed_strike(m),
                open_time: time_field(m, "open_time"@),
                closes_at: time_field(m, "close_time"@),
                synthetic,
            },
        ),
        None => None,
    }
}

/// The markets of a list.
pub open spec fn listed_markets(
    entries: Seq<JsonTree>,
    brti: Binary64,
    now_ms: u64,
    tanhs: Seq<Binary64>,
) -> Seq<MarketView>
    decreases entries.len(),
{
    if entries.len() == 0 {
        Seq::empty()
    } else {
        let rest = listed_markets(entries.drop_last(), brti, now_ms, tanhs);
        match listed_market(entries.last(), brti, now_ms, tanhs[entries.len() - 1]) {
            Some(market) => rest.push(market),
            None => rest,
        }
    }
}

/// The list in an answer; empty where there is none.
pub open spec fn answered_list(body: JsonTree) -> Seq<JsonTree> {
    match body.array_field("markets"@) {
        Some(entries) => entries,
        None => Seq::empty(),
    }
}

/// The views of a row of markets.
pub open spec fn market_views(s: Seq<KalshiMarket>) -> Seq<MarketView> {
    Seq::new(s.len(), |i: int| s[i]@)
}

/// Whether a row of markets is what an answer lists, given a hyperbolic tangent for each entry; those
/// of the entries whose prices are computed are the function's own.
pub open spec fn is_answer<F: Fn(Binary64) -> Binary64>(
    body: JsonTree,
    brti: Binary64,
    now_ms: u64,
    tanh: F,
    tanhs: Seq<Binary64>,
    found: Seq<MarketView>,
) -> bool {
    let entries = answered_list(body);
    &&& tanhs.len() == entries.len()
    &&& forall|i: int|
        0 <= i < entries.len() && is_synthetic(#[trigger] entries[i], brti, now_ms)
            && entries[i].text_field("ticker"@) is Some ==> call_ensures(
            tanh,
            (distance_percent(brti, listed_strike(entries[i])),),
            tanhs[i],
        )
    &&& found == listed_markets(entries, brti, now_ms, tanhs)
}

/// The market that an entry of the list is, given the hyperbolic tangent of the distance.
pub fn market_at(m: &Json, brti: Binary64, now_ms: u64, tanh_distance: Binary64) -> (r: Option<
    KalshiMarket,
>)
    ensures
        match r {
            Some(market) => listed_market(m.tree(), brti, now_ms, tanh_distance) == Some(market@),
            None => listed_market(m.tree(), brti, now_ms, tanh_distance) is None,
        },
{
    let ticker: String = match m.text_field("ticker") {
        Some(ticker) => ticker.to_owned(),
        None => {
            return None;
        },
    };
    let mut yes_price: Binary64 = price_of(m, "yes_bid", "yes_bid_dollars");
    let mut no_price: Binary64 = price_of(m, "no_bid", "no_bid_dollars");
    let strike: Binary64 = strike_of(m);
    let open_time: u64 = time_of(m, "open_time");
    let closes_at: u64 = time_of(m, "close_time");
    let synthetic = has_computed_prices(m, brti, now_ms);
    if synthetic {
        let seconds_to_close: Binary64 = Binary64::from_u64(
            clock::elapsed_ms(closes_at, now_ms),
        ).div(Binary64::from_u64(1000));
        let (yes, no) = prices_at(brti, strike, seconds_to_close, tanh_distance);
        yes_price = yes;
        no_price = no;
    }
    Some(KalshiMarket { ticker, yes_price, no_price, strike, open_time, closes_at, synthetic })
}

fn strike_of(m: &Json) -> (r: Binary64)
    ensures
        r == listed_strike(m.tree()),
{
    match m.number_field("floor_strike") {
        Some(strike) => strike,
        None => Binary64::from_u64(0),
    }
}

fn has_computed_prices(m: &Json, brti: Binary64, now_ms: u64) -> (r: bool)
    ensures
        r == is_synthetic(m.tree(), brti, now_ms),
{
    let zero: Binary64 = Binary64::from_u64(0);
    price_of(m, "yes_bid", "yes_bid_dollars").equals(zero) && !brti.equals(zero) && !strike_of(
        m,
    ).equals(zero) && time_of(m, "close_time") > now_ms
}

/// The markets in an answer. `tanh` is the hyperbolic tangent.
pub fn markets<F: Fn(Binary64) -> Binary64>(
    body: &Json,
    brti: Binary64,
    now_ms: u64,
    tanh: F,
) -> (r: Vec<KalshiMarket>)
    requires
        forall|x: Binary64| call_requires(tanh, (x,)),
    ensures
        exists|tanhs: Seq<Binary64>| #[trigger]
            is_answer(body.tree(), brti, now_ms, tanh, tanhs, market_views(r@)),
{
    let mut r: Vec<KalshiMarket> = Vec::new();
    let ghost mut tanhs: Seq<Binary64> = Seq::empty();
    let ghost all = answered_list(body.tree());
    proof {
        assert(market_views(r@) =~= Seq::<MarketView>::empty());
    }
    let entries: &Vec<Json> = match body.array_field("markets") {
        Some(entries) => entries,
        None => {
            proof {
                assert(is_answer(body.tree(), brti, now_ms, tanh, tanhs, market_views(r@)));
            }
            return r;
        },
    };
    let mut i: usize = 0;
    proof {
        json::lemma_trees(entries@);
        assert(all.take(0) == Seq::<JsonTree>::empty());
    }
    while i < entries.len()
        invariant
            i <= entries@.len(),
            all == json::trees(entries@),
            all.len() == entries@.len(),
            tanhs.len() == i,
            forall|x: Binary64| call_requires(tanh, (x,)),
            forall|j: int|
                0 <= j < i && is_synthetic(#[trigger] all[j], brti, now_ms) && all[j].text_field(
                    "ticker"@,
                ) is Some ==> call_ensures(
                    tanh,
                    (distance_percent(brti, listed_strike(all[j])),),
                    tanhs[j],
                ),
            market_views(r@) == listed_markets(all.take(i as int), brti, now_ms, tanhs),
        decreases entries.len() - i,
    {
        let m: &Json = json::item(entries, i);
        let ghost so_far = all.take(i as int);
        let ghost before = r@;
        let ghost taken = tanhs;
        proof {
            assert(all.take(i + 1).drop_last() == so_far);
            assert(all.take(i + 1).last() == all[i as int]);
        }
        let mut t: Binary64 = Binary64::from_u64(0);
        if m.text_field("ticker").is_some() && has_computed_prices(m, brti, now_ms) {
            let strike: Binary64 = strike_of(m);
            t = tanh(brti.sub(strike).div(strike).mul(Binary64::from_u64(100)));
        }
        proof {
            tanhs = tanhs.push(t);
            lemma_listed_prefix(so_far, brti, now_ms, taken, tanhs);
        }
        match market_at(m, brti, now_ms, t) {
            Some(market) => {
                r.push(market);
                proof {
                    assert(market_views(r@) =~= market_views(before).push(market@));
                }
            },
            None => {},
        }
        i = i + 1;
    }
    proof {
        assert(all.take(i as int) == all);
        assert(is_answer(body.tree(), brti, now_ms, tanh, tanhs, market_views(r@)));
    }
    r
}

proof fn lemma_listed_prefix(
    entries: Seq<JsonTree>,
    brti: Binary64,
    now_ms: u64,
    tanhs: Seq<Binary64>,
    more: Seq<Binary64>,
)
    requires
        tanhs.len() >= entries.len(),
        more.len() >= entries.len(),
        forall|i: int| 0 <= i < entries.len() ==> #[trigger] tanhs[i] == more[i],
    ensures
        listed_markets(entries, brti, now_ms, tanhs) == listed_markets(
            entries,
            brti,
            now_ms,
            more,
        ),
    decreases entries.len(),
{
    if entries.len() > 0 {
        lemma_listed_prefix(entries.drop_last(), brti, now_ms, tanhs, more);
        assert(tanhs[entries.len() - 1] == more[entries.len() - 1]);
    }
}

/// Reads the answer to a question for the markets. `tanh` is the hyperbolic tangent.
pub fn read_markets<F: Fn(Binary64) -> Binary64>(
    answer: &str,
    brti: Binary64,
    now_ms: u64,
    tanh: F,
) -> (r: Result<Vec<KalshiMarket>, ClientError>)
    requires
        forall|x: Binary64| call_requires(tanh, (x,)),
    ensures
        r is Ok <==> json::json_document(answer@) is Some,
        r is Err ==> r->Err_0 == ClientError::Malformed,
        r is Ok ==> exists|tanhs: Seq<Binary64>| #[trigger]
            is_answer(
                json::json_document(answer@)->0,
                brti,
                now_ms,
                tanh,
                tanhs,
                market_views(r->Ok_0@),
            ),
{
    match json::parse(answer) {
        Ok(body) => {
            let found: Vec<KalshiMarket> = markets(&body, brti, now_ms, tanh);
            let ghost document = json::json_document(answer@)->0;
            let ghost views = market_views(found@);
            proof {
                assert(document == body.tree());
                assert(exists|tanhs: Seq<Binary64>| #[trigger]
                    is_answer(document, brti, now_ms, tanh, tanhs, views));
            }
            let r: Result<Vec<KalshiMarket>, ClientError> = Ok(found);
            proof {
                assert(r->Ok_0@ == found@);
                assert(market_views(r->Ok_0@) == views);
            }
            r
        },
        Err(_) => Err(ClientError::Malformed),
    }
}

/// The address of the list of open markets.
pub fn markets_url(base_url: &str) -> (r: String)
    ensures
        r@ == base_url@ + "/markets?series_ticker=KXBTC15M&status=open"@,
{
    text::join(base_url, "/markets?series_ticker=KXBTC15M&status=open")
}

/// Computed prices are between 1 and 99 cents, or a NaN.
pub proof fn lemma_computed_prices_are_held(
    brti_est: Binary64,
    strike: Binary64,
    seconds_to_close: Binary64,
    tanh_distance: Binary64,
)
    ensures
        ({
            let (yes, no) = computed_prices(brti_est, strike, seconds_to_close, tanh_distance);
            &&& yes.nan() || (Binary64::whole(1).at_most(yes) && yes.at_most(Binary64::whole(99)))
            &&& no.nan() || (Binary64::whole(1).at_most(no) && no.at_most(Binary64::whole(99)))
        }),
{
    laws::lemma_ratio_order(1, 99, 1);
}

/// Prices are computed only where nobody bids for yes: a market with a bid keeps its own.
pub proof fn lemma_bids_are_kept(
    m: JsonTree,
    brti: Binary64,
    now_ms: u64,
    tanh_distance: Binary64,
)
    requires
        m.text_field("ticker"@) is Some,
        !price_field(m, "yes_bid"@, "yes_bid_dollars"@).same(Binary64::whole(0)),
    ensures
        ({
            let market = listed_market(m, brti, now_ms, tanh_distance)->0;
            &&& !market.synthetic
            &&& market.yes_price == price_field(m, "yes_bid"@, "yes_bid_dollars"@)
            &&& market.no_price == price_field(m, "no_bid"@, "no_bid_dollars"@)
        }),
{
}

} // verus!
