//! What is sent to the exchange and what it answers.

use crate::clock;
use crate::executor::auth;
use crate::executor::auth::{AuthError, AuthHeaders, KalshiAuth};
use crate::json;
use crate::json::{Json, JsonTree};
use crate::numeric::binary64::Binary64;
use crate::numeric::laws;
use crate::text;
use crate::types::TradeSide;
use vstd::prelude::*;
use vstd::string::*;

verus! {

/// What the exchange says of an order that it took.
#[derive(Debug)]
pub struct OrderResponse {
    pub order_id: String,
    /// `resting`, `filled`, `cancelled` and so on.
    pub status: String,
    pub filled_count: u64,
    pub remaining_count: u64,
}

/// How much of a position was sold, and the limit price of the sale.
#[derive(Clone, Copy, Debug, PartialEq, Eq, Structural)]
pub struct ExitResponse {
    pub filled_count: u64,
    pub fill_price_cents: u64,
}

/// A position as the exchange reports it.
#[derive(Debug)]
pub struct Position {
    pub ticker: String,
    pub side: TradeSide,
    pub contracts: u64,
    pub entry_price_cents: u64,
}

/// The best bids of a market, in cents.
#[derive(Clone, Copy, Debug, PartialEq, Eq, Structural)]
pub struct MarketBids {
    pub yes_bid_cents: Binary64,
    pub no_bid_cents: Binary64,
}

impl MarketBids {
    /// The bid for one side.
    pub open spec fn bid(self, side: TradeSide) -> Binary64 {
        match side {
            TradeSide::Yes => self.yes_bid_cents,
            TradeSide::No => self.no_bid_cents,
        }
    }
}

/// Why an answer of the exchange is of no use, or nothing can be asked.
#[derive(Clone, Copy, Debug, PartialEq, Eq, Structural)]
pub enum ClientError {
    /// The answer is no JSON document.
    Malformed,
    /// The exchange answered with an error.
    Api,
    /// Nobody bids, so that nothing can be sold.
    NoBid,
}

/// Why there is no client.
#[derive(Clone, Copy, Debug, PartialEq, Eq, Structural)]
pub enum ConfigError {
    /// Nothing says whether the demo exchange is meant.
    MissingUseDemo,
    Auth { error: AuthError },
}

/// Whether an order buys or sells.
#[derive(Clone, Copy, Debug, PartialEq, Eq, Structural)]
pub enum OrderAction {
    Buy,
    Sell,
}

/// The value under one key, or else under another.
pub open spec fn either_field(v: JsonTree, first: Seq<char>, second: Seq<char>) -> Option<
    JsonTree,
> {
    match v.field(first) {
        Some(found) => Some(found),
        None => v.field(second),
    }
}

/// A whole number, or another one where there is none.
pub open spec fn unsigned_or(v: Option<JsonTree>, fallback: u64) -> u64 {
    match v {
        Some(found) => match found.as_unsigned() {
            Some(n) => n,
            None => fallback,
        },
        None => fallback,
    }
}

/// A text, or another one where there is none.
pub open spec fn text_or(v: Option<JsonTree>, fallback: Seq<char>) -> Seq<char> {
    match v {
        Some(found) => match found.as_text() {
            Some(s) => s,
            None => fallback,
        },
        None => fallback,
    }
}

/// What an answer is wrapped in, under a key or not at all.
pub open spec fn unwrapped(v: JsonTree, key: Seq<char>) -> JsonTree {
    match v.field(key) {
        Some(inner) => inner,
        None => v,
    }
}

fn find_either<'a>(v: &'a Json, first: &str, second: &str) -> (r: Option<&'a Json>)
    ensures
        match r {
            Some(found) => either_field(v.tree(), first@, second@) == Some(found.tree()),
            None => either_field(v.tree(), first@, second@) is None,
        },
{
    match v.get(first) {
        Some(found) => Some(found),
        None => v.get(second),
    }
}

fn number_or(v: Option<&Json>, fallback: u64) -> (r: u64)
    ensures
        r == unsigned_or(
            match v {
                Some(found) => Some(found.tree()),
                None => None,
            },
            fallback,
        ),
{
    match v {
        Some(found) => match found.as_u64() {
            Some(n) => n,
            None => fallback,
        },
        None => fallback,
    }
}

fn string_or(v: Option<&Json>, fallback: &str) -> (r: String)
    ensures
        r@ == text_or(
            match v {
                Some(found) => Some(found.tree()),
                None => None,
            },
            fallback@,
        ),
{
    match v {
        Some(found) => match found.as_str() {
            Some(s) => s.to_owned(),
            None => fallback.to_owned(),
        },
        None => fallback.to_owned(),
    }
}

fn unwrap_key<'a>(v: &'a Json, key: &str) -> (r: &'a Json)
    ensures
        r.tree() == unwrapped(v.tree(), key@),
{
    match v.get(key) {
        Some(inner) => inner,
        None => v,
    }
}

/// The balance in an answer, in cents: what is available, or else the balance; zero where neither
/// is a whole number.
pub open spec fn balance_cents(body: JsonTree) -> u64 {
    unsigned_or(either_field(body, "available_balance_cents"@, "balance"@), 0)
}

/// The balance in an answer.
pub fn balance(body: &Json) -> (r: u64)
    ensures
        r == balance_cents(body.tree()),
{
    number_or(find_either(body, "available_balance_cents", "balance"), 0)
}

/// Reads the answer to a question for the balance.
pub fn read_balance(answer: &str) -> (r: Result<u64, ClientError>)
    ensures
        r == (match json::json_document(answer@) {
            Some(body) => Ok::<u64, ClientError>(balance_cents(body)),
            None => Err(ClientError::Malformed),
        }),
{
    match json::parse(answer) {
        Ok(body) => Ok(balance(&body)),
        Err(_) => Err(ClientError::Malformed),
    }
}

/// The name of an action in an order.
pub open spec fn action_name(action: OrderAction) -> Seq<char> {
    match action {
        OrderAction::Buy => "buy"@,
        OrderAction::Sell => "sell"@,
    }
}

/// The name of a side in an order.
pub open spec fn order_side_name(side: TradeSide) -> Seq<char> {
    match side {
        TradeSide::Yes => "yes"@,
        TradeSide::No => "no"@,
    }
}

/// The key of the price of a side in an order.
pub open spec fn price_key(side: TradeSide) -> Seq<char> {
    match side {
        TradeSide::Yes => "yes_price"@,
        TradeSide::No => "no_price"@,
    }
}

/// The body of a limit order.
pub open spec fn order_tree(
    ticker: Seq<char>,
    action: OrderAction,
    side: TradeSide,
    contracts: u64,
    limit_price_cents: u64,
) -> JsonTree {
    JsonTree::Object(
        seq![
            ("ticker"@, JsonTree::Text(ticker)),
            ("action"@, JsonTree::Text(action_name(action))),
            ("side"@, JsonTree::Text(order_side_name(side))),
            ("count"@, JsonTree::Unsigned(contracts)),
            ("type"@, JsonTree::Text("limit"@)),
            (price_key(side), JsonTree::Unsigned(limit_price_cents)),
        ],
    )
}

fn named_text(key: &str, value: &str) -> (r: (String, Json))
    ensures
        r.0@ == key@,
        r.1.tree() == JsonTree::Text(value@),
{
    (key.to_owned(), Json::Text(value.to_owned()))
}

/// The body of a limit order.
pub fn order_body(
    ticker: &str,
    action: OrderAction,
    side: &TradeSide,
    contracts: u64,
    limit_price_cents: u64,
) -> (r: Json)
    ensures
        r.tree() == order_tree(ticker@, action, *side, contracts, limit_price_cents),
{
    let mut entries: Vec<(String, Json)> = Vec::new();
    entries.push(named_text("ticker", ticker));
    match action {
        OrderAction::Buy => {
            entries.push(named_text("action", "buy"));
        },
        OrderAction::Sell => {
            entries.push(named_text("action", "sell"));
        },
    }
    match side {
        TradeSide::Yes => {
            entries.push(named_text("side", "yes"));
        },
        TradeSide::No => {
            entries.push(named_text("side", "no"));
        },
    }
    entries.push(("count".to_owned(), Json::Unsigned(contracts)));
    entries.push(named_text("type", "limit"));
    match side {
        TradeSide::Yes => {
            entries.push(("yes_price".to_owned(), Json::Unsigned(limit_price_cents)));
        },
        TradeSide::No => {
            entries.push(("no_price".to_owned(), Json::Unsigned(limit_price_cents)));
        },
    }
    proof {
        json::lemma_named_trees(entries@);
        let wanted = order_tree(ticker@, action, *side, contracts, limit_price_cents);
        assert(json::named_trees(entries@) =~= wanted->Object_0);
    }
    Json::Object(entries)
}

/// How many contracts an order filled.
pub open spec fn filled(order: JsonTree) -> u64 {
    unsigned_or(either_field(order, "fill_count"@, "filled_count"@), 0)
}

/// What an answer says of an order for a number of contracts.
pub open spec fn order_answer(
    answer: JsonTree,
    contracts: u64,
    r: Result<OrderResponse, ClientError>,
) -> bool {
    let order = unwrapped(answer, "order"@);
    if answer.field("error"@) is Some {
        r == Err::<OrderResponse, ClientError>(ClientError::Api)
    } else {
        &&& r is Ok
        &&& r->Ok_0.order_id@ == text_or(either_field(order, "id"@, "order_id"@), ""@)
        &&& r->Ok_0.status@ == text_or(order.field("status"@), "unknown"@)
        &&& r->Ok_0.filled_count == filled(order)
        &&& r->Ok_0.remaining_count == unsigned_or(
            order.field("remaining_count"@),
            clock::monus(contracts as int, filled(order) as int) as u64,
        )
    }
}

/// What an answer says of an order.
pub fn order_response(answer: &Json, contracts: u64) -> (r: Result<OrderResponse, ClientError>)
    ensures
        order_answer(answer.tree(), contracts, r),
{
    if answer.get("error").is_some() {
        return Err(ClientError::Api);
    }
    let order: &Json = unwrap_key(answer, "order");
    let order_id: String = string_or(find_either(order, "id", "order_id"), "");
    let status: String = string_or(order.get("status"), "unknown");
    let filled_count: u64 = number_or(find_either(order, "fill_count", "filled_count"), 0);
    let unfilled: u64 = if contracts >= filled_count {
        contracts - filled_count
    } else {
        0
    };
    let remaining_count: u64 = number_or(order.get("remaining_count"), unfilled);
    Ok(OrderResponse { order_id, status, filled_count, remaining_count })
}

/// Reads the answer to an order.
pub fn read_order(answer: &str, contracts: u64) -> (r: Result<OrderResponse, ClientError>)
    ensures
        match json::json_document(answer@) {
            Some(body) => order_answer(body, contracts, r),
            None => r == Err::<OrderResponse, ClientError>(ClientError::Malformed),
        },
{
    match json::parse(answer) {
        Ok(body) => order_response(&body, contracts),
        Err(_) => Err(ClientError::Malformed),
    }
}

/// A position as values.
pub struct PositionView {
    pub ticker: Seq<char>,
    pub side: TradeSide,
    pub contracts: int,
    pub entry_price_cents: u64,
}

impl View for Position {
    type V = PositionView;

    open spec fn view(&self) -> PositionView {
        PositionView {
            ticker: self.ticker@,
            side: self.side,
            contracts: self.contracts as int,
            entry_price_cents: self.entry_price_cents,
        }
    }
}

/// The position that an entry reports: contracts for yes where the count is positive, for no where
/// it is negative, and none where it is zero.
pub open spec fn reported_position(entry: JsonTree) -> Option<PositionView> {
    let count = match entry.signed_field("position"@) {
        Some(n) => n as int,
        None => 0,
    };
    match entry.text_field("ticker"@) {
        Some(ticker) => if count == 0 {
            None
        } else {
            Some(
                PositionView {
                    ticker,
                    side: if count > 0 {
                        TradeSide::Yes
                    } else {
                        TradeSide::No
                    },
                    contracts: if count > 0 {
                        count
                    } else {
                        -count
                    },
                    entry_price_cents: unsigned_or(
                        either_field(entry, "average_yes_price"@, "average_no_price"@),
                        0,
                    ),
                },
            )
        },
        None => None,
    }
}

/// The positions that a row of entries reports.
pub open spec fn reported_positions(entries: Seq<JsonTree>) -> Seq<PositionView>
    decreases entries.len(),
{
    if entries.len() == 0 {
        Seq::empty()
    } else {
        let rest = reported_positions(entries.drop_last());
        match reported_position(entries.last()) {
            Some(position) => rest.push(position),
            None => rest,
        }
    }
}

/// The positions in an answer.
pub open spec fn answered_positions(body: JsonTree) -> Seq<PositionView> {
    match body.array_field("market_positions"@) {
        Some(entries) => reported_positions(entries),
        None => Seq::empty(),
    }
}

fn position_of(entry: &Json) -> (r: Option<Position>)
    ensures
        match r {
            Some(position) => reported_position(entry.tree()) == Some(position@),
            None => reported_position(entry.tree()) is None,
        },
{
    let ticker: String = match entry.text_field("ticker") {
        Some(ticker) => ticker.to_owned(),
        None => {
            return None;
        },
    };
    let count: i64 = match entry.signed_field("position") {
        Some(count) => count,
        None => 0,
    };
    if count == 0 {
        return None;
    }
    let (side, contracts): (TradeSide, u64) = if count > 0 {
        (TradeSide::Yes, count as u64)
    } else {
        (TradeSide::No, (-(count as i128)) as u64)
    };
    let entry_price_cents: u64 = number_or(
        find_either(entry, "average_yes_price", "average_no_price"),
        0,
    );
    Some(Position { ticker, side, contracts, entry_price_cents })
}

/// The views of a row of positions.
pub open spec fn position_views(s: Seq<Position>) -> Seq<PositionView> {
    Seq::new(s.len(), |i: int| s[i]@)
}

/// The positions in an answer.
pub fn open_positions(body: &Json) -> (r: Vec<Position>)
    ensures
        position_views(r@) == answered_positions(body.tree()),
{
    let mut r: Vec<Position> = Vec::new();
    let entries: &Vec<Json> = match body.array_field("market_positions") {
        Some(entries) => entries,
        None => {
            proof {
                assert(position_views(r@) =~= Seq::<PositionView>::empty());
            }
            return r;
        },
    };
    let ghost all = json::trees(entries@);
    let mut i: usize = 0;
    proof {
        assert(all.take(0) == Seq::<JsonTree>::empty());
        assert(position_views(r@) =~= Seq::<PositionView>::empty());
    }
    while i < entries.len()
        invariant
            i <= entries@.len(),
            all == json::trees(entries@),
            position_views(r@) == reported_positions(all.take(i as int)),
        decreases entries.len() - i,
    {
        let entry: &Json = json::item(entries, i);
        let ghost before = r@;
        proof {
            assert(all.take(i + 1).drop_last() == all.take(i as int));
        }
        match position_of(entry) {
            Some(position) => {
                r.push(position);
                proof {
                    assert(position_views(r@) =~= position_views(before).push(position@));
                }
            },
            None => {},
        }
        i = i + 1;
    }
    proof {
        json::lemma_trees(entries@);
        assert(all.take(i as int) == all);
    }
    r
}

/// Reads the answer to a question for the open positions.
pub fn read_open_positions(answer: &str) -> (r: Result<Vec<Position>, ClientError>)
    ensures
        match r {
            Ok(positions) => json::json_document(answer@) is Some && position_views(positions@)
                == answered_positions(json::json_document(answer@)->0),
            Err(e) => e == ClientError::Malformed && json::json_document(answer@) is None,
        },
{
    match json::parse(answer) {
        Ok(body) => Ok(open_positions(&body)),
        Err(_) => Err(ClientError::Malformed),
    }
}

/// A price in dollars under a key, in cents; zero where there is none.
pub open spec fn dollars_in_cents(v: JsonTree, key: Seq<char>) -> Binary64 {
    match v.decimal_field(key) {
        Some(dollars) => dollars.product(Binary64::whole(100)),
        None => Binary64::whole(0),
    }
}

/// The bids in an answer.
pub open spec fn answered_bids(body: JsonTree) -> MarketBids {
    let market = unwrapped(body, "market"@);
    MarketBids {
        yes_bid_cents: dollars_in_cents(market, "yes_bid_dollars"@),
        no_bid_cents: dollars_in_cents(market, "no_bid_dollars"@),
    }
}

fn cents_of(v: &Json, key: &str) -> (r: Binary64)
    ensures
        r == dollars_in_cents(v.tree(), key@),
{
    match v.decimal_field(key) {
        Some(dollars) => dollars.mul(Binary64::from_u64(100)),
        None => Binary64::from_u64(0),
    }
}

/// The bids in an answer.
pub fn market_bids(body: &Json) -> (r: MarketBids)
    ensures
        r == answered_bids(body.tree()),
{
    let market: &Json = unwrap_key(body, "market");
    MarketBids {
        yes_bid_cents: cents_of(market, "yes_bid_dollars"),
        no_bid_cents: cents_of(market, "no_bid_dollars"),
    }
}

/// Reads the answer to a question for the bids of a market.
pub fn read_market_bids(answer: &str) -> (r: Result<MarketBids, ClientError>)
    ensures
        r == (match json::json_document(answer@) {
            Some(body) => Ok::<MarketBids, ClientError>(answered_bids(body)),
            None => Err(ClientError::Malformed),
        }),
{
    match json::parse(answer) {
        Ok(body) => Ok(market_bids(&body)),
        Err(_) => Err(ClientError::Malformed),
    }
}

/// The limit price of a sale: the whole cents of the bid. There is none where nobody bids.
pub fn exit_price(side: &TradeSide, bids: &MarketBids) -> (r: Result<u64, ClientError>)
    ensures
        r == (if bids.bid(*side).at_most(Binary64::whole(0)) {
            Err::<u64, ClientError>(ClientError::NoBid)
        } else {
            Ok(bids.bid(*side).truncated() as u64)
        }),
{
    let bid: Binary64 = match side {
        TradeSide::Yes => bids.yes_bid_cents,
        TradeSide::No => bids.no_bid_cents,
    };
    if bid.le(Binary64::from_u64(0)) {
        return Err(ClientError::NoBid);
    }
    proof {
        laws::lemma_truncated_range(bid);
    }
    Ok(bid.to_u64())
}

/// What an answer says of a sale at a limit price.
pub open spec fn exit_answer(answer: JsonTree, limit_price_cents: u64) -> Result<
    ExitResponse,
    ClientError,
> {
    if answer.field("error"@) is Some {
        Err(ClientError::Api)
    } else {
        Ok(
            ExitResponse {
                filled_count: filled(unwrapped(answer, "order"@)),
                fill_price_cents: limit_price_cents,
            },
        )
    }
}

/// What an answer says of a sale.
pub fn exit_response(answer: &Json, limit_price_cents: u64) -> (r: Result<
    ExitResponse,
    ClientError,
>)
    ensures
        r == exit_answer(answer.tree(), limit_price_cents),
{
    if answer.get("error").is_some() {
        return Err(ClientError::Api);
    }
    let order: &Json = unwrap_key(answer, "order");
    let filled_count: u64 = number_or(find_either(order, "fill_count", "filled_count"), 0);
    Ok(ExitResponse { filled_count, fill_price_cents: limit_price_cents })
}

/// Reads the answer to a sale.
pub fn read_exit(answer: &str, limit_price_cents: u64) -> (r: Result<ExitResponse, ClientError>)
    ensures
        r == (match json::json_document(answer@) {
            Some(body) => exit_answer(body, limit_price_cents),
            None => Err(ClientError::Malformed),
        }),
{
    match json::parse(answer) {
        Ok(body) => exit_response(&body, limit_price_cents),
        Err(_) => Err(ClientError::Malformed),
    }
}

/// Whether a separator of scheme and host stands at a place.
pub open spec fn separator_at(s: Seq<char>, i: int) -> bool {
    0 <= i && i + 3 <= s.len() && s[i] == ':' && s[i + 1] == '/' && s[i + 2] == '/'
}

/// The place of the first separator from a place on, or the length where there is none.
pub open spec fn next_separator(s: Seq<char>, from: int) -> int
    decreases s.len() - from,
{
    if from >= s.len() || separator_at(s, from) {
        from
    } else {
        next_separator(s, from + 1)
    }
}

/// The place of the first slash between two places, or the second place where there is none.
pub open spec fn next_slash(s: Seq<char>, from: int, to: int) -> int
    decreases to - from,
{
    if from >= to || s[from] == '/' {
        from
    } else {
        next_slash(s, from + 1, to)
    }
}

/// The path of an address: what follows the host, from its first slash on; empty where the address
/// has no scheme, or no path. A further separator ends it.
pub open spec fn url_path(url: Seq<char>) -> Seq<char> {
    let first = next_separator(url, 0);
    if first >= url.len() {
        Seq::empty()
    } else {
        let start = first + 3;
        let end = next_separator(url, start);
        let slash = next_slash(url, start, end);
        url.subrange(slash, end)
    }
}

fn find_separator(c: &Vec<char>, from: usize) -> (r: usize)
    requires
        from <= c@.len(),
    ensures
        r == next_separator(c@, from as int),
        from <= r <= c@.len(),
        r < c@.len() ==> separator_at(c@, r as int),
{
    let mut i: usize = from;
    while i < c.len() && !(c.len() - i >= 3 && c[i] == ':' && c[i + 1] == '/' && c[i + 2] == '/')
        invariant
            from <= i <= c@.len(),
            next_separator(c@, from as int) == next_separator(c@, i as int),
        decreases c.len() - i,
    {
        i = i + 1;
    }
    i
}

fn find_slash(c: &Vec<char>, from: usize, to: usize) -> (r: usize)
    requires
        from <= to <= c@.len(),
    ensures
        r == next_slash(c@, from as int, to as int),
        from <= r <= to,
{
    let mut i: usize = from;
    while i < to && c[i] != '/'
        invariant
            from <= i <= to <= c@.len(),
            next_slash(c@, from as int, to as int) == next_slash(c@, i as int, to as int),
        decreases to - i,
    {
        i = i + 1;
    }
    i
}

/// The path of an address.
pub fn path_of(url: &str) -> (r: String)
    ensures
        r@ == url_path(url@),
{
    let c: Vec<char> = text::characters(url);
    let first: usize = find_separator(&c, 0);
    if first >= c.len() {
        let empty: String = String::new();
        proof {
            assert(empty@ =~= Seq::<char>::empty());
        }
        return empty;
    }
    let start: usize = first + 3;
    let end: usize = find_separator(&c, start);
    let slash: usize = find_slash(&c, start, end);
    url.substring_char(slash, end).to_owned()
}

/// A request with its headers.
#[derive(Debug)]
pub struct SignedRequest {
    pub url: String,
    pub headers: AuthHeaders,
}

/// Who asks, and whom.
pub struct KalshiClient {
    pub auth: KalshiAuth,
    pub base_url: String,
    pub use_demo: bool,
}

/// The address that is asked where none is set.
pub open spec fn default_base_url() -> Seq<char> {
    "https://api.elections.kalshi.com/trade-api/v2"@
}

/// The address that is asked.
pub fn base_url_or_default(base_url: Option<&str>) -> (r: String)
    ensures
        r@ == (match base_url {
            Some(url) => url@,
            None => default_base_url(),
        }),
{
    match base_url {
        Some(url) => url.to_owned(),
        None => "https://api.elections.kalshi.com/trade-api/v2".to_owned(),
    }
}

/// Whether a trimmed text in lower case means the demo exchange.
pub fn means_demo(lower_case: &str) -> (r: bool)
    ensures
        r == (lower_case@ == "true"@),
{
    text::same_text(lower_case, "true")
}

impl KalshiClient {
    /// The client, from the texts of the environment's `KALSHI_USE_DEMO`, `KALSHI_BASE_URL`,
    /// `KALSHI_API_KEY_ID` and `KALSHI_PRIVATE_KEY`. There is none where the first is not set.
    pub fn from_env(
        use_demo: Option<&str>,
        base_url: Option<&str>,
        key_id: Option<&str>,
        pem: Option<&str>,
    ) -> (r: Result<Self, ConfigError>)
        ensures
            match r {
                Ok(client) => {
                    &&& use_demo is Some
                    &&& client.use_demo == (text::lower_case(text::trimmed(use_demo->0@))
                        == "true"@)
                    &&& client.base_url@ == (match base_url {
                        Some(url) => url@,
                        None => default_base_url(),
                    })
                    &&& key_id is Some && client.auth.key_id@ == key_id->0@
                    &&& pem is Some && auth::private_key(pem->0@) == Some(
                        client.auth.private_key,
                    )
                },
                Err(ConfigError::MissingUseDemo) => use_demo is None,
                Err(ConfigError::Auth { error }) => use_demo is Some && {
                    ||| error == AuthError::MissingKeyId && key_id is None
                    ||| error == AuthError::MissingPrivateKey && key_id is Some && pem is None
                    ||| error == AuthError::MalformedPrivateKey && key_id is Some && pem is Some
                        && auth::private_key(pem->0@) is None
                },
            },
    {
        let use_demo: bool = match use_demo {
            Some(s) => {
                let lowered: String = text::to_lower_case(text::trim(s));
                means_demo(lowered.as_str())
            },
            None => {
                return Err(ConfigError::MissingUseDemo);
            },
        };
        let base_url: String = base_url_or_default(base_url);
        match KalshiAuth::from_env(key_id, pem) {
            Ok(auth) => Ok(KalshiClient { auth, base_url, use_demo }),
            Err(error) => Err(ConfigError::Auth { error }),
        }
    }

    /// The path that is signed for an endpoint: that of the address, and the endpoint.
    pub fn sign_path(&self, endpoint: &str) -> (r: String)
        ensures
            r@ == url_path(self.base_url@) + endpoint@,
    {
        let mut r: String = path_of(self.base_url.as_str());
        r.append(endpoint);
        r
    }

    /// A request for an endpoint at a given time.
    pub fn request_at(&self, method: &str, endpoint: &str, ts_ms: u64) -> (r: Result<
        SignedRequest,
        AuthError,
    >)
        ensures
            self.requests(method@, endpoint@, ts_ms, r),
    {
        let path: String = self.sign_path(endpoint);
        match self.auth.sign_at(method, path.as_str(), ts_ms) {
            Ok(headers) => Ok(
                SignedRequest { url: text::join(self.base_url.as_str(), endpoint), headers },
            ),
            Err(e) => Err(e),
        }
    }

    /// What a request for an endpoint at a given time is.
    pub open spec fn requests(
        self,
        method: Seq<char>,
        endpoint: Seq<char>,
        ts_ms: u64,
        r: Result<SignedRequest, AuthError>,
    ) -> bool {
        &&& self.auth.signs(
            method,
            url_path(self.base_url@) + endpoint,
            ts_ms,
            match r {
                Ok(request) => Ok(request.headers),
                Err(e) => Err(e),
            },
        )
        &&& r is Ok ==> r->Ok_0.url@ == self.base_url@ + endpoint
    }

    /// A request for an endpoint now.
    pub fn request(&self, method: &str, endpoint: &str) -> (r: Result<SignedRequest, AuthError>)
        ensures
            exists|now: std::time::SystemTime|
                self.requests(method@, endpoint@, clock::clock_value(#[trigger] clock::reading_millis(now)) as u64, r),
    {
        self.request_at(method, endpoint, clock::local_ts_ms())
    }
}

/// The endpoint of a market.
pub fn market_endpoint(ticker: &str) -> (r: String)
    ensures
        r@ == "/markets/"@ + ticker@,
{
    text::join("/markets/", ticker)
}

/// The signed path goes on from the path of the address, which begins with a slash where there is
/// one.
pub proof fn lemma_path_begins_with_slash(url: Seq<char>)
    ensures
        url_path(url).len() > 0 ==> url_path(url)[0] == '/',
{
    let first = next_separator(url, 0);
    if first < url.len() {
        lemma_next_separator(url, 0);
        let start = first + 3;
        lemma_next_separator(url, start);
        let end = next_separator(url, start);
        lemma_next_slash(url, start, end);
    }
}

proof fn lemma_next_separator(s: Seq<char>, from: int)
    requires
        0 <= from <= s.len(),
    ensures
        from <= next_separator(s, from) <= s.len(),
        next_separator(s, from) < s.len() ==> separator_at(s, next_separator(s, from)),
    decreases s.len() - from,
{
    if from < s.len() && !separator_at(s, from) {
        lemma_next_separator(s, from + 1);
    }
}

proof fn lemma_next_slash(s: Seq<char>, from: int, to: int)
    requires
        0 <= from <= to <= s.len(),
    ensures
        from <= next_slash(s, from, to) <= to,
        next_slash(s, from, to) < to ==> s[next_slash(s, from, to)] == '/',
    decreases to - from,
{
    if from < to && s[from] != '/' {
        lemma_next_slash(s, from + 1, to);
    }
}

} // verus!
