//! What is sent to the exchange can be read back, and what the exchange answers is taken as it says.

use crate::executor::client;
use crate::executor::client::{ClientError, MarketBids, OrderAction, OrderResponse, PositionView};
use crate::json;
use crate::json::JsonTree;
use crate::numeric::accuracy;
use crate::numeric::accuracy::is_whole;
use crate::numeric::binary64;
use crate::numeric::binary64::Binary64;
use crate::numeric::laws;
use crate::numeric::order;
use crate::numeric::rounding::BINADE;
use crate::types::TradeSide;
use vstd::arithmetic::div_mod::*;
use vstd::arithmetic::power2::*;
use vstd::prelude::*;

verus! {

/// The value under a key is that of the first entry with the key, and there is one exactly where there
/// is such an entry.
pub proof fn lemma_first_under(entries: Seq<(Seq<char>, JsonTree)>, key: Seq<char>)
    ensures
        match json::first_under(entries, key) {
            Some(value) => exists|i: int|
                0 <= i < entries.len() && (#[trigger] entries[i]) == (key, value) && forall|j: int|
                    0 <= j < i ==> (#[trigger] entries[j]).0 != key,
            None => forall|i: int| 0 <= i < entries.len() ==> (#[trigger] entries[i]).0 != key,
        },
    decreases entries.len(),
{
    if entries.len() > 0 {
        if entries[0].0 == key {
            assert(entries[0] == (key, entries[0].1));
        } else {
            let rest = entries.skip(1);
            lemma_first_under(rest, key);
            match json::first_under(rest, key) {
                Some(value) => {
                    let i = choose|i: int|
                        0 <= i < rest.len() && (#[trigger] rest[i]) == (key, value) && forall|j: int|
                            0 <= j < i ==> (#[trigger] rest[j]).0 != key;
                    assert(entries[i + 1] == (key, value));
                    assert forall|j: int| 0 <= j < i + 1 implies (#[trigger] entries[j]).0
                        != key by {
                        if j > 0 {
                            assert(rest[j - 1] == entries[j]);
                        }
                    }
                },
                None => {
                    assert forall|i: int| 0 <= i < entries.len() implies (#[trigger] entries[i]).0
                        != key by {
                        if i > 0 {
                            assert(rest[i - 1] == entries[i]);
                        }
                    }
                },
            }
        }
    }
}

/// An order says what it is for: its ticker, whether it buys or sells, its side, its count and its
/// limit price, which stands under the key of its own side and not under that of the other.
pub proof fn lemma_order_reads_back(
    ticker: Seq<char>,
    action: OrderAction,
    side: TradeSide,
    contracts: u64,
    limit_price_cents: u64,
)
    ensures
        ({
            let order = client::order_tree(ticker, action, side, contracts, limit_price_cents);
            &&& order.text_field("ticker"@) == Some(ticker)
            &&& order.text_field("action"@) == Some(
                if action == OrderAction::Buy {
                    "buy"@
                } else {
                    "sell"@
                },
            )
            &&& order.text_field("side"@) == Some(
                if side == TradeSide::Yes {
                    "yes"@
                } else {
                    "no"@
                },
            )
            &&& order.unsigned_field("count"@) == Some(contracts)
            &&& order.text_field("type"@) == Some("limit"@)
            &&& order.unsigned_field("yes_price"@) == (if side == TradeSide::Yes {
                Some(limit_price_cents)
            } else {
                None
            })
            &&& order.unsigned_field("no_price"@) == (if side == TradeSide::No {
                Some(limit_price_cents)
            } else {
                None
            })
        }),
{
    reveal_strlit("ticker");
    reveal_strlit("action");
    reveal_strlit("side");
    reveal_strlit("count");
    reveal_strlit("type");
    reveal_strlit("yes_price");
    reveal_strlit("no_price");
    assert("ticker"@.len() == 6 && "action"@.len() == 6 && "side"@.len() == 4 && "count"@.len() == 5
        && "type"@.len() == 4 && "yes_price"@.len() == 9 && "no_price"@.len() == 8);
    assert("ticker"@[0] == 't' && "action"@[0] == 'a' && "side"@[0] == 's' && "type"@[0] == 't');
    reveal_with_fuel(json::first_under, 7);
    let order = client::order_tree(ticker, action, side, contracts, limit_price_cents);
    let e = order->Object_0;
    assert(e.len() == 6);
    assert(e.skip(1).len() == 5 && e.skip(1).skip(1).len() == 4);
    assert(e.skip(1)[0] == e[1]);
    assert(e.skip(1).skip(1)[0] == e[2]);
    assert(e.skip(1).skip(1).skip(1)[0] == e[3]);
    assert(e.skip(1).skip(1).skip(1).skip(1)[0] == e[4]);
    assert(e.skip(1).skip(1).skip(1).skip(1).skip(1)[0] == e[5]);
}

/// The balance is what is available, where the answer says that, and else the balance, where it says
/// that, and zero where what it says is no whole number.
pub proof fn lemma_balance(body: JsonTree, n: u64)
    ensures
        body.field("available_balance_cents"@) == Some(JsonTree::Unsigned(n))
            ==> client::balance_cents(body) == n,
        body.field("available_balance_cents"@) is None && body.field("balance"@) == Some(
            JsonTree::Unsigned(n),
        ) ==> client::balance_cents(body) == n,
        body.field("available_balance_cents"@) is None && body.field("balance"@) is None
            ==> client::balance_cents(body) == 0,
        body.field("available_balance_cents"@) is Some && body.field("available_balance_cents"@)->0
            !is Unsigned ==> client::balance_cents(body) == 0,
{
}

/// An answer to an order is an error where it says so, and else says how many contracts were filled,
/// in itself or under `order`; what it does not say of the rest is what the order was for, less that.
pub proof fn lemma_order_answer(
    answer: JsonTree,
    order: JsonTree,
    contracts: u64,
    count: u64,
    r: Result<OrderResponse, ClientError>,
)
    requires
        client::order_answer(answer, contracts, r),
        answer.field("order"@) == Some(order) || (answer.field("order"@) is None && order == answer),
        order.field("fill_count"@) == Some(JsonTree::Unsigned(count)) || (order.field("fill_count"@)
            is None && order.field("filled_count"@) == Some(JsonTree::Unsigned(count))),
    ensures
        answer.field("error"@) is Some <==> r is Err,
        r is Err ==> r->Err_0 == ClientError::Api,
        r is Ok ==> r->Ok_0.filled_count == count,
        r is Ok && order.field("remaining_count"@) is None && count <= contracts
            ==> r->Ok_0.remaining_count + count == contracts,
        forall|price: u64|
            answer.field("error"@) is None ==> (#[trigger] client::exit_answer(answer, price)) is Ok
                && client::exit_answer(answer, price)->Ok_0.filled_count == count
                && client::exit_answer(answer, price)->Ok_0.fill_price_cents == price,
        forall|price: u64|
            answer.field("error"@) is Some ==> (#[trigger] client::exit_answer(answer, price))
                == Err::<client::ExitResponse, ClientError>(ClientError::Api),
{
}

/// An answered order has the name that the answer gives under `id`, and else the one under `order_id`, and
/// the status that it gives; where it gives none that is a text, the name is empty and the status is not
/// known. Nothing is filled where no number says so, and what is left is the number that is given, or else
/// what the order was for, less what was filled.
pub proof fn lemma_order_is_named(
    answer: JsonTree,
    order: JsonTree,
    contracts: u64,
    r: Result<OrderResponse, ClientError>,
)
    requires
        client::order_answer(answer, contracts, r),
        answer.field("error"@) is None,
        answer.field("order"@) == Some(order) || (answer.field("order"@) is None && order == answer),
    ensures
        r is Ok,
        order.text_field("id"@) is Some ==> Some(r->Ok_0.order_id@) == order.text_field("id"@),
        order.field("id"@) is None && order.text_field("order_id"@) is Some ==> Some(
            r->Ok_0.order_id@,
        ) == order.text_field("order_id"@),
        order.field("id"@) is None && order.text_field("order_id"@) is None ==> r->Ok_0.order_id@.len()
            == 0,
        order.field("id"@) is Some && order.text_field("id"@) is None ==> r->Ok_0.order_id@.len() == 0,
        order.text_field("status"@) is Some ==> Some(r->Ok_0.status@) == order.text_field("status"@),
        order.text_field("status"@) is None ==> r->Ok_0.status@ == "unknown"@,
        order.field("fill_count"@) is None && order.unsigned_field("filled_count"@) is None
            ==> r->Ok_0.filled_count == 0,
        order.unsigned_field("remaining_count"@) is Some ==> Some(r->Ok_0.remaining_count)
            == order.unsigned_field("remaining_count"@),
        order.unsigned_field("remaining_count"@) is None && r->Ok_0.filled_count <= contracts
            ==> r->Ok_0.remaining_count + r->Ok_0.filled_count == contracts,
        order.unsigned_field("remaining_count"@) is None && r->Ok_0.filled_count > contracts
            ==> r->Ok_0.remaining_count == 0,
{
    reveal_strlit("");
}

/// Whether an entry of the exchange's positions reports one: it has a ticker, and a count that is not
/// zero.
pub open spec fn reports() -> spec_fn(JsonTree) -> bool {
    |entry: JsonTree|
        entry.text_field("ticker"@) is Some && entry.signed_field("position"@) is Some
            && entry.signed_field("position"@)->0 != 0
}

/// Whether a row of positions is that of a row of entries.
pub open spec fn positions_of(found: Seq<PositionView>, entries: Seq<JsonTree>) -> bool {
    let reporting = entries.filter(reports());
    &&& found.len() == reporting.len()
    &&& forall|i: int|
        0 <= i < found.len() ==> {
            let count = reporting[i].signed_field("position"@)->0;
            &&& Some((#[trigger] found[i]).ticker) == reporting[i].text_field("ticker"@)
            &&& count > 0 ==> found[i].side == TradeSide::Yes && found[i].contracts == count
            &&& count < 0 ==> found[i].side == TradeSide::No && found[i].contracts == -count
        }
}

/// The positions in an answer are one for each entry that reports one, in their order: on yes for a
/// positive count and on no for a negative one.
pub proof fn lemma_positions_are_reported(body: JsonTree)
    ensures
        body.array_field("market_positions"@) is Some ==> positions_of(
            client::answered_positions(body),
            body.array_field("market_positions"@)->0,
        ),
        body.array_field("market_positions"@) is None ==> client::answered_positions(body).len()
            == 0,
{
    if body.array_field("market_positions"@) is Some {
        lemma_entries_are_reported(body.array_field("market_positions"@)->0);
    }
}

proof fn lemma_entries_are_reported(entries: Seq<JsonTree>)
    ensures
        positions_of(client::reported_positions(entries), entries),
    decreases entries.len(),
{
    reveal(Seq::filter);
    if entries.len() > 0 {
        lemma_entries_are_reported(entries.drop_last());
        let rest = client::reported_positions(entries.drop_last());
        let found = client::reported_positions(entries);
        let before = entries.drop_last().filter(reports());
        let reporting = entries.filter(reports());
        assert forall|i: int| 0 <= i < rest.len() implies found[i] == #[trigger] rest[i]
            && reporting[i] == before[i] by {}
    }
}

/// A price in dollars is taken in cents: a hundred times the dollars, up to two to the power of minus
/// 36 of a cent, for at most 1024 dollars.
pub proof fn lemma_dollars_in_cents(v: JsonTree, key: Seq<char>)
    ensures
        v.decimal_field(key) is None ==> accuracy::is_whole(client::dollars_in_cents(v, key), 0),
        v.decimal_field(key) is Some && v.decimal_field(key)->0.finite() && 0 <= v.decimal_field(
            key,
        )->0.units() <= 1024 * binary64::one() ==> {
            let dollars = v.decimal_field(key)->0.units();
            let cents = client::dollars_in_cents(v, key);
            &&& cents.finite()
            &&& -pow2(1038) <= cents.units() - 100 * dollars <= pow2(1038)
        },
{
    laws::lemma_whole_exact(0);
    if v.decimal_field(key) is Some {
        let x = v.decimal_field(key)->0;
        if x.finite() && 0 <= x.units() <= 1024 * binary64::one() {
            lemma_hundredfold(x);
        }
    }
}

/// A hundred times a number of at most 1024.
pub proof fn lemma_hundredfold(x: Binary64)
    requires
        x.finite(),
        0 <= x.units() <= 1024 * binary64::one(),
    ensures
        x.product(Binary64::whole(100)).finite(),
        -pow2(1038) <= x.product(Binary64::whole(100)).units() - 100 * x.units() <= pow2(1038),
{
    let o = binary64::one();
    let u = x.units();
    let h = pow2(1038) as int;
    let hundred = Binary64::whole(100);
    lemma2_to64();
    lemma_pow2_pos(1074);
    lemma_pow2_pos(1038);
    lemma_pow2_adds(18, 1074);
    lemma_pow2_adds(1, 1038);
    laws::lemma_whole_exact(100);
    order::lemma_product_key(x, hundred);
    let n = u * (100 * o);
    let top = pow2(53 + 1039) as int;
    assert(-(o * top) < n && n < o * top) by (nonlinear_arith)
        requires
            n == u * (100 * o),
            0 <= u <= 1024 * o,
            top == 0x4_0000 * o,
            0 < o,
    {
        assert(u * (100 * o) <= (1024 * o) * (100 * o));
        assert((1024 * o) * (100 * o) == 102_400 * (o * o));
        assert(o * (0x4_0000 * o) == 0x4_0000 * (o * o));
        assert(0 < o * o);
        assert(0 <= u * (100 * o));
    }
    let p = x.product(hundred);
    order::lemma_nearest_error(p, n, o, 1039);
    let v = p.units();
    assert(-h <= v - 100 * u <= h) by (nonlinear_arith)
        requires
            -(o * (2 * h)) <= 2 * (o * v - n) <= o * (2 * h),
            n == u * (100 * o),
            0 < o,
    {
        let w = v - 100 * u;
        assert(o * v - n == o * w);
        assert(o * (2 * h) == 2 * (o * h));
        if w > h {
            assert(o * w > o * h);
        }
        if w < -h {
            assert(o * w < o * (-h));
            assert(o * (-h) == -(o * h));
        }
    }
}

/// The bids in an answer stand under `market`, or in the answer itself, each under its side's key.
pub proof fn lemma_bids_are_read(body: JsonTree, market: JsonTree)
    requires
        body.field("market"@) == Some(market) || (body.field("market"@) is None && market == body),
    ensures
        client::answered_bids(body).yes_bid_cents == client::dollars_in_cents(
            market,
            "yes_bid_dollars"@,
        ),
        client::answered_bids(body).no_bid_cents == client::dollars_in_cents(
            market,
            "no_bid_dollars"@,
        ),
        client::answered_bids(body).bid(TradeSide::Yes) == client::answered_bids(
            body,
        ).yes_bid_cents,
        client::answered_bids(body).bid(TradeSide::No) == client::answered_bids(body).no_bid_cents,
{
}

/// Whether a text has no separator of scheme and host.
pub open spec fn unseparated(s: Seq<char>) -> bool {
    forall|i: int| !#[trigger] client::separator_at(s, i)
}

/// The path of an address of scheme, host and path is that path: for a scheme without a colon, a host
/// without a slash, and a path that begins with one, or is empty, and has no separator in it.
pub proof fn lemma_path_of_an_address(scheme: Seq<char>, host: Seq<char>, path: Seq<char>)
    requires
        forall|i: int| 0 <= i < scheme.len() ==> #[trigger] scheme[i] != ':',
        forall|i: int| 0 <= i < host.len() ==> #[trigger] host[i] != '/',
        path.len() > 0 ==> path[0] == '/',
        unseparated(host + path),
    ensures
        client::url_path(scheme + "://"@ + host + path) == path,
{
    reveal_strlit("://");
    let url = scheme + "://"@ + host + path;
    let n = scheme.len() as int;
    let rest = host + path;
    assert("://"@.len() == 3 && "://"@[0] == ':' && "://"@[1] == '/' && "://"@[2] == '/');
    assert(url[n] == ':' && url[n + 1] == '/' && url[n + 2] == '/');
    assert(client::separator_at(url, n));
    assert forall|i: int| 0 <= i < n implies !#[trigger] client::separator_at(url, i) by {
        assert(url[i] == scheme[i]);
    }
    lemma_next_separator_at(url, 0, n);
    let start = n + 3;
    assert forall|i: int| start <= i < url.len() implies !#[trigger] client::separator_at(
        url,
        i,
    ) by {
        assert(!client::separator_at(rest, i - start));
        if i + 3 <= url.len() {
            assert(url[i] == rest[i - start]);
            assert(url[i + 1] == rest[i + 1 - start]);
            assert(url[i + 2] == rest[i + 2 - start]);
        }
    }
    lemma_next_separator_at(url, start, url.len() as int);
    let slash = start + host.len();
    assert forall|i: int| start <= i < slash implies #[trigger] url[i] != '/' by {
        assert(url[i] == host[i - start]);
    }
    if path.len() > 0 {
        assert(url[slash] == path[0]);
    }
    lemma_next_slash_at(url, start, slash, url.len() as int);
    assert(url.subrange(slash, url.len() as int) =~= path);
}

proof fn lemma_next_separator_at(s: Seq<char>, from: int, at: int)
    requires
        0 <= from <= at <= s.len(),
        forall|i: int| from <= i < at ==> !#[trigger] client::separator_at(s, i),
        at < s.len() ==> client::separator_at(s, at),
    ensures
        client::next_separator(s, from) == at,
    decreases at - from,
{
    if from < at {
        assert(!client::separator_at(s, from));
        lemma_next_separator_at(s, from + 1, at);
    }
}

proof fn lemma_next_slash_at(s: Seq<char>, from: int, at: int, to: int)
    requires
        0 <= from <= at <= to <= s.len(),
        forall|i: int| from <= i < at ==> #[trigger] s[i] != '/',
        at < to ==> s[at] == '/',
    ensures
        client::next_slash(s, from, to) == at,
    decreases at - from,
{
    if from < at {
        lemma_next_slash_at(s, from + 1, at, to);
    }
}

/// The bid for a position is that of its side, and the price to sell at is the number of whole cents in
/// it.
pub proof fn lemma_bid_of_the_side(bids: MarketBids, side: TradeSide)
    ensures
        ({
            let bid = bids.bid(side);
            let cents = bid.truncated();
            let o = binary64::one();
            &&& side == TradeSide::Yes ==> bid == bids.yes_bid_cents
            &&& side == TradeSide::No ==> bid == bids.no_bid_cents
            &&& bid.finite() && 0 < bid.units() < 0x10_0000 * o ==> cents * o <= bid.units() < (cents
                + 1) * o
        }),
{
    let bid = bids.bid(side);
    let o = binary64::one();
    let u = bid.units();
    lemma_pow2_pos(1074);
    if bid.finite() && 0 < u && u < 0x10_0000 * o {
        let m = binary64::magnitude_units(bid.magnitude());
        binary64::lemma_small_units(0);
        if bid.magnitude() > 0 {
            binary64::lemma_units_increase(0, bid.magnitude());
        }
        assert(u == m && !bid.negative());
        lemma_fundamental_div_mod(m, o);
        lemma_mod_bound(m, o);
        let k = m / o;
        assert(m / o <= 0x10_0000) by (nonlinear_arith)
            requires
                m == o * k + m % o,
                0 <= m % o,
                m < 0x10_0000 * o,
                0 < o,
                k == m / o,
        ;
        assert(k * o == o * k && (k + 1) * o == o * k + o) by (nonlinear_arith);
    }
}

/// A value is read as what it is: a whole number of either sign, also as the number that it is exactly, a
/// fraction as it stands, a text and a row; and as nothing else.
pub proof fn lemma_values_are_read(v: JsonTree)
    ensures
        match v {
            JsonTree::Unsigned(n) => {
                &&& v.as_unsigned() == Some(n)
                &&& n <= i64::MAX ==> v.as_signed() == Some(n as i64)
                &&& n > i64::MAX ==> v.as_signed() is None
                &&& v.as_number() is Some
                &&& n < 2 * BINADE ==> is_whole(v.as_number()->0, n as int)
            },
            JsonTree::Negative(n) => {
                &&& v.as_unsigned() is None
                &&& v.as_signed() == Some(n)
                &&& v.as_number() is Some
                &&& -(2 * BINADE) < n < 0 ==> is_whole(v.as_number()->0, n as int)
            },
            JsonTree::Float(x) => {
                &&& v.as_unsigned() is None
                &&& v.as_signed() is None
                &&& v.as_number() == Some(x)
            },
            _ => v.as_unsigned() is None && v.as_signed() is None && v.as_number() is None,
        },
        match v {
            JsonTree::Text(s) => v.as_text() == Some(s),
            _ => v.as_text() is None,
        },
        match v {
            JsonTree::Array(items) => v.as_array() == Some(items),
            _ => v.as_array() is None,
        },
{
    match v {
        JsonTree::Unsigned(n) => {
            if n < 2 * BINADE {
                laws::lemma_whole_exact(n as int);
            }
        },
        JsonTree::Negative(n) => {
            if -(2 * BINADE) < n && n < 0 {
                accuracy::lemma_signed_exact(n as int);
            }
        },
        _ => {},
    }
}

} // verus!
