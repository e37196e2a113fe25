//! Bodies and answers.

use btc_kalshi::executor::client::{
    exit_price, market_endpoint, order_body, order_response, path_of, read_balance, read_exit,
    read_market_bids, read_open_positions, read_order, ClientError, ExitResponse, MarketBids,
    OrderAction,
};
use btc_kalshi::json;
use btc_kalshi::json::{Json, JsonError};
use btc_kalshi::numeric::binary64::Binary64;
use btc_kalshi::types::TradeSide;

fn num(x: f64) -> Binary64 {
    Binary64::from_bits(x.to_bits())
}

fn back(x: Binary64) -> f64 {
    f64::from_bits(x.to_bits())
}

#[test]
fn balance_prefers_what_is_available() {
    assert_eq!(read_balance(r#"{"available_balance_cents":5,"balance":7}"#), Ok(5));
    assert_eq!(read_balance(r#"{"balance":7}"#), Ok(7));
    assert_eq!(read_balance(r#"{"available_balance_cents":"5","balance":7}"#), Ok(0));
    assert_eq!(read_balance(r#"{"balance":-7}"#), Ok(0));
    assert_eq!(read_balance(r#"[]"#), Ok(0));
    assert_eq!(read_balance(r#"{"balance":"#), Err(ClientError::Malformed));
}

#[test]
fn order_body_names_the_price_by_its_side() {
    let yes = order_body("T", OrderAction::Buy, &TradeSide::Yes, 3, 46);
    assert_eq!(yes.text_field("ticker"), Some("T"));
    assert_eq!(yes.text_field("action"), Some("buy"));
    assert_eq!(yes.text_field("side"), Some("yes"));
    assert_eq!(yes.text_field("type"), Some("limit"));
    assert_eq!(yes.unsigned_field("count"), Some(3));
    assert_eq!(yes.unsigned_field("yes_price"), Some(46));
    assert!(yes.get("no_price").is_none());
    let no = order_body("T", OrderAction::Sell, &TradeSide::No, 3, 46);
    assert_eq!(no.text_field("action"), Some("sell"));
    assert_eq!(no.text_field("side"), Some("no"));
    assert_eq!(no.unsigned_field("no_price"), Some(46));
    assert!(no.get("yes_price").is_none());
}

#[test]
fn order_answers_are_read() {
    let r = read_order(
        r#"{"order":{"id":"o1","order_id":"o2","status":"resting","fill_count":2,"filled_count":9}}"#,
        5,
    )
    .expect("an order");
    assert_eq!(r.order_id, "o1");
    assert_eq!(r.status, "resting");
    assert_eq!(r.filled_count, 2);
    assert_eq!(r.remaining_count, 3);
    let r = read_order(r#"{"order_id":"o2","filled_count":9,"remaining_count":1}"#, 5).unwrap();
    assert_eq!(r.order_id, "o2");
    assert_eq!(r.status, "unknown");
    assert_eq!(r.filled_count, 9);
    assert_eq!(r.remaining_count, 1);
    let r = read_order(r#"{"filled_count":9}"#, 5).unwrap();
    assert_eq!(r.order_id, "");
    assert_eq!(r.remaining_count, 0);
    let refused = read_order(r#"{"error":{"code":"x"},"order":{"id":"o"}}"#, 5);
    assert_eq!(refused.err(), Some(ClientError::Api));
    assert_eq!(read_order("?", 5).err(), Some(ClientError::Malformed));
    let null = json::parse(r#"{"error":null}"#).unwrap();
    assert_eq!(order_response(&null, 5).err(), Some(ClientError::Api));
}

#[test]
fn open_positions_are_read() {
    let found = read_open_positions(
        r#"{"market_positions":[
            {"ticker":"A","position":3,"average_yes_price":41},
            {"ticker":"B","position":-2,"average_no_price":55},
            {"ticker":"C","position":0},
            {"position":4},
            {"ticker":"D","position":1.5},
            {"ticker":"E","position":-9223372036854775808,"average_yes_price":"x"}
        ]}"#,
    )
    .expect("a document");
    assert_eq!(found.len(), 3);
    assert_eq!((found[0].ticker.as_str(), found[0].side, found[0].contracts), ("A", TradeSide::Yes, 3));
    assert_eq!(found[0].entry_price_cents, 41);
    assert_eq!((found[1].ticker.as_str(), found[1].side, found[1].contracts), ("B", TradeSide::No, 2));
    assert_eq!(found[1].entry_price_cents, 55);
    assert_eq!(found[2].contracts, 9_223_372_036_854_775_808);
    assert_eq!(found[2].entry_price_cents, 0);
    assert!(read_open_positions("{}").unwrap().is_empty());
    assert_eq!(read_open_positions("").err(), Some(ClientError::Malformed));
}

#[test]
fn bids_are_read_in_cents() {
    let bids = read_market_bids(
        r#"{"market":{"yes_bid_dollars":"0.4300","no_bid_dollars":"0.5"}}"#,
    )
    .expect("a document");
    assert_eq!(back(bids.yes_bid_cents), 0.43 * 100.0);
    assert_eq!(back(bids.no_bid_cents), 50.0);
    let bids = read_market_bids(r#"{"yes_bid_dollars":"0.1","no_bid_dollars":0.2}"#).unwrap();
    assert_eq!(back(bids.yes_bid_cents), 0.1 * 100.0);
    assert_eq!(back(bids.no_bid_cents), 0.0);
    assert_eq!(read_market_bids("x").err(), Some(ClientError::Malformed));
    assert_eq!(market_endpoint("KX"), "/markets/KX");
}

#[test]
fn sales_go_at_the_whole_cents_of_the_bid() {
    let bids = MarketBids { yes_bid_cents: num(43.9), no_bid_cents: num(0.0) };
    assert_eq!(exit_price(&TradeSide::Yes, &bids), Ok(43));
    assert_eq!(exit_price(&TradeSide::No, &bids), Err(ClientError::NoBid));
    assert_eq!(
        read_exit(r#"{"order":{"fill_count":4}}"#, 43),
        Ok(ExitResponse { filled_count: 4, fill_price_cents: 43 })
    );
    assert_eq!(
        read_exit(r#"{}"#, 43),
        Ok(ExitResponse { filled_count: 0, fill_price_cents: 43 })
    );
    assert_eq!(read_exit(r#"{"error":"no"}"#, 43), Err(ClientError::Api));
    assert_eq!(read_exit("{", 43), Err(ClientError::Malformed));
}

#[test]
fn path_of_an_address() {
    assert_eq!(path_of("https://api.elections.kalshi.com/trade-api/v2"), "/trade-api/v2");
    assert_eq!(path_of("https://host"), "");
    assert_eq!(path_of("host/path"), "");
    assert_eq!(path_of(""), "");
    assert_eq!(path_of("https://"), "");
    assert_eq!(path_of("a://b/c://d/e"), "/c");
    assert_eq!(path_of("ü://é/ñ"), "/ñ");
}

#[test]
fn documents_are_read_as_they_are() {
    let doc = json::parse(r#"{"a":[1,-2,3.5,true,null,"x"],"b":{"a":18446744073709551615}}"#)
        .expect("a document");
    let items = doc.array_field("a").expect("a row");
    assert_eq!(items.len(), 6);
    assert_eq!(items[0].as_u64(), Some(1));
    assert_eq!(items[0].as_i64(), Some(1));
    assert_eq!(items[1].as_u64(), None);
    assert_eq!(items[1].as_i64(), Some(-2));
    assert_eq!(items[1].as_number().map(back), Some(-2.0));
    assert_eq!(items[2].as_number().map(back), Some(3.5));
    assert_eq!(items[2].as_i64(), None);
    assert!(matches!(items[3], Json::Bool(true)));
    assert!(matches!(items[4], Json::Null));
    assert_eq!(items[5].as_str(), Some("x"));
    let inner = doc.get("b").expect("an object");
    assert_eq!(inner.unsigned_field("a"), Some(u64::MAX));
    assert_eq!(inner.signed_field("a"), None);
    assert_eq!(inner.number_field("a").map(back), Some(u64::MAX as f64));
    assert_eq!(inner.decimal_field("a"), None);
    assert!(doc.get("c").is_none());
    assert!(items[5].get("a").is_none());
    assert_eq!(json::parse("{\"a\":1} x").err(), Some(JsonError::Malformed));
}
