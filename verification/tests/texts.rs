//! Texts, tables, the clock and the audit trail's files.

use btc_kalshi::clock::{clock_ms, elapsed_ms, local_ts_ms};
use btc_kalshi::historian::writer::JsonlWriter;
use btc_kalshi::text::{decimal_text, join, parse_i64, parse_u64, same_text};
use btc_kalshi::ticker_map::TickerMap;

#[test]
fn whole_numbers_are_written_and_read_back() {
    for n in [0, 7, 10, 99, 100, 1_775_613_600_000, u64::MAX] {
        assert_eq!(decimal_text(n), n.to_string());
        assert_eq!(parse_u64(&decimal_text(n)), Some(n));
    }
}

#[test]
fn whole_numbers_are_read_as_the_machine_does() {
    for s in [
        "", "+", "-", "0", "007", "+5", "-5", "--5", "5 ", " 5", "5a", "1_000", "١",
        "18446744073709551615", "18446744073709551616", "9223372036854775807",
        "9223372036854775808", "-9223372036854775808", "-9223372036854775809",
        "99999999999999999999999999999999999999999999", "-0",
    ] {
        assert_eq!(parse_u64(s), s.parse::<u64>().ok(), "{s}");
        assert_eq!(parse_i64(s), s.parse::<i64>().ok(), "{s}");
    }
}

#[test]
fn texts_are_compared_and_joined() {
    assert!(same_text("aé", "aé"));
    assert!(!same_text("a", "A"));
    assert_eq!(join("a", "é"), "aé");
}

#[test]
fn tables_hold_one_value_for_each_ticker() {
    let mut t: TickerMap<u64> = TickerMap::new();
    assert_eq!(t.len(), 0);
    t.insert("A".to_string(), 1);
    t.insert("B".to_string(), 2);
    t.insert("A".to_string(), 3);
    assert_eq!(t.len(), 2);
    assert_eq!(t.get("A"), Some(&3));
    assert_eq!(t.get("C"), None);
    assert!(t.contains_key("B"));
    assert_eq!(t.remove("A"), Some(3));
    assert_eq!(t.remove("A"), None);
    assert!(!t.contains_key("A"));
    assert_eq!(t.len(), 1);
}

#[test]
fn the_clock_goes_on() {
    let a = local_ts_ms();
    let b = local_ts_ms();
    assert!(a > 1_600_000_000_000);
    assert!(b >= a);
    assert_eq!(clock_ms(None), 0);
    assert_eq!(clock_ms(Some(5)), 5);
    assert_eq!(clock_ms(Some((1u128 << 64) + 7)), 7);
    assert_eq!(elapsed_ms(5, 3), 2);
    assert_eq!(elapsed_ms(3, 5), 0);
}

#[test]
fn lines_go_into_the_file_of_their_day() {
    let mut w = JsonlWriter::new("test", "2026-01-01");
    assert_eq!(w.file_for("2026-01-01"), "test_2026-01-01.jsonl");
    let a = w.write_line("2026-01-01", r#"{"a":1}"#);
    assert!(a.open.is_none());
    assert_eq!(a.text, "{\"a\":1}\n");
    let a = w.write_line("2026-01-02", r#"{"day":2}"#);
    assert_eq!(a.open.as_deref(), Some("test_2026-01-02.jsonl"));
    // Until the file is open the day stays.
    assert!(w.write_line("2026-01-02", "x").open.is_some());
    w.opened("2026-01-02");
    assert!(w.write_line("2026-01-02", "x").open.is_none());
    assert_eq!(w.write_line("2026-01-02", "x").text, "x\n");
}
