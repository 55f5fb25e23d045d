use railog::preprocessing::LogPreprocessor;
use railog::records::derive_timestamp;
use railog::records::parse_or;
use railog::records::LogRecord;
use railog::records::Timestamp;

fn at(secs: i64, nanos: u32) -> Timestamp {
    Timestamp { secs, nanos }
}

#[test]
fn timestamps_order_by_seconds_then_nanoseconds() {
    assert!(at(1, 0).is_before(&at(2, 0)));
    assert!(at(1, 999_999_999).is_before(&at(2, 0)));
    assert!(at(5, 1).is_before(&at(5, 2)));
    assert!(!at(5, 2).is_before(&at(5, 2)));
    assert!(!at(5, 3).is_before(&at(5, 2)));
    assert!(!at(6, 0).is_before(&at(5, 999)));
    assert!(at(-1, 0).is_before(&at(0, 0)));
}

#[test]
fn text_with_an_offset_gives_its_instant() {
    let fallback = at(7, 7);
    let read = parse_or("1983 Apr 13 12:09:14.274 +0000", "%Y %b %d %H:%M:%S%.3f %z", fallback);
    assert_eq!(read, at(419_083_754, 274_000_000));
    let east = parse_or("2015 May 15 02:00:00 +0200", "%Y %b %d %H:%M:%S %z", fallback);
    assert_eq!(east, at(1_431_648_000, 0));
}

#[test]
fn text_that_gives_no_instant_stands_for_the_fallback() {
    let fallback = at(42, 1);
    assert_eq!(parse_or("not a date", "%Y %b %d %H:%M:%S %z", fallback), fallback);
    assert_eq!(parse_or("", "%b %d %H:%M:%S %Y", fallback), fallback);
    assert_eq!(parse_or("Oct 28 12:34:56 2026", "%b %d %H:%M:%S %Y", fallback), fallback);
    assert_eq!(parse_or("2026", "%Q", fallback), fallback);
}

#[test]
fn line_without_a_readable_time_is_of_now() {
    let now = at(1_800_000_000, 5);
    assert_eq!(derive_timestamp("Oct 28 12:34:56 host sshd[1]: x", "2026", now), now);
    assert_eq!(derive_timestamp("kernel: [67890]: a message", "2026", now), now);
    assert_eq!(derive_timestamp("", "2026", now), now);
    assert_eq!(derive_timestamp("Oct 28 12:34:56", "", now), now);
}

#[test]
fn record_holds_line_time_and_canonical_text() {
    let rules = vec![r"\[\d+\]: :: [<PID>]:".to_string()];
    let preprocessor = LogPreprocessor::new(&rules).unwrap();
    let now = at(1_800_000_000, 0);
    let record = LogRecord::at("sshd[12345]: msg".to_string(), &preprocessor, "2026", now);
    assert_eq!(record.raw, "sshd[12345]: msg");
    assert_eq!(record.canonical, "sshd[<PID>]: msg");
    assert_eq!(record.timestamp, now);
}

#[test]
fn record_read_under_the_clock_is_not_older_than_the_past() {
    let preprocessor = LogPreprocessor::new(&Vec::new()).unwrap();
    let record = LogRecord::read("Jan 01 00:00:00 host x".to_string(), &preprocessor);
    assert_eq!(record.raw, "Jan 01 00:00:00 host x");
    assert_eq!(record.canonical, "Jan 01 00:00:00 host x");
    assert!(at(1_600_000_000, 0).is_before(&record.timestamp));
}
