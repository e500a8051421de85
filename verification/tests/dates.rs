use aaska::time::{Date, Timestamp, date_to_timestamp, timestamp_le};
use chrono::Datelike;

#[test]
fn epoch_start() {
    let t = date_to_timestamp(&Date { year: 1970, month: 1, day: 1 });
    assert_eq!(t, Timestamp { secs: 0, nanos: 0 });
}

#[test]
fn midsummer_2025() {
    let t = date_to_timestamp(&Date { year: 2025, month: 7, day: 29 });
    assert_eq!(t.secs, 1753747200);
    assert_eq!(t.nanos, 0);
}

#[test]
fn leap_day_2024() {
    let t = date_to_timestamp(&Date { year: 2024, month: 2, day: 29 });
    assert_eq!(t.secs, 1709164800);
}

#[test]
fn day_before_epoch() {
    let t = date_to_timestamp(&Date { year: 1969, month: 12, day: 31 });
    assert_eq!(t.secs, -86400);
}

#[test]
fn century_non_leap() {
    // 1900 is not a leap year: March 1st follows February 28th
    let feb28 = date_to_timestamp(&Date { year: 1900, month: 2, day: 28 });
    let mar1 = date_to_timestamp(&Date { year: 1900, month: 3, day: 1 });
    assert_eq!(mar1.secs - feb28.secs, 86400);
}

#[test]
fn timestamp_order_uses_nanos_on_ties() {
    let a = Timestamp { secs: 5, nanos: 10 };
    let b = Timestamp { secs: 5, nanos: 20 };
    assert!(timestamp_le(&a, &b));
    assert!(!timestamp_le(&b, &a));
}

#[test]
fn parse_date_matches_chrono() {
    let d: chrono::NaiveDate = "2025-07-29".parse().unwrap();
    assert_eq!(d.year(), 2025);
    let ours = date_to_timestamp(&Date { year: 2025, month: 7, day: 29 });
    let theirs = d.and_hms_opt(0, 0, 0).unwrap().and_utc().timestamp();
    assert_eq!(ours.secs, theirs);
}
