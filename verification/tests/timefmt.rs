use rehash::history::Timestamp;
use rehash::timefmt::{decimal_text, format_relative_time};

fn age(seconds: i64) -> String {
    let now = Timestamp::new(1_700_000_000, 0);
    format_relative_time(&Timestamp::new(1_700_000_000 - seconds, 0), &now)
}

#[test]
fn decimal_text_writes_digits() {
    assert_eq!(decimal_text(0), "0");
    assert_eq!(decimal_text(7), "7");
    assert_eq!(decimal_text(10), "10");
    assert_eq!(decimal_text(1234567890), "1234567890");
    assert_eq!(decimal_text(u64::MAX), "18446744073709551615");
}

#[test]
fn less_than_a_minute_is_now() {
    assert_eq!(age(0), "now");
    assert_eq!(age(59), "now");
    assert_eq!(age(-5), "now");
    assert_eq!(age(-100_000), "now");
}

#[test]
fn minutes_hours_and_days_are_whole() {
    assert_eq!(age(60), "1m ago");
    assert_eq!(age(119), "1m ago");
    assert_eq!(age(3_599), "59m ago");
    assert_eq!(age(3_600), "1h ago");
    assert_eq!(age(86_399), "23h ago");
    assert_eq!(age(86_400), "1d ago");
    assert_eq!(age(30 * 86_400), "30d ago");
}

#[test]
fn months_and_years_begin_after_30_and_365_days() {
    assert_eq!(age(31 * 86_400), "1mo ago");
    assert_eq!(age(59 * 86_400), "1mo ago");
    assert_eq!(age(60 * 86_400), "2mo ago");
    assert_eq!(age(365 * 86_400), "12mo ago");
    assert_eq!(age(366 * 86_400), "1y ago");
    assert_eq!(age(730 * 86_400), "2y ago");
}

#[test]
fn nanoseconds_count_towards_the_age() {
    let then = Timestamp::new(100, 500_000_000);
    assert_eq!(format_relative_time(&then, &Timestamp::new(160, 499_999_999)), "now");
    assert_eq!(format_relative_time(&then, &Timestamp::new(160, 500_000_000)), "1m ago");
}

#[test]
fn the_widest_span_of_instants_is_written() {
    let then = Timestamp::new(i64::MIN, 0);
    let now = Timestamp::new(i64::MAX, u32::MAX);
    assert_eq!(format_relative_time(&then, &now), "584942417355y ago");
    assert_eq!(format_relative_time(&now, &then), "now");
}
