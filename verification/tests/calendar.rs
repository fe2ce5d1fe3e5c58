use clipclip::calendar::civil_from_days;
use clipclip::timestamp::{iso8601_utc, EARLIEST, LATEST};

#[test]
fn days_have_their_dates() {
    assert_eq!(civil_from_days(0), (1970, 1, 1));
    assert_eq!(civil_from_days(-1), (1969, 12, 31));
    assert_eq!(civil_from_days(11_016), (2000, 2, 29));
    assert_eq!(civil_from_days(11_017), (2000, 3, 1));
    assert_eq!(civil_from_days(-25_509), (1900, 2, 28));
    assert_eq!(civil_from_days(-25_508), (1900, 3, 1));
    assert_eq!(civil_from_days(-719_468), (0, 3, 1));
    let (year, month, day) = civil_from_days(i64::MIN);
    assert!(year < 0 && (1..=12).contains(&month) && (1..=31).contains(&day));
}

#[test]
fn consecutive_days_have_consecutive_dates() {
    let mut last = civil_from_days(-1000);
    for z in -999..100_000i64 {
        let date = civil_from_days(z);
        assert!(date > last);
        let next_day = date.2 == last.2 + 1 && date.1 == last.1;
        let next_month = date.2 == 1 && (date.1 == last.1 + 1 || (date.1 == 1 && last.1 == 12));
        assert!(next_day || next_month);
        last = date;
    }
}

#[test]
fn instants_before_the_epoch_read_as_the_epoch() {
    assert_eq!(iso8601_utc(-1), "1970-01-01T00:00:00.000Z");
    assert_eq!(iso8601_utc(EARLIEST), "1970-01-01T00:00:00.000Z");
}

#[test]
fn milliseconds_are_cut_off() {
    assert_eq!(iso8601_utc(999_999_999), "1970-01-01T00:00:00.999Z");
    assert_eq!(iso8601_utc(1_000_000_000), "1970-01-01T00:00:01.000Z");
    assert_eq!(iso8601_utc(86_399_999_000_001), "1970-01-01T23:59:59.999Z");
}

#[test]
fn far_instants_have_long_years() {
    assert_eq!(iso8601_utc(253_402_300_800_000_000_000), "10000-01-01T00:00:00.000Z");
    assert!(iso8601_utc(LATEST).ends_with("Z"));
}
