use clipclip::timestamp::iso8601_utc;

fn at(unix_secs: u64, millis: u64) -> String {
    iso8601_utc((unix_secs as i128 * 1000 + millis as i128) * 1_000_000)
}

#[test]
fn formats_the_unix_epoch() {
    assert_eq!(at(0, 0), "1970-01-01T00:00:00.000Z");
}

#[test]
fn formats_known_instants_with_millis() {
    // 2021-01-01T00:00:00Z = 1_609_459_200 s since the epoch.
    assert_eq!(at(1_609_459_200, 0), "2021-01-01T00:00:00.000Z");
    // 2026-06-25T01:23:45.678Z = 1_782_350_625 s since the epoch.
    assert_eq!(at(1_782_350_625, 678), "2026-06-25T01:23:45.678Z");
}

#[test]
fn handles_leap_day() {
    // 2020-02-29T12:00:00Z = 1_582_977_600 s since the epoch.
    assert_eq!(at(1_582_977_600, 0), "2020-02-29T12:00:00.000Z");
}
