use watchtower::civil::{civil_from_days, days_from_civil, parse_gm_date};

#[test]
fn parses_known_epochs() {
    assert_eq!(parse_gm_date("Jan 1 00:00:00 1970"), Some(0));
    assert_eq!(parse_gm_date("Sep 9 01:46:40 2001"), Some(1_000_000_000));
}

#[test]
fn rejects_malformed() {
    assert_eq!(parse_gm_date("Sep 16 12:00:00"), None);
    assert_eq!(parse_gm_date("Foo 16 12:00:00 2026"), None);
    assert_eq!(parse_gm_date("Sep 32 12:00:00 2026"), None);
    assert_eq!(parse_gm_date("Sep 16 25:00:00 2026"), None);
    assert_eq!(parse_gm_date(""), None);
}

#[test]
fn rejects_days_and_times_that_do_not_exist() {
    assert_eq!(parse_gm_date("Jan 1 -1:00:00 1970"), None);
    assert_eq!(parse_gm_date("Jan 1 00:-1:00 1970"), None);
    assert_eq!(parse_gm_date("Jan 1 00:00:-1 1970"), None);
    assert_eq!(parse_gm_date("Jan 1 00:60:00 1970"), None);
    assert_eq!(parse_gm_date("Jan 1 00:00:60 1970"), None);
    assert_eq!(parse_gm_date("Jan 0 00:00:00 1970"), None);
    assert_eq!(parse_gm_date("Feb 30 00:00:00 1970"), None);
    assert_eq!(parse_gm_date("Feb 29 00:00:00 1970"), None);
    assert_eq!(parse_gm_date("Feb 29 00:00:00 1900"), None);
    assert_eq!(parse_gm_date("Apr 31 00:00:00 1970"), None);
    assert_eq!(parse_gm_date("Feb 29 00:00:00 1972"), Some(68_169_600));
    assert_eq!(parse_gm_date("Feb 29 00:00:00 2000"), Some(951_782_400));
}

#[test]
fn round_trips_civil_days() {
    // 2025-09-16 05:20:00 UTC = 1758000000, so 2025-09-16 00:00:00 is
    // 1758000000 - 19200.
    assert_eq!(days_from_civil(2025, 9, 16) * 86400, 1_757_980_800);
}

#[test]
fn days_count_both_ways() {
    for days in [-719_468i64, -1, 0, 59, 10_957, 19_782, 20_347, 2_932_896] {
        let (y, m, d) = civil_from_days(days);
        assert_eq!(days_from_civil(y, m, d), days);
    }
    assert_eq!(civil_from_days(0), (1970, 1, 1));
    assert_eq!(civil_from_days(-1), (1969, 12, 31));
    assert_eq!(civil_from_days(11_016), (2000, 2, 29));
    assert_eq!(civil_from_days(2_932_896), (9999, 12, 31));
}
