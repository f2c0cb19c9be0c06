use agent_knowledge::timestamp::{civil_from_unix_days, days_in_month, is_leap_year};
use agent_knowledge::{format_utc, is_utc_timestamp};

#[test]
fn unix_epoch_formats_as_utc() {
    assert_eq!(format_utc(0).as_str(), "1970-01-01T00:00:00Z");
    assert!(is_utc_timestamp("1970-01-01T00:00:00Z"));
    assert!(is_utc_timestamp("2024-02-29T23:59:59Z"));
    assert!(!is_utc_timestamp("2023-02-29T00:00:00Z"));
    assert!(!is_utc_timestamp("2026-09-22T18:00:00+00:00"));
}

#[test]
fn leap_days_and_century_rules_format() {
    assert_eq!(format_utc(951_782_400), "2000-02-29T00:00:00Z");
    assert_eq!(format_utc(4_107_542_400), "2100-03-01T00:00:00Z");
    assert_eq!(format_utc(1_709_251_199), "2024-02-29T23:59:59Z");
    assert_eq!(format_utc(1_790_100_000), "2026-09-22T18:00:00Z");
}

#[test]
fn last_second_of_year_9999_and_the_one_after() {
    let last = format_utc(253_402_300_799);
    assert_eq!(last, "9999-12-31T23:59:59Z");
    assert!(is_utc_timestamp(&last));
    let next = format_utc(253_402_300_800);
    assert_eq!(next, "10000-01-01T00:00:00Z");
    assert!(!is_utc_timestamp(&next));
}

#[test]
fn every_formatted_day_of_a_leap_cycle_is_valid() {
    let mut seconds: u64 = 0;
    while seconds < 4 * 366 * 86_400 {
        assert!(is_utc_timestamp(&format_utc(seconds)));
        seconds += 86_400 - 1;
    }
}

#[test]
fn civil_dates_from_day_numbers() {
    assert_eq!(civil_from_unix_days(0), (1970, 1, 1));
    assert_eq!(civil_from_unix_days(59), (1970, 3, 1));
    assert_eq!(civil_from_unix_days(11_016), (2000, 2, 29));
    assert_eq!(civil_from_unix_days(2_932_896), (9999, 12, 31));
}

#[test]
fn leap_years_follow_the_gregorian_rule() {
    assert!(is_leap_year(2024));
    assert!(!is_leap_year(2023));
    assert!(!is_leap_year(1900));
    assert!(is_leap_year(2000));
    assert_eq!(days_in_month(2023, 2), 28);
    assert_eq!(days_in_month(2024, 2), 29);
    assert_eq!(days_in_month(2024, 4), 30);
    assert_eq!(days_in_month(2024, 12), 31);
    assert_eq!(days_in_month(2024, 13), 0);
    assert_eq!(days_in_month(2024, 0), 0);
}

#[test]
fn timestamps_out_of_range_are_refused() {
    assert!(!is_utc_timestamp("2024-13-01T00:00:00Z"));
    assert!(!is_utc_timestamp("2024-00-01T00:00:00Z"));
    assert!(!is_utc_timestamp("2024-04-31T00:00:00Z"));
    assert!(!is_utc_timestamp("2024-04-00T00:00:00Z"));
    assert!(!is_utc_timestamp("2024-04-30T24:00:00Z"));
    assert!(!is_utc_timestamp("2024-04-30T23:60:00Z"));
    assert!(!is_utc_timestamp("2024-04-30T23:59:60Z"));
    assert!(!is_utc_timestamp("1900-02-29T00:00:00Z"));
    assert!(is_utc_timestamp("2000-02-29T00:00:00Z"));
    assert!(!is_utc_timestamp("2024-04-30 23:59:59Z"));
    assert!(!is_utc_timestamp("2024-04-30T23:59:59z"));
    assert!(!is_utc_timestamp("2024-4-30T23:59:59Z"));
    assert!(!is_utc_timestamp("２024-04-30T23:59:59Z"));
    assert!(!is_utc_timestamp(""));
}

fn following_date(date: (i32, u32, u32)) -> (i32, u32, u32) {
    let (y, m, d) = date;
    if d < days_in_month(y as u32, m) {
        (y, m, d + 1)
    } else if m < 12 {
        (y, m + 1, 1)
    } else {
        (y + 1, 1, 1)
    }
}

#[test]
fn each_day_number_is_the_date_after_the_one_before() {
    assert_eq!(civil_from_unix_days(58), (1970, 2, 28));
    assert_eq!(civil_from_unix_days(11_015), (2000, 2, 28));
    assert_eq!(civil_from_unix_days(10_956), (1999, 12, 31));
    assert_eq!(civil_from_unix_days(10_957), (2000, 1, 1));
    let mut day: u64 = 0;
    while day < 5 * 366 {
        assert_eq!(civil_from_unix_days(day + 1), following_date(civil_from_unix_days(day)));
        day += 1;
    }
    let mut day: u64 = 2_932_000;
    while day < 2_932_896 {
        assert_eq!(civil_from_unix_days(day + 1), following_date(civil_from_unix_days(day)));
        day += 1;
    }
}

#[test]
fn later_instants_format_as_later_text() {
    let instants: [u64; 9] = [
        0,
        1,
        59,
        3_599,
        86_399,
        86_400,
        951_782_399,
        1_709_251_199,
        253_402_300_799,
    ];
    for pair in instants.windows(2) {
        let earlier = format_utc(pair[0]);
        let later = format_utc(pair[1]);
        assert!(is_utc_timestamp(&earlier));
        assert!(is_utc_timestamp(&later));
        assert!(earlier.as_bytes() < later.as_bytes());
    }
}
