//! UTC timestamps of the form `YYYY-MM-DDTHH:MM:SSZ`: the proleptic
//! Gregorian calendar, day numbers counted from 1970-01-01, formatting and
//! validation.
use vstd::prelude::*;

use crate::text::{
    chars_of, decimal, digit_char, push_char, text_less, push_zero_padded, signed_pad, zero_pad,
};

verus! {

// ---------------------------------------------------------------------
// The calendar
// ---------------------------------------------------------------------

/// Whether `year` is a leap year of the Gregorian calendar.
pub open spec fn leap_year(year: int) -> bool {
    year % 4 == 0 && (year % 100 != 0 || year % 400 == 0)
}

/// Number of days of `month` (1 to 12) in `year`; 0 for any other month.
pub open spec fn month_length(year: int, month: int) -> int {
    if month == 1 || month == 3 || month == 5 || month == 7 || month == 8 || month == 10
        || month == 12 {
        31
    } else if month == 4 || month == 6 || month == 9 || month == 11 {
        30
    } else if month == 2 {
        if leap_year(year) {
            29
        } else {
            28
        }
    } else {
        0
    }
}

/// Whether `year-month-day` names a day of the calendar.
pub open spec fn valid_date(year: int, month: int, day: int) -> bool {
    1 <= month <= 12 && 1 <= day <= month_length(year, month)
}

/// Number of leap years among the years 1 to `n`, for `n >= 0`.
pub open spec fn leaps_through(n: int) -> int {
    n / 4 - n / 100 + n / 400
}

/// Days of `year` that come before the first day of `month`.
pub open spec fn days_before_month(year: int, month: int) -> int {
    let base = if month == 1 {
        0int
    } else if month == 2 {
        31
    } else if month == 3 {
        59
    } else if month == 4 {
        90
    } else if month == 5 {
        120
    } else if month == 6 {
        151
    } else if month == 7 {
        181
    } else if month == 8 {
        212
    } else if month == 9 {
        243
    } else if month == 10 {
        273
    } else if month == 11 {
        304
    } else {
        334
    };
    if month > 2 && leap_year(year) {
        base + 1
    } else {
        base
    }
}

/// Day number of `year-month-day`: the number of days from 1970-01-01 to it
/// (negative before 1970).
pub open spec fn days_from_civil(year: int, month: int, day: int) -> int {
    365 * (year - 1970) + (leaps_through(year - 1) - leaps_through(1969)) + days_before_month(
        year,
        month,
    ) + day - 1
}

/// The calendar date whose day number is `days`.
pub open spec fn civil_from_days(days: int) -> (int, int, int) {
    choose|year: int, month: int, day: int|
        valid_date(year, month, day) && days_from_civil(year, month, day) == days
}

proof fn lemma_leaps_step(n: int)
    ensures
        leaps_through(n) - leaps_through(n - 1) == (if leap_year(n) { 1int } else { 0int }),
{
}

proof fn lemma_year_length(year: int)
    ensures
        days_from_civil(year + 1, 1, 1) - days_from_civil(year, 1, 1) == 365 + (if leap_year(
            year,
        ) {
            1int
        } else {
            0int
        }),
{
    lemma_leaps_step(year);
}

proof fn lemma_years_ordered(a: int, b: int)
    requires
        a <= b,
    ensures
        days_from_civil(b, 1, 1) - days_from_civil(a, 1, 1) >= 365 * (b - a),
    decreases b - a,
{
    if a < b {
        lemma_years_ordered(a, b - 1);
        lemma_year_length(b - 1);
    }
}

/// Every valid date lies within its year.
proof fn lemma_date_within_year(year: int, month: int, day: int)
    requires
        valid_date(year, month, day),
    ensures
        days_from_civil(year, 1, 1) <= days_from_civil(year, month, day) < days_from_civil(
            year + 1,
            1,
            1,
        ),
{
    lemma_year_length(year);
}

/// Distinct calendar dates have distinct day numbers.
pub proof fn lemma_day_numbers_unique(y1: int, m1: int, d1: int, y2: int, m2: int, d2: int)
    requires
        valid_date(y1, m1, d1),
        valid_date(y2, m2, d2),
        days_from_civil(y1, m1, d1) == days_from_civil(y2, m2, d2),
    ensures
        y1 == y2,
        m1 == m2,
        d1 == d2,
{
    lemma_date_within_year(y1, m1, d1);
    lemma_date_within_year(y2, m2, d2);
    if y1 < y2 {
        lemma_years_ordered(y1 + 1, y2);
    } else if y2 < y1 {
        lemma_years_ordered(y2 + 1, y1);
    }
}

// ---------------------------------------------------------------------
// Days to date, by 400-year eras of 146097 days counted from 0000-03-01
// ---------------------------------------------------------------------

/// Year of the era (counted from March) in which day `doe` of the era falls.
spec fn year_of_era(doe: int) -> int {
    (doe - doe / 1460 + doe / 36524 - doe / 146096) / 365
}

/// First day, within its era, of the March-based year `k` of the era.
spec fn era_year_start(k: int) -> int {
    if k >= 400 {
        146097
    } else {
        365 * k + k / 4 - k / 100
    }
}

/// Cumulative days before March-based month `mp` (0 is March, 11 is February).
spec fn march_offset(mp: int) -> int {
    (153 * mp + 2) / 5
}

spec fn month_of_march_index(mp: int) -> int {
    if mp < 10 {
        mp + 3
    } else {
        mp - 9
    }
}

spec fn day_of_year_fact(doy: int) -> bool {
    let mp = (5 * doy + 2) / 153;
    let d = doy - march_offset(mp) + 1;
    &&& 0 <= mp <= 11
    &&& 1 <= d
    &&& d <= month_length(2001, month_of_march_index(mp)) || (mp == 11 && d == 29)
    &&& (mp == 11 ==> doy == 336 + d)
    &&& march_offset(mp) == if mp < 10 {
        days_before_month(2001, month_of_march_index(mp)) - 59
    } else {
        days_before_month(2001, month_of_march_index(mp)) + 306
    }
}

/// Within year `k` of an era, every day `r` of the year is mapped back to `k`.
proof fn lemma_year_of_era_in_year(k: int, r: int)
    requires
        0 <= k < 400,
        0 <= r < 365 + (if leap_year(k + 1) { 1int } else { 0int }),
    ensures
        year_of_era(era_year_start(k) + r) == k,
        era_year_start(k + 1) - era_year_start(k) == 365 + (if leap_year(k + 1) {
            1int
        } else {
            0int
        }),
{
    let c = k / 100;
    let q = (k % 100) / 4;
    let t = k % 4;
    assert(k == 100 * c + 4 * q + t);
    assert(0 <= c <= 3 && 0 <= q <= 24 && 0 <= t <= 3);
    assert(k / 4 == 25 * c + q);
    let doe = era_year_start(k) + r;
    assert(era_year_start(k) == 365 * k + 24 * c + q);
    assert(leap_year(k + 1) <==> (t == 3 && (q < 24 || c == 3))) by {
        if t == 3 {
            assert(k + 1 == 100 * c + 4 * (q + 1));
            assert((k + 1) % 4 == 0);
            if q == 24 {
                assert(k + 1 == 100 * (c + 1));
                assert((k + 1) % 100 == 0);
                assert(((k + 1) % 400 == 0) <==> c == 3);
            } else {
                assert((k + 1) % 100 == 4 * (q + 1));
            }
        } else {
            assert((k + 1) % 4 == t + 1);
        }
    }
    if k < 399 {
        assert((k + 1) / 4 == k / 4 + (if t == 3 { 1int } else { 0int }));
        assert((k + 1) / 100 == k / 100 + (if t == 3 && q == 24 { 1int } else { 0int }));
    }
    let big_r = 24 * c + q + 365 * t + r;
    assert(doe == 1460 * (25 * c + q) + big_r);
    assert(0 <= big_r < 2920);
    let one_if_r = if big_r >= 1460 { 1int } else { 0int };
    assert(doe / 1460 == 25 * c + q + one_if_r) by {
        vstd::arithmetic::div_mod::lemma_fundamental_div_mod_converse(
            doe,
            1460,
            25 * c + q + one_if_r,
            big_r - 1460 * one_if_r,
        );
    }
    let s = 1461 * q + 365 * t + r;
    assert(doe == 36524 * c + s);
    assert(0 <= s <= 36524);
    let one_if_s = if s == 36524 { 1int } else { 0int };
    assert(doe / 36524 == c + one_if_s) by {
        vstd::arithmetic::div_mod::lemma_fundamental_div_mod_converse(
            doe,
            36524,
            c + one_if_s,
            s - 36524 * one_if_s,
        );
    }
    let one_if_end = if doe == 146096 { 1int } else { 0int };
    assert(doe <= 146096);
    assert(doe / 146096 == one_if_end) by {
        vstd::arithmetic::div_mod::lemma_fundamental_div_mod_converse(
            doe,
            146096,
            one_if_end,
            doe - 146096 * one_if_end,
        );
    }
    assert(one_if_s == one_if_end);
    let n = doe - doe / 1460 + doe / 36524 - doe / 146096;
    assert(n == 365 * k + r - one_if_r);
    assert(r == 365 ==> one_if_r == 1);
    assert(r == 0 ==> one_if_r == 0);
    assert(365 * k <= n < 365 * k + 365);
    vstd::arithmetic::div_mod::lemma_fundamental_div_mod_converse(n, 365, k, n - 365 * k);
}

/// Some year of the era contains day `doe`, for `0 <= doe < era_year_start(k + 1)`.
proof fn lemma_some_year_holds(doe: int, k: int) -> (j: int)
    requires
        0 <= k < 400,
        0 <= doe < era_year_start(k + 1),
    ensures
        0 <= j <= k,
        era_year_start(j) <= doe < era_year_start(j + 1),
    decreases k,
{
    if doe >= era_year_start(k) || k == 0 {
        k
    } else {
        lemma_some_year_holds(doe, k - 1)
    }
}

/// The era's day `doe` falls in March-based year `year_of_era(doe)`, between
/// that year's first day and the next year's.
proof fn lemma_year_of_era_bounds(doe: int)
    requires
        0 <= doe <= 146096,
    ensures
        0 <= year_of_era(doe) < 400,
        era_year_start(year_of_era(doe)) <= doe < era_year_start(year_of_era(doe) + 1),
        era_year_start(year_of_era(doe) + 1) - era_year_start(year_of_era(doe)) == 365 + (
        if leap_year(year_of_era(doe) + 1) {
            1int
        } else {
            0int
        }),
{
    let j = lemma_some_year_holds(doe, 399);
    let r = doe - era_year_start(j);
    assert(r < 365 + (if leap_year(j + 1) { 1int } else { 0int })) by {
        lemma_year_of_era_in_year(j, 0);
    }
    lemma_year_of_era_in_year(j, r);
}

/// Day `doy` (from 0) of a March-based year, in March-based month `mp`
/// (0 is March, 11 is February) on day `d` of that month.
proof fn lemma_day_of_year(doy: int)
    requires
        0 <= doy < 366,
    ensures
        day_of_year_fact(doy),
{
    let mp = (5 * doy + 2) / 153;
    if doy < 31 {
        assert(mp == 0);
    } else if doy < 61 {
        assert(mp == 1);
    } else if doy < 92 {
        assert(mp == 2);
    } else if doy < 122 {
        assert(mp == 3);
    } else if doy < 153 {
        assert(mp == 4);
    } else if doy < 184 {
        assert(mp == 5);
    } else if doy < 214 {
        assert(mp == 6);
    } else if doy < 245 {
        assert(mp == 7);
    } else if doy < 275 {
        assert(mp == 8);
    } else if doy < 306 {
        assert(mp == 9);
    } else if doy < 337 {
        assert(mp == 10);
    } else {
        assert(mp == 11);
    }
}

/// The date of day `doy` (from 0) of the March-based year that starts on
/// the first of March of `year`.
spec fn date_in_march_year(year: int, doy: int) -> (int, int, int) {
    let mp = (5 * doy + 2) / 153;
    let d = doy - march_offset(mp) + 1;
    let m = month_of_march_index(mp);
    (if m <= 2 {
        year + 1
    } else {
        year
    }, m, d)
}

/// The date computed from `days` by eras, years of era and March-based
/// months, as `civil_from_unix_days` computes it.
spec fn civil_by_eras(days: int) -> (int, int, int) {
    let z = days + 719468;
    let era = z / 146097;
    let doe = z - era * 146097;
    let yoe = year_of_era(doe);
    date_in_march_year(yoe + era * 400, doe - era_year_start(yoe))
}

proof fn lemma_leaps_by_era(era: int, k: int)
    requires
        0 <= k < 400,
        era >= 0,
    ensures
        leaps_through(era * 400 + k) == era * 97 + k / 4 - k / 100 + k / 400,
{
    let n = era * 400 + k;
    assert(n / 4 == era * 100 + k / 4) by {
        vstd::arithmetic::div_mod::lemma_fundamental_div_mod_converse(
            n,
            4,
            era * 100 + k / 4,
            k % 4,
        );
    }
    assert(n / 100 == era * 4 + k / 100) by {
        vstd::arithmetic::div_mod::lemma_fundamental_div_mod_converse(
            n,
            100,
            era * 4 + k / 100,
            k % 100,
        );
    }
    assert(n / 400 == era) by {
        vstd::arithmetic::div_mod::lemma_fundamental_div_mod_converse(n, 400, era, k);
    }
}

/// Day `doy` of the March-based year starting in `year` is a valid date
/// whose day number counts the days since 0000-03-01, less 719468.
proof fn lemma_date_in_march_year(year: int, doy: int)
    requires
        year >= 0,
        0 <= doy < 365 + (if leap_year(year + 1) { 1int } else { 0int }),
    ensures
        valid_date(
            date_in_march_year(year, doy).0,
            date_in_march_year(year, doy).1,
            date_in_march_year(year, doy).2,
        ),
        days_from_civil(
            date_in_march_year(year, doy).0,
            date_in_march_year(year, doy).1,
            date_in_march_year(year, doy).2,
        ) == 365 * year + leaps_through(year) + doy - 719468,
{
    lemma_day_of_year(doy);
    let mp = (5 * doy + 2) / 153;
    let d = doy - march_offset(mp) + 1;
    let m = month_of_march_index(mp);
    if m <= 2 {
        lemma_leaps_step(year + 1);
        assert(valid_date(year + 1, m, d));
        assert(days_from_civil(year + 1, m, d) == 365 * year + leaps_through(year) + doy
            - 719468);
    } else {
        lemma_leaps_step(year);
        assert(days_before_month(year, m) == days_before_month(2001, m) + (if leap_year(year) {
            1int
        } else {
            0int
        }));
        assert(valid_date(year, m, d));
        assert(days_from_civil(year, m, d) == 365 * year + leaps_through(year) + doy - 719468);
    }
}

/// The era computation yields the calendar date of `days`.
#[verifier::spinoff_prover]
#[verifier::rlimit(30)]
proof fn lemma_civil_by_eras(days: int)
    requires
        days >= 0,
    ensures
        valid_date(civil_by_eras(days).0, civil_by_eras(days).1, civil_by_eras(days).2),
        days_from_civil(civil_by_eras(days).0, civil_by_eras(days).1, civil_by_eras(days).2)
            == days,
        civil_by_eras(days).0 >= 1970,
{
    let z = days + 719468;
    let era = z / 146097;
    let doe = z - era * 146097;
    assert(0 <= doe < 146097);
    assert(era >= 4);
    lemma_year_of_era_bounds(doe);
    let yoe = year_of_era(doe);
    let doy = doe - era_year_start(yoe);
    let y = yoe + era * 400;
    assert(leap_year(y + 1) == leap_year(yoe + 1)) by {
        assert((y + 1) % 4 == (yoe + 1) % 4);
        assert((y + 1) % 100 == (yoe + 1) % 100);
        assert((y + 1) % 400 == (yoe + 1) % 400);
    }
    lemma_leaps_by_era(era, yoe);
    assert(era * 146097 + era_year_start(yoe) == 365 * y + leaps_through(y)) by {
        assert(yoe / 400 == 0);
    }
    lemma_date_in_march_year(y, doy);
}

/// The date of day number `days` (for `days >= 0`) is the one computed by eras.
proof fn lemma_civil_from_days(days: int)
    requires
        days >= 0,
    ensures
        civil_from_days(days) == civil_by_eras(days),
        valid_date(civil_from_days(days).0, civil_from_days(days).1, civil_from_days(days).2),
        days_from_civil(civil_from_days(days).0, civil_from_days(days).1, civil_from_days(days).2)
            == days,
        civil_from_days(days).0 >= 1970,
{
    lemma_civil_by_eras(days);
    let (y, m, d) = civil_by_eras(days);
    assert(valid_date(y, m, d) && days_from_civil(y, m, d) == days);
    let (y2, m2, d2) = civil_from_days(days);
    lemma_day_numbers_unique(y, m, d, y2, m2, d2);
}

/// Howard Hinnant's `civil_from_days`, with `days` counted from 1970-01-01.
/// The year is truncated to `i32` as a cast does.
pub fn civil_from_unix_days(days: u64) -> (r: (i32, u32, u32))
    requires
        days <= u64::MAX / 86400,
    ensures
        r.0 == civil_from_days(days as int).0 as i32,
        r.1 == civil_from_days(days as int).1,
        r.2 == civil_from_days(days as int).2,
{
    proof {
        lemma_civil_from_days(days as int);
        lemma_civil_by_eras(days as int);
        lemma_year_of_era_bounds((days + 719468) % 146097);
    }
    let z: i64 = days as i64 + 719_468;
    let era: i64 = z / 146_097;
    let day_of_era: u64 = (z - era * 146_097) as u64;
    assert(day_of_era == (days + 719468) % 146097);
    let year_of_era_v: u64 = (day_of_era - day_of_era / 1_460 + day_of_era / 36_524
        - day_of_era / 146_096) / 365;
    assert(year_of_era_v == year_of_era(day_of_era as int));
    let year: i64 = year_of_era_v as i64 + era * 400;
    let day_of_year: u64 = day_of_era - (365 * year_of_era_v + year_of_era_v / 4 - year_of_era_v
        / 100);
    assert(day_of_year == day_of_era - era_year_start(year_of_era_v as int));
    proof {
        lemma_day_of_year(day_of_year as int);
    }
    let month_part: u64 = (5 * day_of_year + 2) / 153;
    let day: u64 = day_of_year - (153 * month_part + 2) / 5 + 1;
    let month: u64 = if month_part < 10 {
        month_part + 3
    } else {
        month_part - 9
    };
    let year: i64 = if month <= 2 {
        year + 1
    } else {
        year
    };
    (year as i32, month as u32, day as u32)
}

// ---------------------------------------------------------------------
// Formatting
// ---------------------------------------------------------------------

/// `seconds` after the Unix epoch written as `YYYY-MM-DDTHH:MM:SSZ`, each
/// field zero-padded as `format!` pads it; the year is that of
/// `civil_from_unix_days`, truncated to `i32`.
pub open spec fn utc_text(seconds: nat) -> Seq<char> {
    let days = seconds / 86400;
    let time = seconds % 86400;
    let date = civil_from_days(days as int);
    signed_pad((date.0 as i32) as int, 4) + seq!['-'] + zero_pad(decimal(date.1 as nat), 2)
        + seq!['-'] + zero_pad(decimal(date.2 as nat), 2) + seq!['T'] + zero_pad(
        decimal(time / 3600),
        2,
    ) + seq![':'] + zero_pad(decimal((time % 3600) / 60), 2) + seq![':'] + zero_pad(
        decimal(time % 60),
        2,
    ) + seq!['Z']
}

/// Formats `seconds` after the Unix epoch as a UTC timestamp.
#[verifier::spinoff_prover]
#[verifier::rlimit(40)]
pub fn format_utc(seconds: u64) -> (r: String)
    ensures
        r@ == utc_text(seconds as nat),
{
    let days = seconds / 86_400;
    let time = seconds % 86_400;
    let hour = time / 3_600;
    let minute = (time % 3_600) / 60;
    let second = time % 60;
    let (year, month, day) = civil_from_unix_days(days);
    proof {
        lemma_civil_from_days(days as int);
    }
    let mut s = String::new();
    if year < 0 {
        push_char(&mut s, '-');
        let magnitude: i64 = -(year as i64);
        push_zero_padded(&mut s, magnitude as u64, 3);
    } else {
        push_zero_padded(&mut s, year as u64, 4);
    }
    assert(s@ == signed_pad(year as int, 4));
    push_char(&mut s, '-');
    push_zero_padded(&mut s, month as u64, 2);
    push_char(&mut s, '-');
    push_zero_padded(&mut s, day as u64, 2);
    push_char(&mut s, 'T');
    push_zero_padded(&mut s, hour, 2);
    push_char(&mut s, ':');
    push_zero_padded(&mut s, minute, 2);
    push_char(&mut s, ':');
    push_zero_padded(&mut s, second, 2);
    push_char(&mut s, 'Z');
    s
}

// ---------------------------------------------------------------------
// Validation
// ---------------------------------------------------------------------

/// Whether `c` is an ASCII decimal digit.
pub open spec fn is_digit(c: char) -> bool {
    '0' <= c && c <= '9'
}

/// Whether every character of `s` is an ASCII decimal digit.
pub open spec fn all_digits(s: Seq<char>) -> bool {
    forall|i: int| 0 <= i < s.len() ==> is_digit(#[trigger] s[i])
}

/// The number written by the decimal digits `s` (0 for no digits).
pub open spec fn digits_value(s: Seq<char>) -> int
    decreases s.len(),
{
    if s.len() == 0 {
        0
    } else {
        digits_value(s.drop_last()) * 10 + (s.last() as int - 48)
    }
}

/// `10` to the power `n`.
pub open spec fn pow10(n: nat) -> int
    decreases n,
{
    if n == 0 {
        1
    } else {
        10 * pow10((n - 1) as nat)
    }
}

/// The number written by the digits of `s` from `start` to `end`.
pub open spec fn number_at(s: Seq<char>, start: int, end: int) -> int {
    digits_value(s.subrange(start, end))
}

/// Whether `s` is a UTC timestamp `YYYY-MM-DDTHH:MM:SSZ` naming a real
/// second: month 1 to 12, a day that the month has, hour below 24, minute
/// and second below 60.
pub open spec fn is_utc_timestamp_text(s: Seq<char>) -> bool {
    &&& s.len() == 20
    &&& s[4] == '-'
    &&& s[7] == '-'
    &&& s[10] == 'T'
    &&& s[13] == ':'
    &&& s[16] == ':'
    &&& s[19] == 'Z'
    &&& all_digits(s.subrange(0, 4))
    &&& all_digits(s.subrange(5, 7))
    &&& all_digits(s.subrange(8, 10))
    &&& all_digits(s.subrange(11, 13))
    &&& all_digits(s.subrange(14, 16))
    &&& all_digits(s.subrange(17, 19))
    &&& 1 <= number_at(s, 5, 7) <= 12
    &&& number_at(s, 11, 13) <= 23
    &&& number_at(s, 14, 16) <= 59
    &&& number_at(s, 17, 19) <= 59
    &&& 1 <= number_at(s, 8, 10) <= month_length(number_at(s, 0, 4), number_at(s, 5, 7))
}

proof fn lemma_pow10_ordered(a: nat, b: nat)
    requires
        a <= b,
    ensures
        1 <= pow10(a) <= pow10(b),
    decreases b,
{
    if a < b {
        lemma_pow10_ordered(a, (b - 1) as nat);
    } else if b > 0 {
        lemma_pow10_ordered(0, (b - 1) as nat);
    }
}

/// The Gregorian leap-year rule.
pub fn is_leap_year(year: u32) -> (r: bool)
    ensures
        r == leap_year(year as int),
{
    year.is_multiple_of(4) && (!year.is_multiple_of(100) || year.is_multiple_of(400))
}

/// Number of days of `month` in `year`; 0 when `month` is not 1 to 12.
pub fn days_in_month(year: u32, month: u32) -> (r: u32)
    ensures
        r == month_length(year as int, month as int),
{
    if month == 1 || month == 3 || month == 5 || month == 7 || month == 8 || month == 10
        || month == 12 {
        31
    } else if month == 4 || month == 6 || month == 9 || month == 11 {
        30
    } else if month == 2 && is_leap_year(year) {
        29
    } else if month == 2 {
        28
    } else {
        0
    }
}

/// The number written by the decimal digits `s`, or `None` when a
/// character of `s` is not a digit.
pub fn parse_digits(s: &[char]) -> (r: Option<u32>)
    requires
        s@.len() <= 9,
    ensures
        r is Some <==> all_digits(s@),
        r matches Some(v) ==> v == digits_value(s@),
{
    let mut value: u32 = 0;
    let mut i: usize = 0;
    proof {
        lemma_pow10_ordered(s@.len(), 9);
        reveal_with_fuel(pow10, 10);
    }
    while i < s.len()
        invariant
            i <= s@.len() <= 9,
            all_digits(s@.subrange(0, i as int)),
            value == digits_value(s@.subrange(0, i as int)),
            value < pow10(i as nat),
            pow10(s@.len()) <= 1_000_000_000,
        decreases s@.len() - i,
    {
        let c = s[i];
        if c < '0' || c > '9' {
            assert(s@.subrange(0, s@.len() as int)[i as int] == c);
            assert(s@.subrange(0, s@.len() as int) == s@);
            return None;
        }
        proof {
            lemma_pow10_ordered((i + 1) as nat, s@.len());
            assert(s@.subrange(0, i + 1).drop_last() == s@.subrange(0, i as int));
        }
        value = value * 10 + (c as u32 - 48);
        i = i + 1;
    }
    assert(s@.subrange(0, s@.len() as int) == s@);
    Some(value)
}

/// Whether the characters of `s` form a UTC timestamp.
pub fn timestamp_text_valid(s: &[char]) -> (r: bool)
    ensures
        r == is_utc_timestamp_text(s@),
{
    if s.len() != 20 || s[4] != '-' || s[7] != '-' || s[10] != 'T' || s[13] != ':' || s[16]
        != ':' || s[19] != 'Z' {
        return false;
    }
    let year = match parse_digits(vstd::slice::slice_subrange(s, 0, 4)) {
        Some(v) => v,
        None => return false,
    };
    let month = match parse_digits(vstd::slice::slice_subrange(s, 5, 7)) {
        Some(v) => v,
        None => return false,
    };
    let day = match parse_digits(vstd::slice::slice_subrange(s, 8, 10)) {
        Some(v) => v,
        None => return false,
    };
    let hour = match parse_digits(vstd::slice::slice_subrange(s, 11, 13)) {
        Some(v) => v,
        None => return false,
    };
    let minute = match parse_digits(vstd::slice::slice_subrange(s, 14, 16)) {
        Some(v) => v,
        None => return false,
    };
    let second = match parse_digits(vstd::slice::slice_subrange(s, 17, 19)) {
        Some(v) => v,
        None => return false,
    };
    if month < 1 || month > 12 || hour > 23 || minute > 59 || second > 59 {
        return false;
    }
    1 <= day && day <= days_in_month(year, month)
}

/// Whether `value` is a UTC timestamp `YYYY-MM-DDTHH:MM:SSZ` naming a real
/// second of the calendar.
pub fn is_utc_timestamp(value: &str) -> (r: bool)
    ensures
        r == is_utc_timestamp_text(value@),
{
    let cs = chars_of(value);
    timestamp_text_valid(cs.as_slice())
}

// ---------------------------------------------------------------------
// Formatting yields valid timestamps
// ---------------------------------------------------------------------

proof fn lemma_decimal_digits(n: nat)
    ensures
        all_digits(decimal(n)),
        digits_value(decimal(n)) == n,
        decimal(n).len() >= 1,
    decreases n,
{
    assert(digit_char(n % 10) as int == n % 10 + 48);
    assert(decimal(n).last() == digit_char(n % 10));
    if n >= 10 {
        lemma_decimal_digits(n / 10);
        assert(decimal(n).drop_last() == decimal(n / 10));
    } else {
        assert(decimal(n).drop_last() == Seq::<char>::empty());
    }
    assert(digits_value(decimal(n)) == digits_value(decimal(n).drop_last()) * 10 + (decimal(
        n,
    ).last() as int - 48));
}

proof fn lemma_decimal_length(n: nat, k: nat)
    requires
        k >= 1,
        n < pow10(k),
    ensures
        decimal(n).len() <= k,
    decreases n,
{
    if n >= 10 {
        assert(k >= 2) by {
            if k == 1 {
                assert(pow10(1) == 10) by {
                    reveal_with_fuel(pow10, 2);
                }
            }
        }
        lemma_decimal_length(n / 10, (k - 1) as nat);
    }
}

proof fn lemma_zeros_value(z: nat, s: Seq<char>)
    ensures
        digits_value(Seq::new(z, |i: int| '0') + s) == digits_value(s),
    decreases s.len(), z,
{
    let zs = Seq::new(z, |i: int| '0');
    if s.len() == 0 {
        assert(zs + s == zs);
        if z > 0 {
            assert(zs.drop_last() == Seq::new((z - 1) as nat, |i: int| '0') + s);
            lemma_zeros_value((z - 1) as nat, s);
        }
    } else {
        assert((zs + s).drop_last() == zs + s.drop_last());
        lemma_zeros_value(z, s.drop_last());
    }
}

proof fn lemma_zero_pad(s: Seq<char>, w: nat)
    requires
        all_digits(s),
    ensures
        all_digits(zero_pad(s, w)),
        digits_value(zero_pad(s, w)) == digits_value(s),
        zero_pad(s, w).len() == if s.len() < w {
            w as int
        } else {
            s.len() as int
        },
{
    if s.len() < w {
        lemma_zeros_value((w - s.len()) as nat, s);
        let t = zero_pad(s, w);
        assert forall|i: int| 0 <= i < t.len() implies is_digit(#[trigger] t[i]) by {
            if i >= w - s.len() {
                assert(t[i] == s[i - (w - s.len())]);
            }
        }
    }
}

/// `n` in decimal, zero-padded to width `w`, is all digits, exactly `w`
/// long and worth `n`, when `n` has at most `w` digits.
proof fn lemma_padded_field(n: nat, w: nat)
    requires
        w >= 1,
        n < pow10(w),
    ensures
        all_digits(zero_pad(decimal(n), w)),
        digits_value(zero_pad(decimal(n), w)) == n,
        zero_pad(decimal(n), w).len() == w,
{
    lemma_decimal_digits(n);
    lemma_decimal_length(n, w);
    lemma_zero_pad(decimal(n), w);
}

/// Every instant before the year 10000 formats as a valid UTC timestamp.
pub proof fn lemma_formatted_time_is_valid(seconds: nat)
    requires
        seconds < 253402300800,
    ensures
        is_utc_timestamp_text(utc_text(seconds)),
{
    let days = seconds / 86400;
    let time = seconds % 86400;
    lemma_civil_from_days(days as int);
    let (y, m, d) = civil_from_days(days as int);
    assert(y <= 9999) by {
        if y >= 10000 {
            lemma_date_within_year(y, m, d);
            lemma_years_ordered(10000, y);
        }
    }
    assert((y as i32) as int == y);
    reveal_with_fuel(pow10, 5);
    lemma_padded_field(y as nat, 4);
    lemma_padded_field(m as nat, 2);
    lemma_padded_field(d as nat, 2);
    lemma_padded_field(time / 3600, 2);
    lemma_padded_field((time % 3600) / 60, 2);
    lemma_padded_field(time % 60, 2);
    let a = zero_pad(decimal(y as nat), 4);
    let b = zero_pad(decimal(m as nat), 2);
    let c = zero_pad(decimal(d as nat), 2);
    let e = zero_pad(decimal(time / 3600), 2);
    let f = zero_pad(decimal((time % 3600) / 60), 2);
    let g = zero_pad(decimal(time % 60), 2);
    let t = utc_text(seconds);
    assert(signed_pad((y as i32) as int, 4) == a);
    assert(t == a + seq!['-'] + b + seq!['-'] + c + seq!['T'] + e + seq![':'] + f + seq![':'] + g
        + seq!['Z']);
    assert(t.len() == 20);
    assert(t.subrange(0, 4) == a);
    assert(t.subrange(5, 7) == b);
    assert(t.subrange(8, 10) == c);
    assert(t.subrange(11, 13) == e);
    assert(t.subrange(14, 16) == f);
    assert(t.subrange(17, 19) == g);
    assert(t[4] == '-' && t[7] == '-' && t[10] == 'T' && t[13] == ':' && t[16] == ':' && t[19]
        == 'Z');
}

// ---------------------------------------------------------------------
// Consecutive days
// ---------------------------------------------------------------------

/// The calendar date that follows `year-month-day`.
pub open spec fn next_date(year: int, month: int, day: int) -> (int, int, int) {
    if day < month_length(year, month) {
        (year, month, day + 1)
    } else if month < 12 {
        (year, month + 1, 1)
    } else {
        (year + 1, 1, 1)
    }
}

proof fn lemma_month_step(year: int, month: int)
    requires
        1 <= month < 12,
    ensures
        days_before_month(year, month + 1) == days_before_month(year, month) + month_length(
            year,
            month,
        ),
{
}

/// The date after a valid date is valid, one day number later.
proof fn lemma_next_date(year: int, month: int, day: int)
    requires
        valid_date(year, month, day),
    ensures
        valid_date(next_date(year, month, day).0, next_date(year, month, day).1, next_date(year, month, day).2),
        days_from_civil(next_date(year, month, day).0, next_date(year, month, day).1, next_date(year, month, day).2)
            == days_from_civil(year, month, day) + 1,
{
    if day == month_length(year, month) {
        if month < 12 {
            lemma_month_step(year, month);
        } else {
            lemma_year_length(year);
        }
    }
}

/// Day number `days + 1` is the date after that of `days`: counting days
/// walks the calendar one date at a time, through valid dates only.
pub proof fn lemma_next_day(days: int)
    requires
        days >= 0,
    ensures
        valid_date(civil_from_days(days).0, civil_from_days(days).1, civil_from_days(days).2),
        civil_from_days(days + 1) == next_date(
            civil_from_days(days).0,
            civil_from_days(days).1,
            civil_from_days(days).2,
        ),
{
    lemma_civil_from_days(days);
    lemma_civil_from_days(days + 1);
    let (y, m, d) = civil_from_days(days);
    lemma_next_date(y, m, d);
    let (y2, m2, d2) = next_date(y, m, d);
    let (y3, m3, d3) = civil_from_days(days + 1);
    lemma_day_numbers_unique(y2, m2, d2, y3, m3, d3);
}

// ---------------------------------------------------------------------
// Later instants format as later text
// ---------------------------------------------------------------------

/// Digit strings of one length with one value are the same string.
proof fn lemma_digits_equal(a: Seq<char>, b: Seq<char>)
    requires
        a.len() == b.len(),
        all_digits(a),
        all_digits(b),
        digits_value(a) == digits_value(b),
    ensures
        a == b,
    decreases a.len(),
{
    if a.len() > 0 {
        assert(is_digit(a[a.len() - 1]));
        assert(is_digit(b[b.len() - 1]));
        let da = a.last() as int - 48;
        let db = b.last() as int - 48;
        assert(0 <= da <= 9 && 0 <= db <= 9);
        assert(digits_value(a.drop_last()) * 10 + da == digits_value(b.drop_last()) * 10 + db);
        assert(da == db);
        assert(all_digits(a.drop_last()) && all_digits(b.drop_last())) by {
            assert forall|i: int| 0 <= i < a.drop_last().len() implies is_digit(#[trigger] a.drop_last()[i]) by {
                assert(a.drop_last()[i] == a[i]);
            }
            assert forall|i: int| 0 <= i < b.drop_last().len() implies is_digit(#[trigger] b.drop_last()[i]) by {
                assert(b.drop_last()[i] == b[i]);
            }
        }
        lemma_digits_equal(a.drop_last(), b.drop_last());
        assert(a == a.drop_last().push(a.last()));
        assert(b == b.drop_last().push(b.last()));
    }
}

/// Of two digit strings of one length, the one of smaller value comes first.
proof fn lemma_digits_less(a: Seq<char>, b: Seq<char>)
    requires
        a.len() == b.len(),
        all_digits(a),
        all_digits(b),
        digits_value(a) < digits_value(b),
    ensures
        text_less(a, b),
    decreases a.len(),
{
    let n = a.len() as int;
    if n == 0 {
        assert(false);
    } else {
        let a0 = a.drop_last();
        let b0 = b.drop_last();
        assert(is_digit(a[n - 1]));
        assert(is_digit(b[n - 1]));
        let da = a.last() as int - 48;
        let db = b.last() as int - 48;
        assert(all_digits(a0) && all_digits(b0)) by {
            assert forall|i: int| 0 <= i < a0.len() implies is_digit(#[trigger] a0[i]) by {
                assert(a0[i] == a[i]);
            }
            assert forall|i: int| 0 <= i < b0.len() implies is_digit(#[trigger] b0[i]) by {
                assert(b0[i] == b[i]);
            }
        }
        assert(digits_value(a) == digits_value(a0) * 10 + da);
        assert(digits_value(b) == digits_value(b0) * 10 + db);
        if a0 == b0 {
            assert(da < db);
            assert(a.subrange(0, n - 1) == b.subrange(0, n - 1));
            assert(a[n - 1] < b[n - 1]);
        } else {
            if digits_value(a0) == digits_value(b0) {
                lemma_digits_equal(a0, b0);
            }
            assert(digits_value(a0) < digits_value(b0));
            lemma_digits_less(a0, b0);
            let k = choose|k: int|
                0 <= k < a0.len() && k < b0.len() && a0.subrange(0, k) == b0.subrange(0, k)
                    && #[trigger] a0[k] < #[trigger] b0[k];
            assert(a.subrange(0, k) == a0.subrange(0, k));
            assert(b.subrange(0, k) == b0.subrange(0, k));
            assert(a[k] == a0[k] && b[k] == b0[k]);
        }
    }
}

/// Texts that agree up to a field and hold in it digit strings of one
/// length, the first of smaller value, are in that order.
proof fn lemma_field_decides(
    t1: Seq<char>,
    t2: Seq<char>,
    x: Seq<char>,
    f1: Seq<char>,
    f2: Seq<char>,
    r1: Seq<char>,
    r2: Seq<char>,
)
    requires
        t1 == x + f1 + r1,
        t2 == x + f2 + r2,
        f1.len() == f2.len(),
        all_digits(f1),
        all_digits(f2),
        digits_value(f1) < digits_value(f2),
    ensures
        text_less(t1, t2),
{
    lemma_digits_less(f1, f2);
    let k = choose|k: int|
        0 <= k < f1.len() && k < f2.len() && f1.subrange(0, k) == f2.subrange(0, k)
            && #[trigger] f1[k] < #[trigger] f2[k];
    let j = x.len() + k;
    assert(t1.subrange(0, j) == x + f1.subrange(0, k));
    assert(t2.subrange(0, j) == x + f2.subrange(0, k));
    assert(t1[j] == f1[k]);
    assert(t2[j] == f2[k]);
}

proof fn lemma_months_ordered(year: int, m1: int, m2: int)
    requires
        1 <= m1 < m2 <= 12,
    ensures
        days_before_month(year, m1) + month_length(year, m1) <= days_before_month(year, m2),
    decreases m2 - m1,
{
    lemma_month_step(year, m1);
    if m1 + 1 < m2 {
        lemma_months_ordered(year, m1 + 1, m2);
        assert(month_length(year, m1 + 1) >= 0);
    }
}

/// Of two valid dates, the one with the smaller day number is earlier in
/// the order of year, then month, then day.
proof fn lemma_dates_ordered(y1: int, m1: int, d1: int, y2: int, m2: int, d2: int)
    requires
        valid_date(y1, m1, d1),
        valid_date(y2, m2, d2),
        days_from_civil(y1, m1, d1) < days_from_civil(y2, m2, d2),
    ensures
        y1 < y2 || (y1 == y2 && m1 < m2) || (y1 == y2 && m1 == m2 && d1 < d2),
{
    lemma_date_within_year(y1, m1, d1);
    lemma_date_within_year(y2, m2, d2);
    if y2 < y1 {
        lemma_years_ordered(y2 + 1, y1);
    } else if y1 == y2 && m2 < m1 {
        lemma_months_ordered(y1, m2, m1);
    }
}

/// The fields of a formatted instant before the year 10000.
proof fn lemma_utc_layout(seconds: nat)
    requires
        seconds < 253402300800,
    ensures
        ({
            let days = seconds / 86400;
            let time = seconds % 86400;
            let date = civil_from_days(days as int);
            &&& 1970 <= date.0 <= 9999
            &&& utc_text(seconds) == zero_pad(decimal(date.0 as nat), 4) + seq!['-'] + zero_pad(
                decimal(date.1 as nat),
                2,
            ) + seq!['-'] + zero_pad(decimal(date.2 as nat), 2) + seq!['T'] + zero_pad(
                decimal(time / 3600),
                2,
            ) + seq![':'] + zero_pad(decimal((time % 3600) / 60), 2) + seq![':'] + zero_pad(
                decimal(time % 60),
                2,
            ) + seq!['Z']
        }),
{
    let days = seconds / 86400;
    lemma_civil_from_days(days as int);
    let (y, m, d) = civil_from_days(days as int);
    assert(y <= 9999) by {
        if y >= 10000 {
            lemma_date_within_year(y, m, d);
            lemma_years_ordered(10000, y);
        }
    }
    assert((y as i32) as int == y);
}

/// Each field of a formatted instant before the year 10000 is a digit
/// string of its width, worth its value.
proof fn lemma_utc_fields(seconds: nat)
    requires
        seconds < 253402300800,
    ensures
        ({
            let days = seconds / 86400;
            let time = seconds % 86400;
            let date = civil_from_days(days as int);
            &&& padded(date.0 as nat, 4)
            &&& padded(date.1 as nat, 2)
            &&& padded(date.2 as nat, 2)
            &&& padded(time / 3600, 2)
            &&& padded((time % 3600) / 60, 2)
            &&& padded(time % 60, 2)
        }),
{
    let days = seconds / 86400;
    let time = seconds % 86400;
    lemma_utc_layout(seconds);
    lemma_civil_from_days(days as int);
    let (y, m, d) = civil_from_days(days as int);
    reveal_with_fuel(pow10, 5);
    lemma_padded_field(y as nat, 4);
    lemma_padded_field(m as nat, 2);
    lemma_padded_field(d as nat, 2);
    lemma_padded_field(time / 3600, 2);
    lemma_padded_field((time % 3600) / 60, 2);
    lemma_padded_field(time % 60, 2);
}

/// `n` written zero-padded to width `w` is a digit string of that width
/// worth `n`.
spec fn padded(n: nat, w: nat) -> bool {
    &&& all_digits(zero_pad(decimal(n), w))
    &&& digits_value(zero_pad(decimal(n), w)) == n
    &&& zero_pad(decimal(n), w).len() == w
}

/// The ways a formatted timestamp splits around each of its fields.
proof fn lemma_timestamp_splits(
    a: Seq<char>,
    b: Seq<char>,
    c: Seq<char>,
    h: Seq<char>,
    i: Seq<char>,
    e: Seq<char>,
)
    ensures
        ({
            let dash = seq!['-'];
            let tee = seq!['T'];
            let colon = seq![':'];
            let zed = seq!['Z'];
            let t = a + dash + b + dash + c + tee + h + colon + i + colon + e + zed;
            &&& t == Seq::<char>::empty() + a + (dash + b + dash + c + tee + h + colon + i + colon + e + zed)
            &&& t == (a + dash) + b + (dash + c + tee + h + colon + i + colon + e + zed)
            &&& t == (a + dash + b + dash) + c + (tee + h + colon + i + colon + e + zed)
            &&& t == (a + dash + b + dash + c + tee) + h + (colon + i + colon + e + zed)
            &&& t == (a + dash + b + dash + c + tee + h + colon) + i + (colon + e + zed)
            &&& t == (a + dash + b + dash + c + tee + h + colon + i + colon) + e + zed
        }),
{
    let dash = seq!['-'];
    let tee = seq!['T'];
    let colon = seq![':'];
    let zed = seq!['Z'];
    let t = a + dash + b + dash + c + tee + h + colon + i + colon + e + zed;
    assert(t =~= Seq::<char>::empty() + a + (dash + b + dash + c + tee + h + colon + i + colon + e + zed));
    assert(t =~= (a + dash) + b + (dash + c + tee + h + colon + i + colon + e + zed));
    assert(t =~= (a + dash + b + dash) + c + (tee + h + colon + i + colon + e + zed));
    assert(t =~= (a + dash + b + dash + c + tee) + h + (colon + i + colon + e + zed));
    assert(t =~= (a + dash + b + dash + c + tee + h + colon) + i + (colon + e + zed));
    assert(t =~= (a + dash + b + dash + c + tee + h + colon + i + colon) + e + zed);
}

/// Whether the fields `p` come before the fields `q`, comparing the first
/// field, then the second, and so on.
spec fn fields_before(p: Seq<int>, q: Seq<int>) -> bool {
    exists|k: int| 0 <= k < p.len() && k < q.len() && p.subrange(0, k) == q.subrange(0, k) && #[trigger] p[k] < #[trigger] q[k]
}

/// A timestamp laid out from digit fields whose values come earlier comes
/// first.
proof fn lemma_timestamp_order(fs1: Seq<Seq<char>>, fs2: Seq<Seq<char>>, v1: Seq<int>, v2: Seq<int>)
    requires
        fs1.len() == 6 && fs2.len() == 6 && v1.len() == 6 && v2.len() == 6,
        forall|j: int| 0 <= j < 6 ==> all_digits(#[trigger] fs1[j]) && all_digits(fs2[j]) && fs1[j].len() == fs2[j].len() && digits_value(fs1[j]) == v1[j] && digits_value(fs2[j]) == v2[j],
        fields_before(v1, v2),
    ensures
        ({
            let dash = seq!['-'];
            let tee = seq!['T'];
            let colon = seq![':'];
            let zed = seq!['Z'];
            text_less(
                fs1[0] + dash + fs1[1] + dash + fs1[2] + tee + fs1[3] + colon + fs1[4] + colon + fs1[5] + zed,
                fs2[0] + dash + fs2[1] + dash + fs2[2] + tee + fs2[3] + colon + fs2[4] + colon + fs2[5] + zed,
            )
        }),
{
    let dash = seq!['-'];
    let tee = seq!['T'];
    let colon = seq![':'];
    let zed = seq!['Z'];
    let (a1, b1, c1, h1, i1, e1) = (fs1[0], fs1[1], fs1[2], fs1[3], fs1[4], fs1[5]);
    let (a2, b2, c2, h2, i2, e2) = (fs2[0], fs2[1], fs2[2], fs2[3], fs2[4], fs2[5]);
    let t1 = a1 + dash + b1 + dash + c1 + tee + h1 + colon + i1 + colon + e1 + zed;
    let t2 = a2 + dash + b2 + dash + c2 + tee + h2 + colon + i2 + colon + e2 + zed;
    lemma_timestamp_splits(a1, b1, c1, h1, i1, e1);
    lemma_timestamp_splits(a2, b2, c2, h2, i2, e2);
    let k = choose|k: int| 0 <= k < v1.len() && k < v2.len() && v1.subrange(0, k) == v2.subrange(0, k) && #[trigger] v1[k] < #[trigger] v2[k];
    assert forall|j: int| 0 <= j < k implies fs1[j] == fs2[j] by {
        assert(v1.subrange(0, k)[j] == v2.subrange(0, k)[j]);
        lemma_digits_equal(fs1[j], fs2[j]);
    }
    if k == 0 {
        lemma_field_decides(t1, t2, Seq::empty(), a1, a2,
            dash + b1 + dash + c1 + tee + h1 + colon + i1 + colon + e1 + zed,
            dash + b2 + dash + c2 + tee + h2 + colon + i2 + colon + e2 + zed);
    } else if k == 1 {
        lemma_field_decides(t1, t2, a1 + dash, b1, b2,
            dash + c1 + tee + h1 + colon + i1 + colon + e1 + zed,
            dash + c2 + tee + h2 + colon + i2 + colon + e2 + zed);
    } else if k == 2 {
        lemma_field_decides(t1, t2, a1 + dash + b1 + dash, c1, c2,
            tee + h1 + colon + i1 + colon + e1 + zed,
            tee + h2 + colon + i2 + colon + e2 + zed);
    } else if k == 3 {
        lemma_field_decides(t1, t2, a1 + dash + b1 + dash + c1 + tee, h1, h2,
            colon + i1 + colon + e1 + zed,
            colon + i2 + colon + e2 + zed);
    } else if k == 4 {
        lemma_field_decides(t1, t2, a1 + dash + b1 + dash + c1 + tee + h1 + colon, i1, i2,
            colon + e1 + zed,
            colon + e2 + zed);
    } else {
        lemma_field_decides(t1, t2, a1 + dash + b1 + dash + c1 + tee + h1 + colon + i1 + colon, e1, e2,
            zed,
            zed);
    }
}

/// The fields of an instant, in the order they are written.
spec fn instant_fields(seconds: nat) -> Seq<int> {
    let days = seconds / 86400;
    let time = seconds % 86400;
    let date = civil_from_days(days as int);
    seq![date.0, date.1, date.2, (time / 3600) as int, ((time % 3600) / 60) as int, (time % 60) as int]
}

/// Of two times of day, the earlier has the earlier hour, minute and
/// second, compared in that order.
proof fn lemma_times_ordered(t1: nat, t2: nat)
    requires
        t1 < t2,
    ensures
        t1 / 3600 < t2 / 3600 || (t1 / 3600 == t2 / 3600 && (t1 % 3600) / 60 < (t2 % 3600) / 60)
            || (t1 / 3600 == t2 / 3600 && (t1 % 3600) / 60 == (t2 % 3600) / 60 && t1 % 60 < t2
            % 60),
{
}

/// An earlier instant has earlier fields.
#[verifier::spinoff_prover]
proof fn lemma_instant_fields_ordered(s1: nat, s2: nat)
    requires
        s1 < s2,
    ensures
        fields_before(instant_fields(s1), instant_fields(s2)),
{
    let days1 = s1 / 86400;
    let days2 = s2 / 86400;
    let time1 = s1 % 86400;
    let time2 = s2 % 86400;
    let v1 = instant_fields(s1);
    let v2 = instant_fields(s2);
    assert(days1 <= days2);
    if days1 < days2 {
        lemma_civil_from_days(days1 as int);
        lemma_civil_from_days(days2 as int);
        let (y1, m1, d1) = civil_from_days(days1 as int);
        let (y2, m2, d2) = civil_from_days(days2 as int);
        lemma_dates_ordered(y1, m1, d1, y2, m2, d2);
        if y1 < y2 {
            assert(v1.subrange(0, 0) =~= v2.subrange(0, 0));
            assert(v1[0] < v2[0]);
        } else if m1 < m2 {
            assert(v1.subrange(0, 1) =~= v2.subrange(0, 1));
            assert(v1[1] < v2[1]);
        } else {
            assert(v1.subrange(0, 2) =~= v2.subrange(0, 2));
            assert(v1[2] < v2[2]);
        }
    } else {
        assert(days1 == days2);
        assert(time1 < time2);
        lemma_times_ordered(time1, time2);
        if time1 / 3600 < time2 / 3600 {
            assert(v1.subrange(0, 3) =~= v2.subrange(0, 3));
            assert(v1[3] < v2[3]);
        } else if (time1 % 3600) / 60 < (time2 % 3600) / 60 {
            assert(v1.subrange(0, 4) =~= v2.subrange(0, 4));
            assert(v1[4] < v2[4]);
        } else {
            assert(v1.subrange(0, 5) =~= v2.subrange(0, 5));
            assert(v1[5] < v2[5]);
        }
    }
}

/// Later instants before the year 10000 format as later valid timestamps:
/// the formatting is strictly increasing in lexicographic order of
/// characters, which for this ASCII text is also byte order, and so one to
/// one.
pub proof fn lemma_formatted_times_increase(s1: nat, s2: nat)
    requires
        s1 < s2 < 253402300800,
    ensures
        is_utc_timestamp_text(utc_text(s1)),
        is_utc_timestamp_text(utc_text(s2)),
        text_less(utc_text(s1), utc_text(s2)),
{
    lemma_formatted_time_is_valid(s1);
    lemma_formatted_time_is_valid(s2);
    lemma_utc_layout(s1);
    lemma_utc_layout(s2);
    lemma_utc_fields(s1);
    lemma_utc_fields(s2);
    lemma_instant_fields_ordered(s1, s2);
    let v1 = instant_fields(s1);
    let v2 = instant_fields(s2);
    let date1 = civil_from_days((s1 / 86400) as int);
    let date2 = civil_from_days((s2 / 86400) as int);
    let time1 = s1 % 86400;
    let time2 = s2 % 86400;
    assert(v1[0] == date1.0 && v1[1] == date1.1 && v1[2] == date1.2);
    assert(v1[3] == time1 / 3600 && v1[4] == (time1 % 3600) / 60 && v1[5] == time1 % 60);
    assert(v2[0] == date2.0 && v2[1] == date2.1 && v2[2] == date2.2);
    assert(v2[3] == time2 / 3600 && v2[4] == (time2 % 3600) / 60 && v2[5] == time2 % 60);
    lemma_civil_from_days((s1 / 86400) as int);
    lemma_civil_from_days((s2 / 86400) as int);
    assert(padded(date1.0 as nat, 4) && padded(date2.0 as nat, 4));
    assert(padded(date1.1 as nat, 2) && padded(date2.1 as nat, 2));
    assert(padded(date1.2 as nat, 2) && padded(date2.2 as nat, 2));
    assert(padded(time1 / 3600, 2) && padded(time2 / 3600, 2));
    assert(padded((time1 % 3600) / 60, 2) && padded((time2 % 3600) / 60, 2));
    assert(padded(time1 % 60, 2) && padded(time2 % 60, 2));
    let fs1 = seq![
        zero_pad(decimal(v1[0] as nat), 4),
        zero_pad(decimal(v1[1] as nat), 2),
        zero_pad(decimal(v1[2] as nat), 2),
        zero_pad(decimal(v1[3] as nat), 2),
        zero_pad(decimal(v1[4] as nat), 2),
        zero_pad(decimal(v1[5] as nat), 2),
    ];
    let fs2 = seq![
        zero_pad(decimal(v2[0] as nat), 4),
        zero_pad(decimal(v2[1] as nat), 2),
        zero_pad(decimal(v2[2] as nat), 2),
        zero_pad(decimal(v2[3] as nat), 2),
        zero_pad(decimal(v2[4] as nat), 2),
        zero_pad(decimal(v2[5] as nat), 2),
    ];
    assert forall|j: int| 0 <= j < 6 implies all_digits(#[trigger] fs1[j]) && all_digits(fs2[j])
        && fs1[j].len() == fs2[j].len() && digits_value(fs1[j]) == v1[j] && digits_value(fs2[j])
        == v2[j] by {
        if j == 0 {
            assert(fs1[0] == zero_pad(decimal(v1[0] as nat), 4));
            assert(fs2[0] == zero_pad(decimal(v2[0] as nat), 4));
        } else if j == 1 {
            assert(fs1[1] == zero_pad(decimal(v1[1] as nat), 2));
            assert(fs2[1] == zero_pad(decimal(v2[1] as nat), 2));
        } else if j == 2 {
            assert(fs1[2] == zero_pad(decimal(v1[2] as nat), 2));
            assert(fs2[2] == zero_pad(decimal(v2[2] as nat), 2));
        } else if j == 3 {
            assert(fs1[3] == zero_pad(decimal(v1[3] as nat), 2));
            assert(fs2[3] == zero_pad(decimal(v2[3] as nat), 2));
        } else if j == 4 {
            assert(fs1[4] == zero_pad(decimal(v1[4] as nat), 2));
            assert(fs2[4] == zero_pad(decimal(v2[4] as nat), 2));
        } else {
            assert(fs1[5] == zero_pad(decimal(v1[5] as nat), 2));
            assert(fs2[5] == zero_pad(decimal(v2[5] as nat), 2));
        }
    }
    assert(utc_text(s1) == fs1[0] + seq!['-'] + fs1[1] + seq!['-'] + fs1[2] + seq!['T'] + fs1[3]
        + seq![':'] + fs1[4] + seq![':'] + fs1[5] + seq!['Z']);
    assert(utc_text(s2) == fs2[0] + seq!['-'] + fs2[1] + seq!['-'] + fs2[2] + seq!['T'] + fs2[3]
        + seq![':'] + fs2[4] + seq![':'] + fs2[5] + seq!['Z']);
    lemma_timestamp_order(fs1, fs2, v1, v2);
}

// ---------------------------------------------------------------------
// Accepted timestamps name real instants
// ---------------------------------------------------------------------

proof fn lemma_digits_value_bound(a: Seq<char>)
    requires
        all_digits(a),
    ensures
        0 <= digits_value(a) < pow10(a.len()),
    decreases a.len(),
{
    if a.len() > 0 {
        assert(is_digit(a[a.len() - 1]));
        assert(all_digits(a.drop_last())) by {
            assert forall|i: int| 0 <= i < a.drop_last().len() implies is_digit(
                #[trigger] a.drop_last()[i],
            ) by {
                assert(a.drop_last()[i] == a[i]);
            }
        }
        lemma_digits_value_bound(a.drop_last());
    }
}

/// Every accepted timestamp names a real second of a real calendar date:
/// its day is one its month has, in its year, and its time of day is below
/// 24:00:00.
pub proof fn lemma_accepted_timestamp_is_a_real_date(s: Seq<char>)
    requires
        is_utc_timestamp_text(s),
    ensures
        valid_date(number_at(s, 0, 4), number_at(s, 5, 7), number_at(s, 8, 10)),
        0 <= number_at(s, 0, 4) <= 9999,
        0 <= number_at(s, 11, 13) < 24,
        0 <= number_at(s, 14, 16) < 60,
        0 <= number_at(s, 17, 19) < 60,
{
    lemma_digits_value_bound(s.subrange(0, 4));
    lemma_digits_value_bound(s.subrange(11, 13));
    lemma_digits_value_bound(s.subrange(14, 16));
    lemma_digits_value_bound(s.subrange(17, 19));
    reveal_with_fuel(pow10, 5);
}

/// The instant, in seconds after the Unix epoch, that the timestamp text
/// `s` writes.
pub open spec fn timestamp_seconds(s: Seq<char>) -> int {
    days_from_civil(number_at(s, 0, 4), number_at(s, 5, 7), number_at(s, 8, 10)) * 86400
        + number_at(s, 11, 13) * 3600 + number_at(s, 14, 16) * 60 + number_at(s, 17, 19)
}

/// Every accepted timestamp from 1970 on is the formatting of the instant it
/// writes: formatting and validating agree, and no text is accepted that
/// formatting could not produce.
#[verifier::spinoff_prover]
#[verifier::rlimit(40)]
pub proof fn lemma_accepted_timestamp_is_an_instant(s: Seq<char>)
    requires
        is_utc_timestamp_text(s),
        number_at(s, 0, 4) >= 1970,
    ensures
        0 <= timestamp_seconds(s) < 253402300800,
        utc_text(timestamp_seconds(s) as nat) == s,
{
    lemma_accepted_timestamp_is_a_real_date(s);
    let y = number_at(s, 0, 4);
    let m = number_at(s, 5, 7);
    let d = number_at(s, 8, 10);
    let h = number_at(s, 11, 13);
    let mi = number_at(s, 14, 16);
    let se = number_at(s, 17, 19);
    let days = days_from_civil(y, m, d);
    lemma_date_within_year(y, m, d);
    lemma_years_ordered(1970, y);
    lemma_years_ordered(y + 1, 10000);
    assert(days_from_civil(1970, 1, 1) == 0);
    assert(days_from_civil(10000, 1, 1) == 2932897);
    assert(0 <= days < 2932897);
    let tod = h * 3600 + mi * 60 + se;
    assert(0 <= tod < 86400);
    let secs = days * 86400 + tod;
    assert(secs == timestamp_seconds(s));
    assert(0 <= secs < 253402300800);
    assert(secs / 86400 == days && secs % 86400 == tod) by (nonlinear_arith)
        requires
            secs == days * 86400 + tod,
            0 <= tod < 86400,
            0 <= days,
    ;
    assert(tod / 3600 == h && (tod % 3600) / 60 == mi && tod % 60 == se) by (nonlinear_arith)
        requires
            tod == h * 3600 + mi * 60 + se,
            0 <= h < 24,
            0 <= mi < 60,
            0 <= se < 60,
    ;
    lemma_civil_from_days(days);
    let date = civil_from_days(days);
    lemma_day_numbers_unique(date.0, date.1, date.2, y, m, d);
    let n = secs as nat;
    lemma_utc_layout(n);
    lemma_utc_fields(n);
    let a = zero_pad(decimal(y as nat), 4);
    let b = zero_pad(decimal(m as nat), 2);
    let c = zero_pad(decimal(d as nat), 2);
    let e = zero_pad(decimal(h as nat), 2);
    let f = zero_pad(decimal(mi as nat), 2);
    let g = zero_pad(decimal(se as nat), 2);
    lemma_digits_equal(a, s.subrange(0, 4));
    lemma_digits_equal(b, s.subrange(5, 7));
    lemma_digits_equal(c, s.subrange(8, 10));
    lemma_digits_equal(e, s.subrange(11, 13));
    lemma_digits_equal(f, s.subrange(14, 16));
    lemma_digits_equal(g, s.subrange(17, 19));
    assert(utc_text(n) == a + seq!['-'] + b + seq!['-'] + c + seq!['T'] + e + seq![':'] + f
        + seq![':'] + g + seq!['Z']);
    assert(s =~= s.subrange(0, 4) + seq!['-'] + s.subrange(5, 7) + seq!['-'] + s.subrange(8, 10)
        + seq!['T'] + s.subrange(11, 13) + seq![':'] + s.subrange(14, 16) + seq![':']
        + s.subrange(17, 19) + seq!['Z']);
}

} // verus!
