//! Civil-date arithmetic without a calendar crate.

use vstd::prelude::*;

use crate::text;

verus! {

/// Whether `y` is a leap year of the proleptic Gregorian calendar.
pub open spec fn leap(y: int) -> bool {
    y % 4 == 0 && (y % 100 != 0 || y % 400 == 0)
}

/// The number of days of a month.
pub open spec fn month_len(y: int, m: int) -> int {
    if m == 2 {
        if leap(y) {
            29
        } else {
            28
        }
    } else if m == 4 || m == 6 || m == 9 || m == 11 {
        30
    } else {
        31
    }
}

/// The leap years from the year 1 up to, and without, `y`; negative before.
pub open spec fn leaps_before(y: int) -> int {
    (y - 1) / 4 - (y - 1) / 100 + (y - 1) / 400
}

/// Days from 1970-01-01 to the first day of `y`.
pub open spec fn days_before_year(y: int) -> int {
    365 * (y - 1970) + leaps_before(y) - leaps_before(1970)
}

/// Days from the first day of `y` to the first day of its month `m`.
pub open spec fn days_before_month(y: int, m: int) -> int
    decreases m,
{
    if m <= 1 {
        0
    } else {
        days_before_month(y, m - 1) + month_len(y, m - 1)
    }
}

/// Days from 1970-01-01 to the day `d` of the month `m` of `y`.
pub open spec fn calendar_days(y: int, m: int, d: int) -> int {
    days_before_year(y) + days_before_month(y, m) + d - 1
}

/// A month and a day that the year has.
pub open spec fn valid_date(y: int, m: int, d: int) -> bool {
    1 <= m <= 12 && 1 <= d <= month_len(y, m)
}

/// Division that rounds towards zero.
pub open spec fn quot(a: int, b: int) -> int {
    if a >= 0 {
        a / b
    } else {
        -((-a) / b)
    }
}

/// The remainder of `quot`; it has the sign of `a`.
pub open spec fn rem(a: int, b: int) -> int {
    a - quot(a, b) * b
}

/// The day number by the formula that starts the year in March. It is the
/// calendar's for every month (`law_formula_is_calendar`); for a number that
/// is no month it is what the formula gives.
pub open spec fn civil_days(y: int, m: int, d: int) -> int {
    let y1 = if m <= 2 {
        y - 1
    } else {
        y
    };
    let era = y1 / 400;
    let yoe = y1 - era * 400;
    let mp = rem(m + 9, 12);
    let doy = quot(153 * mp + 2, 5) + d - 1;
    era * 146097 + yoe * 365 + yoe / 4 - yoe / 100 + doy - 719468
}

/// A year has 366 days exactly when it is a leap year, otherwise 365.
#[verifier::spinoff_prover]
pub proof fn law_year_length(y: int)
    ensures
        days_before_year(y + 1) - days_before_year(y) == (if leap(y) {
            366int
        } else {
            365int
        }),
        days_before_month(y, 12) + 31 == (if leap(y) {
            366int
        } else {
            365int
        }),
{
    reveal_with_fuel(days_before_month, 13);
}

/// The days before a month, in closed form.
proof fn lemma_days_before_month(y: int, m: int)
    requires
        1 <= m <= 12,
    ensures
        days_before_month(y, m) == (if m <= 2 {
            31 * (m - 1)
        } else {
            (153 * (m - 3) + 2) / 5 + 59 + (if leap(y) {
                1int
            } else {
                0int
            })
        }),
{
    reveal_with_fuel(days_before_month, 13);
}

/// Four centuries repeat, so the leap days of a year split off those of its era.
proof fn lemma_era(y: int)
    ensures
        y / 4 == 100 * (y / 400) + (y - y / 400 * 400) / 4,
        y / 100 == 4 * (y / 400) + (y - y / 400 * 400) / 100,
        0 <= y - y / 400 * 400 < 400,
{
}

/// For every month the formula is the calendar's day number.
pub proof fn law_formula_is_calendar(y: int, m: int, d: int)
    requires
        1 <= m <= 12,
    ensures
        civil_days(y, m, d) == calendar_days(y, m, d),
{
    lemma_days_before_month(y, m);
    if m <= 2 {
        lemma_era(y - 1);
        assert(rem(m + 9, 12) == m + 9);
        assert(m == 1 || m == 2);
    } else {
        lemma_era(y);
        assert(rem(m + 9, 12) == m - 3);
        assert(leaps_before(y + 1) == leaps_before(y) + (if leap(y) {
            1int
        } else {
            0int
        }));
    }
}

/// The year of the era to which a day of the era belongs.
pub open spec fn year_of_era(doe: int) -> int {
    (doe - doe / 1460 + doe / 36524 - doe / 146096) / 365
}

/// The days of an era before one of its years, the years starting in March.
pub open spec fn era_days(yoe: int) -> int {
    365 * yoe + yoe / 4 - yoe / 100
}

/// The civil date, as year, month and day, of a day number.
pub open spec fn date_of(days: int) -> (int, int, int) {
    let z = days + 719468;
    let era = z / 146097;
    let doe = z % 146097;
    let yoe = year_of_era(doe);
    let doy = doe - era_days(yoe);
    let mp = (5 * doy + 2) / 153;
    let d = doy - (153 * mp + 2) / 5 + 1;
    let m = if mp < 10 {
        mp + 3
    } else {
        mp - 9
    };
    let y = yoe + era * 400 + (if m <= 2 {
        1int
    } else {
        0int
    });
    (y, m, d)
}

/// The year of the era is the one whose days hold the day.
proof fn lemma_year_of_era(doe: u32)
    by (bit_vector)
    requires
        doe < 146097,
    ensures
        ({
            let n = (doe - doe / 1460 + doe / 36524 - doe / 146096) / 365;
            let start = 365 * n + n / 4 - n / 100;
            let next = 365 * (n + 1) + (n + 1) / 4 - (n + 1) / 100;
            0 <= n < 400 && start <= doe && (doe < next || n == 399)
        }),
{
}

/// The month, counted from March, and the day that a day of the year has.
proof fn lemma_month_of_year(doy: u32)
    by (bit_vector)
    requires
        doy < 366,
    ensures
        ({
            let mp = (5 * doy + 2) / 153;
            let d = doy - (153 * mp + 2) / 5 + 1;
            let short = mp == 1 || mp == 3 || mp == 6 || mp == 8;
            0 <= mp <= 11 && 1 <= d <= 31 && (short ==> d <= 30) && (mp == 11 ==> d <= 29) && (mp
                == 11 && d == 29 ==> doy == 365)
        }),
{
}

/// A day of an era lies in the year of the era that it belongs to; only a leap
/// year has a last day of February more.
proof fn lemma_day_of_era(doe: int)
    requires
        0 <= doe < 146097,
    ensures
        0 <= year_of_era(doe) < 400,
        0 <= doe - era_days(year_of_era(doe)) <= 365,
        doe - era_days(year_of_era(doe)) == 365 ==> leap(year_of_era(doe) + 1),
{
    lemma_year_of_era(doe as u32);
    let n = year_of_era(doe);
    assert((n + 1) / 4 == n / 4 || (n + 1) % 4 == 0);
    assert((n + 1) / 100 == n / 100 || (n + 1) % 100 == 0);
}

/// The date of a day number is a date of the calendar, and has that number.
pub proof fn law_date_has_its_day_number(days: int)
    ensures
        ({
            let (y, m, d) = date_of(days);
            valid_date(y, m, d) && calendar_days(y, m, d) == days
        }),
{
    let z = days + 719468;
    let era = z / 146097;
    let doe = z % 146097;
    lemma_day_of_era(doe);
    let n = year_of_era(doe);
    let doy = doe - era_days(n);
    lemma_month_of_year(doy as u32);
    let mp = (5 * doy + 2) / 153;
    let (y, m, d) = date_of(days);
    lemma_valid(n, era, mp, y, m, d, doy);
    law_formula_is_calendar(y, m, d);
    lemma_formula_inverts(days, n, era, mp, y, m, d);
}

/// A month that is counted from March has the day, where February's last is a
/// leap year's.
proof fn lemma_valid(n: int, era: int, mp: int, y: int, m: int, d: int, doy: int)
    requires
        0 <= mp <= 11,
        m == (if mp < 10 {
            mp + 3
        } else {
            mp - 9
        }),
        y == n + era * 400 + (if m <= 2 {
            1int
        } else {
            0int
        }),
        1 <= d <= 31,
        mp == 1 || mp == 3 || mp == 6 || mp == 8 ==> d <= 30,
        mp == 11 ==> d <= 29,
        mp == 11 && d == 29 ==> doy == 365,
        doy == 365 ==> leap(n + 1),
    ensures
        valid_date(y, m, d),
{
    if mp == 11 && d == 29 {
        lemma_leap_repeats(n + 1, era);
    }
}

/// Leap years repeat every four centuries.
proof fn lemma_leap_repeats(n: int, era: int)
    ensures
        leap(n + era * 400) == leap(n),
{
    assert((n + era * 400) % 4 == n % 4);
    assert((n + era * 400) % 100 == n % 100);
    assert((n + era * 400) % 400 == n % 400);
}

/// The formula gives back the day number whose date it is given.
proof fn lemma_formula_inverts(days: int, n: int, era: int, mp: int, y: int, m: int, d: int)
    requires
        0 <= n < 400,
        0 <= mp <= 11,
        m == (if mp < 10 {
            mp + 3
        } else {
            mp - 9
        }),
        y == n + era * 400 + (if m <= 2 {
            1int
        } else {
            0int
        }),
        days + 719468 == era * 146097 + era_days(n) + d - 1 + (153 * mp + 2) / 5,
    ensures
        civil_days(y, m, d) == days,
{
    assert((n + era * 400) / 400 == era);
    assert(rem(m + 9, 12) == mp);
}

/// Later years begin at least 365 days later each.
proof fn lemma_years_grow(a: int, b: int)
    requires
        a <= b,
    ensures
        days_before_year(a) <= days_before_year(b),
    decreases b - a,
{
    if a < b {
        lemma_years_grow(a, b - 1);
        law_year_length(b - 1);
    }
}

/// A date lies in its year, and a date of a later month comes later.
proof fn lemma_date_in_year(y: int, m: int, d: int)
    requires
        valid_date(y, m, d),
    ensures
        days_before_year(y) <= calendar_days(y, m, d) < days_before_year(y + 1),
        forall|k: int|
            m < k <= 12 ==> days_before_month(y, m) + d <= #[trigger] days_before_month(y, k),
{
    lemma_days_before_month(y, m);
    law_year_length(y);
    lemma_days_before_month(y, 12);
    assert forall|k: int| m < k <= 12 implies days_before_month(y, m) + d
        <= #[trigger] days_before_month(y, k) by {
        lemma_days_before_month(y, k);
    }
}

/// Two dates of the calendar with one day number are the same date.
pub proof fn law_day_number_is_injective(y: int, m: int, d: int, y2: int, m2: int, d2: int)
    requires
        valid_date(y, m, d),
        valid_date(y2, m2, d2),
        calendar_days(y, m, d) == calendar_days(y2, m2, d2),
    ensures
        y == y2 && m == m2 && d == d2,
{
    lemma_date_in_year(y, m, d);
    lemma_date_in_year(y2, m2, d2);
    if y < y2 {
        lemma_years_grow(y + 1, y2);
    } else if y2 < y {
        lemma_years_grow(y2 + 1, y);
    }
}

/// Taking the day number of a date and the date of that number gives the
/// date back.
pub proof fn law_dates_round_trip(y: int, m: int, d: int)
    requires
        valid_date(y, m, d),
    ensures
        date_of(calendar_days(y, m, d)) == (y, m, d),
{
    let days = calendar_days(y, m, d);
    law_date_has_its_day_number(days);
    let (y2, m2, d2) = date_of(days);
    law_day_number_is_injective(y, m, d, y2, m2, d2);
}

/// Days since 1970-01-01 for a proleptic-Gregorian civil date.
pub fn days_from_civil(y: i64, m: i64, d: i64) -> (r: i64)
    requires
        i64::MIN <= civil_days(y as int, m as int, d as int) <= i64::MAX,
    ensures
        r == civil_days(y as int, m as int, d as int),
        1 <= m <= 12 ==> r == calendar_days(y as int, m as int, d as int),
{
    proof {
        if 1 <= m <= 12 {
            law_formula_is_calendar(y as int, m as int, d as int);
        }
    }
    wide_days(y, m, d) as i64
}

/// The day number before it is known to fit.
fn wide_days(y: i64, m: i64, d: i64) -> (r: i128)
    ensures
        r == civil_days(y as int, m as int, d as int),
        -0x1_0000_0000_0000_0000_0000 <= r <= 0x1_0000_0000_0000_0000_0000,
{
    let y1: i128 = if m <= 2 {
        y as i128 - 1
    } else {
        y as i128
    };
    let era: i128 = (if y1 >= 0 {
        y1
    } else {
        y1 - 399
    }) / 400;
    assert(era == y1 as int / 400);
    let yoe: i128 = y1 - era * 400;
    let mp: i128 = (m as i128 + 9) % 12;
    assert(mp == rem(m + 9, 12));
    let doy: i128 = (153 * mp + 2) / 5 + d as i128 - 1;
    let doe: i128 = yoe * 365 + yoe / 4 - yoe / 100 + doy;
    era * 146097 + doe - 719468
}

/// The civil date of a day number.
pub fn civil_from_days(days: i64) -> (r: (i64, i64, i64))
    requires
        days + 719_468 <= i64::MAX,
    ensures
        (r.0 as int, r.1 as int, r.2 as int) == date_of(days as int),
        valid_date(r.0 as int, r.1 as int, r.2 as int),
        calendar_days(r.0 as int, r.1 as int, r.2 as int) == days,
{
    proof {
        law_date_has_its_day_number(days as int);
    }
    let z: i64 = days + 719_468;
    let era: i64 = (if z >= 0 {
        z
    } else {
        z - 146_096
    }) / 146_097;
    assert(era == z as int / 146097);
    let doe: i64 = z - era * 146_097;
    proof {
        lemma_year_of_era(doe as u32);
    }
    let yoe: i64 = (doe - doe / 1460 + doe / 36_524 - doe / 146_096) / 365;
    let doy: i64 = doe - (365 * yoe + yoe / 4 - yoe / 100);
    let mp: i64 = (5 * doy + 2) / 153;
    let d: i64 = doy - (153 * mp + 2) / 5 + 1;
    let m: i64 = if mp < 10 {
        mp + 3
    } else {
        mp - 9
    };
    let y: i64 = yoe + era * 400;
    (if m <= 2 {
        y + 1
    } else {
        y
    }, m, d)
}

/// The number of a month by its English abbreviation.
pub open spec fn month_number(name: Seq<char>) -> Option<int> {
    if name == "Jan"@ {
        Some(1)
    } else if name == "Feb"@ {
        Some(2)
    } else if name == "Mar"@ {
        Some(3)
    } else if name == "Apr"@ {
        Some(4)
    } else if name == "May"@ {
        Some(5)
    } else if name == "Jun"@ {
        Some(6)
    } else if name == "Jul"@ {
        Some(7)
    } else if name == "Aug"@ {
        Some(8)
    } else if name == "Sep"@ {
        Some(9)
    } else if name == "Oct"@ {
        Some(10)
    } else if name == "Nov"@ {
        Some(11)
    } else if name == "Dec"@ {
        Some(12)
    } else {
        None
    }
}

/// A decimal number that an `i64` can hold.
pub open spec fn i64_value(s: Seq<char>) -> Option<int> {
    text::between(text::signed_value(s), i64::MIN as int, i64::MAX as int)
}

/// A date and a time of day.
#[verifier::ext_equal]
pub struct DateTime {
    pub year: int,
    pub month: int,
    pub day: int,
    pub hour: int,
    pub minute: int,
    pub second: int,
}

/// A date of the calendar, and a time that a day has.
pub open spec fn valid_time(t: DateTime) -> bool {
    &&& valid_date(t.year, t.month, t.day)
    &&& 0 <= t.hour <= 23
    &&& 0 <= t.minute <= 59
    &&& 0 <= t.second <= 59
}

/// The seconds from the start of 1970 to a time.
pub open spec fn seconds_of(t: DateTime) -> int {
    calendar_days(t.year, t.month, t.day) * 86400 + t.hour * 3600 + t.minute * 60 + t.second
}

/// The time that a text such as `Sep 16 12:00:00 2026` names. There is none
/// when the text has another form, when the month has no such day, or when the
/// day has no such time.
pub open spec fn gm_time(s: Seq<char>) -> Option<DateTime> {
    let p = text::words(s);
    let hms = text::pieces(p[2], ':');
    match (month_number(p[0]), i64_value(p[1]), i64_value(p[3])) {
        (Some(month), Some(day), Some(year)) => {
            match (i64_value(hms[0]), i64_value(hms[1]), i64_value(hms[2])) {
                (Some(hour), Some(minute), Some(second)) => {
                    let t = DateTime { year, month, day, hour, minute, second };
                    if p.len() == 4 && hms.len() == 3 && valid_time(t) {
                        Some(t)
                    } else {
                        None
                    }
                },
                _ => None,
            }
        },
        _ => None,
    }
}

/// The time that a text names, in seconds since the start of 1970. There is
/// none when it names none, or when an `i64` cannot hold the seconds.
pub open spec fn gm_date(s: Seq<char>) -> Option<int> {
    match gm_time(s) {
        Some(t) => if i64::MIN <= seconds_of(t) <= i64::MAX {
            Some(seconds_of(t))
        } else {
            None
        },
        None => None,
    }
}

fn has_date(y: i64, m: i64, d: i64) -> (r: bool)
    ensures
        r == valid_date(y as int, m as int, d as int),
{
    let len: i64 = if m == 2 {
        if y % 4 == 0 && (y % 100 != 0 || y % 400 == 0) {
            29
        } else {
            28
        }
    } else if m == 4 || m == 6 || m == 9 || m == 11 {
        30
    } else {
        31
    };
    1 <= m && m <= 12 && 1 <= d && d <= len
}

fn month_of(name: &str) -> (r: Option<i64>)
    ensures
        match r {
            Some(m) => month_number(name@) == Some(m as int) && 1 <= m <= 12,
            None => month_number(name@) is None,
        },
{
    if text::same(name, "Jan") {
        Some(1)
    } else if text::same(name, "Feb") {
        Some(2)
    } else if text::same(name, "Mar") {
        Some(3)
    } else if text::same(name, "Apr") {
        Some(4)
    } else if text::same(name, "May") {
        Some(5)
    } else if text::same(name, "Jun") {
        Some(6)
    } else if text::same(name, "Jul") {
        Some(7)
    } else if text::same(name, "Aug") {
        Some(8)
    } else if text::same(name, "Sep") {
        Some(9)
    } else if text::same(name, "Oct") {
        Some(10)
    } else if text::same(name, "Nov") {
        Some(11)
    } else if text::same(name, "Dec") {
        Some(12)
    } else {
        None
    }
}

/// Parse "Sep 16 12:00:00 2026" (the format of `openssl x509 -enddate`, in
/// GMT) into unix seconds. Returns None for anything malformed.
pub fn parse_gm_date(s: &str) -> (r: Option<i64>)
    ensures
        match r {
            Some(t) => gm_date(s@) == Some(t as int),
            None => gm_date(s@) is None,
        },
{
    let parts = text::split_words(s);
    let ghost p = text::words(s@);
    assert(text::views(parts@) == p);
    if parts.len() != 4 {
        return None;
    }
    assert(p[0] == parts@[0]@ && p[1] == parts@[1]@ && p[2] == parts@[2]@ && p[3] == parts@[3]@);
    let hms = text::split_char(parts[2].as_str(), ':');
    assert(text::views(hms@) == text::pieces(p[2], ':'));
    if hms.len() != 3 {
        return None;
    }
    assert(forall|i: int| 0 <= i < 3 ==> text::views(hms@)[i] == #[trigger] hms@[i]@);
    match (month_of(parts[0].as_str()), text::parse_i64(parts[1].as_str()), text::parse_i64(
        parts[3].as_str(),
    )) {
        (Some(month), Some(day), Some(year)) => {
            match (
                text::parse_i64(hms[0].as_str()),
                text::parse_i64(hms[1].as_str()),
                text::parse_i64(hms[2].as_str()),
            ) {
                (Some(h), Some(min), Some(sec)) => {
                    if !has_date(year, month, day) || h < 0 || h > 23 || min < 0 || min > 59
                        || sec < 0 || sec > 59 {
                        return None;
                    }
                    proof {
                        law_formula_is_calendar(year as int, month as int, day as int);
                    }
                    let t: i128 = wide_days(year, month, day) * 86400 + (h as i128) * 3600 + (
                    min as i128) * 60 + sec as i128;
                    if t < i64::MIN as i128 || t > i64::MAX as i128 {
                        None
                    } else {
                        Some(t as i64)
                    }
                },
                _ => None,
            }
        },
        _ => None,
    }
}

/// A date is read as it is written: month, day, time of day and year.
pub proof fn law_dates_are_read(t: DateTime, name: Seq<char>)
    requires
        valid_time(t),
        i64::MIN <= t.year <= i64::MAX,
        t.month == 1 ==> name == "Jan"@,
        t.month == 2 ==> name == "Feb"@,
        t.month == 3 ==> name == "Mar"@,
        t.month == 4 ==> name == "Apr"@,
        t.month == 5 ==> name == "May"@,
        t.month == 6 ==> name == "Jun"@,
        t.month == 7 ==> name == "Jul"@,
        t.month == 8 ==> name == "Aug"@,
        t.month == 9 ==> name == "Sep"@,
        t.month == 10 ==> name == "Oct"@,
        t.month == 11 ==> name == "Nov"@,
        t.month == 12 ==> name == "Dec"@,
    ensures
        gm_time(
            name + seq![' '] + text::dec_int(t.day) + seq![' '] + (text::dec_int(t.hour) + seq![':']
                + text::dec_int(t.minute) + seq![':'] + text::dec_int(t.second)) + seq![' ']
                + text::dec_int(t.year),
        ) == Some(t),
{
    let d = text::dec_int(t.day);
    let y = text::dec_int(t.year);
    let (h, m, s) = (text::dec_int(t.hour), text::dec_int(t.minute), text::dec_int(t.second));
    let hms = h + seq![':'] + m + seq![':'] + s;
    let line = name + seq![' '] + d + seq![' '] + hms + seq![' '] + y;
    lemma_written(t.day);
    lemma_written(t.year);
    lemma_written(t.hour);
    lemma_written(t.minute);
    lemma_written(t.second);
    lemma_month_words(t.month, name);
    assert(text::is_word(hms)) by {
        assert forall|i: int| 0 <= i < hms.len() implies !text::is_space(#[trigger] hms[i]) by {
            if i < h.len() {
                assert(hms[i] == h[i]);
            } else if i == h.len() {
                assert(hms[i] == ':');
            } else if i < h.len() + 1 + m.len() {
                assert(hms[i] == m[i - h.len() - 1]);
            } else if i == h.len() + 1 + m.len() {
                assert(hms[i] == ':');
            } else {
                assert(hms[i] == s[i - h.len() - 2 - m.len()]);
            }
        }
    }
    text::law_words_one_by_one(y, ' ', seq![]);
    text::law_words_one_by_one(hms, ' ', y);
    text::law_words_one_by_one(d, ' ', hms + seq![' '] + y);
    text::law_words_one_by_one(name, ' ', d + seq![' '] + (hms + seq![' '] + y));
    assert(line =~= name + seq![' '] + (d + seq![' '] + (hms + seq![' '] + y)));
    let p = text::words(line);
    assert(p =~= seq![name, d, hms, y]);
    text::law_pieces_one_by_one(s, ':', seq![]);
    text::law_pieces_one_by_one(m, ':', s);
    text::law_pieces_one_by_one(h, ':', m + seq![':'] + s);
    assert(hms =~= h + seq![':'] + (m + seq![':'] + s));
    assert(text::pieces(hms, ':') =~= seq![h, m, s]);
}

/// A number is written as one word without colons, and read back.
proof fn lemma_written(n: int)
    ensures
        text::is_word(text::dec_int(n)),
        !text::dec_int(n).contains(':'),
        text::signed_value(text::dec_int(n)) == Some(n),
{
    let w = text::dec_int(n);
    let k = if n < 0 {
        (-n) as nat
    } else {
        n as nat
    };
    text::law_numbers_read_back(n);
    text::lemma_digits_are_digits(k, 10);
    text::law_digits_read_back(k, 10);
    let d = text::digits(k, 10);
    assert forall|i: int| 0 <= i < w.len() implies !text::is_space(#[trigger] w[i]) && w[i]
        != ':' by {
        if n < 0 {
            if i > 0 {
                assert(w[i] == d[i - 1]);
                assert(text::digit(d[i - 1], 10) is Some);
            } else {
                assert(w[0] == '-');
            }
        } else {
            assert(w[i] == d[i]);
            assert(text::digit(d[i], 10) is Some);
        }
    }
}

proof fn lemma_month_words(month: int, name: Seq<char>)
    requires
        1 <= month <= 12,
        month == 1 ==> name == "Jan"@,
        month == 2 ==> name == "Feb"@,
        month == 3 ==> name == "Mar"@,
        month == 4 ==> name == "Apr"@,
        month == 5 ==> name == "May"@,
        month == 6 ==> name == "Jun"@,
        month == 7 ==> name == "Jul"@,
        month == 8 ==> name == "Aug"@,
        month == 9 ==> name == "Sep"@,
        month == 10 ==> name == "Oct"@,
        month == 11 ==> name == "Nov"@,
        month == 12 ==> name == "Dec"@,
    ensures
        text::is_word(name),
        month_number(name) == Some(month),
{
    reveal_strlit("Jan");
    reveal_strlit("Feb");
    reveal_strlit("Mar");
    reveal_strlit("Apr");
    reveal_strlit("May");
    reveal_strlit("Jun");
    reveal_strlit("Jul");
    reveal_strlit("Aug");
    reveal_strlit("Sep");
    reveal_strlit("Oct");
    reveal_strlit("Nov");
    reveal_strlit("Dec");
    assert(name.len() == 3);
    assert(!text::is_space(name[0]) && !text::is_space(name[1]) && !text::is_space(name[2]));
}

} // verus!
