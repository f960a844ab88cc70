//! The proleptic Gregorian calendar, in UTC.

use chrono::Datelike;
use vstd::prelude::*;

verus! {

/// The number of seconds of a day.
pub const DAY_SECS: i64 = 86_400;

/// The first second that a calendar date is kept for: the start of the year
/// -262143.
pub const MIN_SECS: i64 = -8_334_601_228_800;

/// The last second that a calendar date is kept for: the end of the year
/// 262142.
pub const MAX_SECS: i64 = 8_210_266_876_799;

/// A date: year, month from one to twelve, day from one on.
pub type Date = (int, int, int);

/// Whether `y` is a leap year.
pub open spec fn is_leap(y: int) -> bool {
    y % 4 == 0 && (y % 100 != 0 || y % 400 == 0)
}

/// The number of days of a month.
pub open spec fn month_days(y: int, m: int) -> int {
    if m == 2 {
        if is_leap(y) {
            29
        } else {
            28
        }
    } else if m == 4 || m == 6 || m == 9 || m == 11 {
        30
    } else {
        31
    }
}

/// Whether the date exists.
pub open spec fn valid_date(d: Date) -> bool {
    1 <= d.1 <= 12 && 1 <= d.2 <= month_days(d.0, d.1)
}

/// The month behind the one of `d`.
pub open spec fn next_month(d: Date) -> (int, int) {
    if d.1 < 12 {
        (d.0, d.1 + 1)
    } else {
        (d.0 + 1, 1)
    }
}

/// The day behind `d`.
pub open spec fn next_day(d: Date) -> Date {
    if d.2 < month_days(d.0, d.1) {
        (d.0, d.1, d.2 + 1)
    } else {
        (next_month(d).0, next_month(d).1, 1)
    }
}

/// The day before `d`.
pub open spec fn prev_day(d: Date) -> Date {
    if d.2 > 1 {
        (d.0, d.1, d.2 - 1)
    } else if d.1 > 1 {
        (d.0, d.1 - 1, month_days(d.0, d.1 - 1))
    } else {
        (d.0 - 1, 12, 31)
    }
}

/// The date of a day, counted from 1970-01-01.
pub open spec fn date_of(day: int) -> Date
    decreases
            (if day < 0 {
                -day
            } else {
                day
            }),
{
    if day == 0 {
        (1970, 1, 1)
    } else if day > 0 {
        next_day(date_of(day - 1))
    } else {
        prev_day(date_of(day + 1))
    }
}

/// Whether `a` is before `b`.
pub open spec fn date_lt(a: Date, b: Date) -> bool {
    a.0 < b.0 || (a.0 == b.0 && (a.1 < b.1 || (a.1 == b.1 && a.2 < b.2)))
}

pub proof fn lemma_date_of(day: int)
    ensures
        valid_date(date_of(day)),
        date_of(day + 1) == next_day(date_of(day)),
    decreases
            (if day < 0 {
                -day
            } else {
                day
            }),
{
    if day > 0 {
        lemma_date_of(day - 1);
    } else if day < 0 {
        lemma_date_of(day + 1);
    }
}

pub proof fn lemma_date_order(a: int, b: int)
    requires
        a < b,
    ensures
        date_lt(date_of(a), date_of(b)),
    decreases b - a,
{
    lemma_date_of(a);
    lemma_date_of(b - 1);
    if a < b - 1 {
        lemma_date_order(a, b - 1);
    }
}

/// Days from `a` up to the first day `b` of the following month lie in the
/// month of `a`.
pub proof fn lemma_same_month(a: int, b: int, k: int)
    requires
        date_of(b) == (next_month(date_of(a)).0, next_month(date_of(a)).1, 1int),
        a <= k < b,
    ensures
        date_of(k).0 == date_of(a).0,
        date_of(k).1 == date_of(a).1,
{
    lemma_date_of(a);
    lemma_date_of(k);
    lemma_date_order(k, b);
    if a < k {
        lemma_date_order(a, k);
    }
}

/// The first day of the following month comes later.
pub proof fn lemma_next_month_later(a: int, b: int)
    requires
        date_of(b) == (next_month(date_of(a)).0, next_month(date_of(a)).1, 1int),
    ensures
        a < b <= a + 31,
{
    lemma_date_of(a);
    if b <= a {
        if b < a {
            lemma_date_order(b, a);
        }
    }
    if b > a + 31 {
        let d = date_of(a);
        lemma_rest_of_month(a, month_days(d.0, d.1) - d.2);
        let e = a + month_days(d.0, d.1) - d.2;
        lemma_date_of(e);
        assert(date_of(e + 1) == date_of(b));
        lemma_date_order(e + 1, b);
    }
}

proof fn lemma_rest_of_month(a: int, k: int)
    requires
        0 <= k <= month_days(date_of(a).0, date_of(a).1) - date_of(a).2,
    ensures
        date_of(a + k) == (date_of(a).0, date_of(a).1, date_of(a).2 + k),
    decreases k,
{
    if k > 0 {
        lemma_rest_of_month(a, k - 1);
        lemma_date_of(a + k - 1);
    }
}

/// The day on which a year starts.
pub open spec fn year_start(y: int) -> int {
    365 * (y - 1970) + (y - 1) / 4 - (y - 1) / 100 + (y - 1) / 400 - 477
}

proof fn lemma_month_step(a: int)
    requires
        date_of(a).2 == 1,
    ensures
        ({
            let d = date_of(a);
            date_of(a + month_days(d.0, d.1)) == (next_month(d).0, next_month(d).1, 1int)
        }),
{
    let d = date_of(a);
    lemma_date_of(a);
    let k = month_days(d.0, d.1) - 1;
    lemma_rest_of_month(a, k);
    lemma_date_of(a + k);
}

proof fn lemma_year_step(a: int, y: int)
    requires
        date_of(a) == (y, 1int, 1int),
    ensures
        date_of(
            a + (if is_leap(y) {
                366int
            } else {
                365int
            }),
        ) == (y + 1, 1int, 1int),
{
    lemma_month_step(a);
    let feb = a + 31;
    lemma_month_step(feb);
    let mar = feb + month_days(y, 2);
    lemma_month_step(mar);
    lemma_month_step(mar + 31);
    lemma_month_step(mar + 61);
    lemma_month_step(mar + 92);
    lemma_month_step(mar + 122);
    lemma_month_step(mar + 153);
    lemma_month_step(mar + 184);
    lemma_month_step(mar + 214);
    lemma_month_step(mar + 245);
    lemma_month_step(mar + 275);
}

proof fn lemma_quotient_step(y: int, n: int)
    requires
        n == 4 || n == 100 || n == 400,
    ensures
        y / n - (y - 1) / n == (if y % n == 0 {
            1int
        } else {
            0int
        }),
{
}

proof fn lemma_year_length(y: int)
    ensures
        year_start(y + 1) - year_start(y) == (if is_leap(y) {
            366int
        } else {
            365int
        }),
{
    lemma_quotient_step(y, 4);
    lemma_quotient_step(y, 100);
    lemma_quotient_step(y, 400);
}

/// Every year starts on the day that [`year_start`] says.
pub proof fn lemma_year_start(y: int)
    ensures
        date_of(year_start(y)) == (y, 1int, 1int),
    decreases
            (if y < 1970 {
                1970 - y
            } else {
                y - 1970
            }),
{
    if y == 1970 {
        assert(year_start(1970) == 0);
    } else if y > 1970 {
        lemma_year_start(y - 1);
        lemma_year_length(y - 1);
        lemma_year_step(year_start(y - 1), y - 1);
    } else {
        lemma_year_start(y + 1);
        lemma_year_length(y);
        lemma_year_back(year_start(y + 1), y + 1);
    }
}

proof fn lemma_year_back(b: int, y: int)
    requires
        date_of(b) == (y, 1int, 1int),
    ensures
        date_of(
            b - (if is_leap(y - 1) {
                366int
            } else {
                365int
            }),
        ) == (y - 1, 1int, 1int),
{
    lemma_month_back(b);
    lemma_month_back(b - 31);
    lemma_month_back(b - 61);
    lemma_month_back(b - 92);
    lemma_month_back(b - 122);
    lemma_month_back(b - 153);
    lemma_month_back(b - 184);
    lemma_month_back(b - 214);
    lemma_month_back(b - 245);
    lemma_month_back(b - 275);
    lemma_month_back(b - 306);
    let feb = b - 306 - month_days(y - 1, 2);
    lemma_month_back(feb);
}

proof fn lemma_month_back(b: int)
    requires
        date_of(b).2 == 1,
    ensures
        ({
            let d = date_of(b);
            let (y, m) = if d.1 > 1 {
                (d.0, d.1 - 1)
            } else {
                (d.0 - 1, 12int)
            };
            date_of(b - month_days(y, m)) == (y, m, 1int)
        }),
{
    let d = date_of(b);
    lemma_date_of(b);
    let (y, m) = if d.1 > 1 {
        (d.0, d.1 - 1)
    } else {
        (d.0 - 1, 12int)
    };
    lemma_date_of(b - 1);
    assert(date_of(b - 1) == (y, m, month_days(y, m)));
    lemma_start_of_month(b - 1, month_days(y, m) - 1);
}

proof fn lemma_start_of_month(a: int, k: int)
    requires
        0 <= k < date_of(a).2,
    ensures
        date_of(a - k) == (date_of(a).0, date_of(a).1, date_of(a).2 - k),
    decreases k,
{
    if k > 0 {
        lemma_start_of_month(a, k - 1);
        lemma_date_of(a - k);
        lemma_date_of(a - k + 1);
    }
}

/// Days within [`MIN_SECS`] and [`MAX_SECS`] have years from -262143 to
/// 262142.
pub proof fn lemma_year_range(day: int)
    requires
        MIN_SECS <= day * 86_400 <= MAX_SECS,
    ensures
        -262143 <= date_of(day).0 <= 262142,
{
    lemma_year_start(262143);
    lemma_year_start(-262143);
    assert(year_start(262143) == 95026237);
    assert(year_start(-262143) == -96465292);
    lemma_date_of(day);
    lemma_date_order(day, 95026237);
    if day > -96465292 {
        lemma_date_order(-96465292, day);
    }
}

/// `DateTime::from_timestamp` of `chrono`, then its year, month and day: the
/// proleptic Gregorian date of the day in which the second lies.
#[verifier::external_body]
pub(crate) fn date_at(secs: i64) -> (r: (i32, u32, u32))
    requires
        MIN_SECS <= secs <= MAX_SECS,
    ensures
        (r.0 as int, r.1 as int, r.2 as int) == date_of(secs as int / 86_400),
{
    let t = chrono::DateTime::from_timestamp(secs, 0).expect("second within the calendar");
    (t.year(), t.month(), t.day())
}

/// `NaiveDate::from_ymd_opt` of `chrono`: the second at which the first day of
/// a month starts. There is one exactly for the twelve months of the years
/// from -262143 to 262142.
#[verifier::external_body]
pub(crate) fn month_start(year: i32, month: u32) -> (r: Option<i64>)
    ensures
        match r {
            Some(secs) => secs as int % 86_400 == 0 && date_of(secs as int / 86_400) == (
                year as int,
                month as int,
                1int,
            ) && MIN_SECS <= secs <= MAX_SECS,
            None => !(-262143 <= year <= 262142 && 1 <= month <= 12),
        },
{
    let date = chrono::NaiveDate::from_ymd_opt(year, month, 1)?;
    Some(date.and_time(chrono::NaiveTime::MIN).and_utc().timestamp())
}

} // verus!
