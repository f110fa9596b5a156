use vstd::prelude::*;

use chrono::{Datelike, NaiveDate, Weekday as ChronoWeekday};

verus! {

/// A calendar date of the proleptic Gregorian calendar.
#[derive(Clone, Copy, Debug, PartialEq, Eq, Structural)]
pub struct Date {
    pub year: i32,
    pub month: u32,
    pub day: u32,
}

/// A day of the week.
#[derive(Clone, Copy, Debug, PartialEq, Eq, Structural)]
pub enum Weekday {
    Mon,
    Tue,
    Wed,
    Thu,
    Fri,
    Sat,
    Sun,
}

/// Whether `y` is a leap year.
pub open spec fn is_leap_year(y: int) -> bool {
    (y % 4 == 0 && y % 100 != 0) || y % 400 == 0
}

/// The number of days of month `m` of year `y`.
pub open spec fn days_in_month(y: int, m: int) -> int {
    if m == 2 {
        if is_leap_year(y) {
            29
        } else {
            28
        }
    } else if m == 4 || m == 6 || m == 9 || m == 11 {
        30
    } else {
        31
    }
}

/// The number of days of the years before year `y`, counted from the start
/// of year 1 (negative for earlier years).
pub open spec fn days_before_year(y: int) -> int {
    365 * (y - 1) + (y - 1) / 4 - (y - 1) / 100 + (y - 1) / 400
}

/// The number of days of the months of year `y` before month `m`.
pub open spec fn days_before_month(y: int, m: int) -> int {
    let common = if m <= 1 {
        0int
    } else if m == 2 {
        31
    } else if m == 3 {
        59
    } else if m == 4 {
        90
    } else if m == 5 {
        120
    } else if m == 6 {
        151
    } else if m == 7 {
        181
    } else if m == 8 {
        212
    } else if m == 9 {
        243
    } else if m == 10 {
        273
    } else if m == 11 {
        304
    } else {
        334
    };
    if m > 2 && is_leap_year(y) {
        common + 1
    } else {
        common
    }
}

/// The number of days from 1 January of year 1, a Monday, to `d`
/// (negative before it).
pub open spec fn day_number(d: Date) -> int {
    days_before_year(d.year as int) + days_before_month(d.year as int, d.month as int) + d.day - 1
}

/// The day of the week of `d`: the days since that Monday, modulo 7.
pub open spec fn weekday_spec(d: Date) -> Weekday {
    let k = day_number(d) % 7;
    if k == 0 {
        Weekday::Mon
    } else if k == 1 {
        Weekday::Tue
    } else if k == 2 {
        Weekday::Wed
    } else if k == 3 {
        Weekday::Thu
    } else if k == 4 {
        Weekday::Fri
    } else if k == 5 {
        Weekday::Sat
    } else {
        Weekday::Sun
    }
}

/// The first and the last year that the date library represents.
pub open spec fn first_year() -> int {
    -262143
}

pub open spec fn last_year() -> int {
    262142
}

/// A date that exists and that the date library represents.
pub open spec fn valid_date(d: Date) -> bool {
    &&& first_year() <= d.year <= last_year()
    &&& 1 <= d.month <= 12
    &&& 1 <= d.day <= days_in_month(d.year as int, d.month as int)
}

/// The first date that the date library represents.
pub open spec fn is_first_date(d: Date) -> bool {
    d.year == first_year() && d.month == 1 && d.day == 1
}

/// The last date that the date library represents.
pub open spec fn is_last_date(d: Date) -> bool {
    d.year == last_year() && d.month == 12 && d.day == 31
}

/// The day after `d`.
pub open spec fn next_date(d: Date) -> Date {
    if d.day < days_in_month(d.year as int, d.month as int) {
        Date { day: (d.day + 1) as u32, ..d }
    } else if d.month < 12 {
        Date { month: (d.month + 1) as u32, day: 1, ..d }
    } else {
        Date { year: (d.year + 1) as i32, month: 1, day: 1 }
    }
}

/// The day before `d`.
pub open spec fn previous_date(d: Date) -> Date {
    if d.day > 1 {
        Date { day: (d.day - 1) as u32, ..d }
    } else if d.month > 1 {
        Date { month: (d.month - 1) as u32, day: days_in_month(d.year as int, d.month - 1) as u32, ..d }
    } else {
        Date { year: (d.year - 1) as i32, month: 12, day: 31 }
    }
}

/// Whether date `a` is on or after date `b`.
pub open spec fn on_or_after(a: Date, b: Date) -> bool {
    a.year > b.year || (a.year == b.year && (a.month > b.month || (a.month == b.month && a.day >= b.day)))
}

/// The day after a valid date that is not the last one is valid and later.
pub proof fn lemma_next_date_valid(d: Date)
    requires
        valid_date(d),
        !is_last_date(d),
    ensures
        valid_date(next_date(d)),
        !on_or_after(d, next_date(d)),
{
}

/// The day before a valid date that is not the first one is valid and earlier.
pub proof fn lemma_previous_date_valid(d: Date)
    requires
        valid_date(d),
        !is_first_date(d),
    ensures
        valid_date(previous_date(d)),
        !on_or_after(previous_date(d), d),
{
}

/// Going from `y - 1` to `y` adds one to `y / k` exactly when `k` divides `y`.
proof fn lemma_div_step(y: int, k: int)
    requires
        k > 0,
    ensures
        y / k - (y - 1) / k == if y % k == 0 {
            1int
        } else {
            0int
        },
{
    vstd::arithmetic::div_mod::lemma_fundamental_div_mod(y, k);
    let q = y / k;
    let r = y % k;
    vstd::arithmetic::mul::lemma_mul_is_commutative(k, q);
    vstd::arithmetic::mul::lemma_mul_is_distributive_sub_other_way(k, q, 1);
    if r > 0 {
        vstd::arithmetic::div_mod::lemma_fundamental_div_mod_converse(y - 1, k, q, r - 1);
    } else {
        vstd::arithmetic::div_mod::lemma_fundamental_div_mod_converse(y - 1, k, q - 1, k - 1);
    }
}

/// A year has 365 days, and one more in a leap year.
proof fn lemma_days_of_year(y: int)
    ensures
        days_before_year(y + 1) == days_before_year(y) + 365 + if is_leap_year(y) {
            1int
        } else {
            0int
        },
{
    lemma_div_step(y, 4);
    lemma_div_step(y, 100);
    lemma_div_step(y, 400);
    vstd::arithmetic::div_mod::lemma_fundamental_div_mod(y, 4);
    vstd::arithmetic::div_mod::lemma_fundamental_div_mod(y, 100);
    vstd::arithmetic::div_mod::lemma_fundamental_div_mod(y, 400);
    if y % 100 == 0 {
        assert(y % 4 == 0) by {
            let q = y / 100;
            vstd::arithmetic::div_mod::lemma_fundamental_div_mod_converse(y, 4, 25 * q, 0);
        }
    }
    if y % 400 == 0 {
        assert(y % 100 == 0) by {
            let q = y / 400;
            vstd::arithmetic::div_mod::lemma_fundamental_div_mod_converse(y, 100, 4 * q, 0);
        }
    }
}

/// The day after a date is numbered one more, so the weekdays of
/// consecutive days follow each other.
pub proof fn lemma_day_number_next(d: Date)
    requires
        valid_date(d),
        !is_last_date(d),
    ensures
        day_number(next_date(d)) == day_number(d) + 1,
{
    if d.day >= days_in_month(d.year as int, d.month as int) && d.month == 12 {
        lemma_days_of_year(d.year as int);
    }
}

/// The day after `d`, computed by `chrono::NaiveDate::succ_opt`, which the
/// library documents as the next calendar date; it returns nothing only
/// after the last representable date, which `requires` leaves out.
#[verifier::external_body]
pub(crate) fn succ_date(d: Date) -> (r: Date)
    requires
        valid_date(d),
        !is_last_date(d),
    ensures
        r == next_date(d),
{
    let n = NaiveDate::from_ymd_opt(d.year, d.month, d.day).unwrap().succ_opt().unwrap();
    Date { year: n.year(), month: n.month(), day: n.day() }
}

/// The day before `d`, computed by `chrono::NaiveDate::pred_opt`, which the
/// library documents as the previous calendar date; it returns nothing only
/// before the first representable date, which `requires` leaves out.
#[verifier::external_body]
fn pred_date(d: Date) -> (r: Date)
    requires
        valid_date(d),
        !is_first_date(d),
    ensures
        r == previous_date(d),
{
    let n = NaiveDate::from_ymd_opt(d.year, d.month, d.day).unwrap().pred_opt().unwrap();
    Date { year: n.year(), month: n.month(), day: n.day() }
}

/// The day of the week of `d`, given by `chrono::Datelike::weekday` on the
/// `NaiveDate` built by `NaiveDate::from_ymd_opt`: the proleptic Gregorian
/// weekday, which is the count of days since 1 January of year 1 (a Monday)
/// modulo 7.
#[verifier::external_body]
pub fn weekday_of(d: Date) -> (w: Weekday)
    requires
        valid_date(d),
    ensures
        w == weekday_spec(d),
{
    match NaiveDate::from_ymd_opt(d.year, d.month, d.day).unwrap().weekday() {
        ChronoWeekday::Mon => Weekday::Mon,
        ChronoWeekday::Tue => Weekday::Tue,
        ChronoWeekday::Wed => Weekday::Wed,
        ChronoWeekday::Thu => Weekday::Thu,
        ChronoWeekday::Fri => Weekday::Fri,
        ChronoWeekday::Sat => Weekday::Sat,
        ChronoWeekday::Sun => Weekday::Sun,
    }
}

/// The day the bot counts a moment as belonging to: its days start at
/// 04:00, so a moment before four o'clock belongs to the day before.
pub open spec fn bonus_day_spec(date: Date, hour: u32) -> Date {
    if hour >= 4 {
        date
    } else {
        previous_date(date)
    }
}

/// The bot's day of the moment `hour` o'clock on `date`.
pub fn bonus_day(date: Date, hour: u32) -> (d: Date)
    requires
        valid_date(date),
        hour < 24,
        hour < 4 ==> !is_first_date(date),
    ensures
        d == bonus_day_spec(date, hour),
        valid_date(d),
{
    if hour >= 4 {
        date
    } else {
        proof {
            lemma_previous_date_valid(date);
        }
        pred_date(date)
    }
}

} // verus!
