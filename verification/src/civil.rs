//! Calendar time.

use chrono::{Datelike, Timelike};
use vstd::prelude::*;

verus! {

/// A moment in the proleptic Gregorian calendar, in universal time.
#[derive(Debug, Clone, Copy, PartialEq, Eq, Structural)]
pub struct CivilTime {
    /// Year, with the year before 1 being 0.
    pub year: i32,
    /// Month, from 1.
    pub month: u32,
    /// Day of the month, from 1.
    pub day: u32,
    /// Hour.
    pub hour: u32,
    /// Minute.
    pub minute: u32,
    /// Second.
    pub second: u32,
}

/// Whether `y` is a leap year.
pub open spec fn is_leap(y: int) -> bool {
    y % 4 == 0 && (y % 100 != 0 || y % 400 == 0)
}

/// Days in a month.
pub open spec fn month_len(y: int, m: int) -> int {
    if m == 2 {
        if is_leap(y) {
            29
        } else {
            28
        }
    } else if m == 4 || m == 6 || m == 9 || m == 11 {
        30
    } else {
        31
    }
}

/// Days of the year before month `m`.
pub open spec fn days_before_month(y: int, m: int) -> int
    decreases m,
{
    if m <= 1 {
        0
    } else {
        days_before_month(y, m - 1) + month_len(y, m - 1)
    }
}

/// Days from the first day of year 1 to the first day of year `y`.
pub open spec fn days_before_year(y: int) -> int {
    365 * (y - 1) + (y - 1) / 4 - (y - 1) / 100 + (y - 1) / 400
}

/// Days from the first day of 1970 to the given one.
pub open spec fn epoch_day(y: int, m: int, d: int) -> int {
    days_before_year(y) + days_before_month(y, m) + d - 719163
}

impl CivilTime {
    /// Whether the fields name a moment.
    pub open spec fn wf(self) -> bool {
        &&& 1 <= self.month <= 12
        &&& 1 <= self.day <= month_len(self.year as int, self.month as int)
        &&& self.hour < 24
        &&& self.minute < 60
        &&& self.second < 60
    }

    /// Seconds since the start of 1970.
    pub open spec fn timestamp(self) -> int {
        86400 * epoch_day(self.year as int, self.month as int, self.day as int) + 3600 * self.hour
            + 60 * self.minute + self.second
    }
}

/// The calendar time `secs` seconds after the start of 1970.
pub open spec fn civil(secs: int) -> CivilTime {
    choose|t: CivilTime| t.wf() && t.timestamp() == secs
}

/// Whether the calendar's year for `secs` lies between -262143 and 262142.
pub open spec fn civil_in_range(secs: int) -> bool {
    epoch_day(-262143, 1, 1) <= secs / 86400 <= epoch_day(262142, 12, 31)
}

proof fn year_step(y: int)
    ensures
        days_before_year(y + 1) == days_before_year(y) + (if is_leap(y) {
            366int
        } else {
            365int
        }),
{
    assert(y / 4 - (y - 1) / 4 == (if y % 4 == 0 {
        1int
    } else {
        0int
    }));
    assert(y / 100 - (y - 1) / 100 == (if y % 100 == 0 {
        1int
    } else {
        0int
    }));
    assert(y / 400 - (y - 1) / 400 == (if y % 400 == 0 {
        1int
    } else {
        0int
    }));
}

proof fn years_ascend(a: int, b: int)
    requires
        a <= b,
    ensures
        days_before_year(a) <= days_before_year(b),
    decreases b - a,
{
    if a < b {
        years_ascend(a, b - 1);
        year_step(b - 1);
    }
}

proof fn months_ascend(y: int, a: int, b: int)
    requires
        1 <= a <= b,
    ensures
        days_before_month(y, a) <= days_before_month(y, b),
    decreases b - a,
{
    if a < b {
        months_ascend(y, a, b - 1);
    }
}

proof fn day_of_year_bounds(y: int, m: int, d: int)
    requires
        1 <= m <= 12,
        1 <= d <= month_len(y, m),
    ensures
        1 <= days_before_month(y, m) + d <= (if is_leap(y) {
            366int
        } else {
            365int
        }),
{
    reveal_with_fuel(days_before_month, 14);
    assert(days_before_month(y, 13) == (if is_leap(y) {
        366int
    } else {
        365int
    }));
    months_ascend(y, 1, m);
    months_ascend(y, m + 1, 13);
    assert(days_before_month(y, m + 1) == days_before_month(y, m) + month_len(y, m));
}

/// The days follow each other: the first day of 1970 has the number 0, the next day of a month,
/// the first day of the next month and the first day of the next year each come one day later
/// than the day before, and the months have the lengths that the calendar gives them.
pub proof fn days_follow_each_other(y: int, m: int, d: int)
    requires
        1 <= m <= 12,
        1 <= d <= month_len(y, m),
    ensures
        epoch_day(1970, 1, 1) == 0,
        d < month_len(y, m) ==> epoch_day(y, m, d + 1) == epoch_day(y, m, d) + 1,
        d == month_len(y, m) && m < 12 ==> epoch_day(y, m + 1, 1) == epoch_day(y, m, d) + 1,
        d == month_len(y, m) && m == 12 ==> epoch_day(y + 1, 1, 1) == epoch_day(y, m, d) + 1,
        m == 1 || m == 3 || m == 5 || m == 7 || m == 8 || m == 10 || m == 12 ==> month_len(y, m)
            == 31,
        m == 4 || m == 6 || m == 9 || m == 11 ==> month_len(y, m) == 30,
        m == 2 && y % 4 != 0 ==> month_len(y, m) == 28,
        m == 2 && y % 4 == 0 && y % 100 != 0 ==> month_len(y, m) == 29,
        m == 2 && y % 100 == 0 && y % 400 != 0 ==> month_len(y, m) == 28,
        m == 2 && y % 400 == 0 ==> month_len(y, m) == 29,
{
    reveal_with_fuel(days_before_month, 14);
    year_step(y);
    if d == month_len(y, m) && m < 12 {
        assert(days_before_month(y, m + 1) == days_before_month(y, m) + month_len(y, m));
    }
}

proof fn year_with_day(n: int, lo: int, hi: int) -> (y: int)
    requires
        lo < hi,
        days_before_year(lo) <= n < days_before_year(hi),
    ensures
        lo <= y < hi,
        days_before_year(y) <= n < days_before_year(y + 1),
    decreases hi - lo,
{
    if lo + 1 == hi || n >= days_before_year(hi - 1) {
        hi - 1
    } else {
        year_with_day(n, lo, hi - 1)
    }
}

proof fn month_with_day(y: int, n: int, hi: int) -> (m: int)
    requires
        1 < hi,
        0 <= n < days_before_month(y, hi),
    ensures
        1 <= m < hi,
        days_before_month(y, m) <= n < days_before_month(y, m + 1),
    decreases hi,
{
    if n >= days_before_month(y, hi - 1) {
        hi - 1
    } else {
        month_with_day(y, n, hi - 1)
    }
}

/// Every moment of the calendar's years has a calendar time, and it names that moment: the day
/// counts 86400 seconds, the hour 3600 and the minute 60.
pub proof fn moments_have_a_civil_time(secs: int)
    requires
        civil_in_range(secs),
    ensures
        civil(secs).wf(),
        civil(secs).timestamp() == secs,
        ({
            let t = civil(secs);
            let day = epoch_day(t.year as int, t.month as int, t.day as int);
            &&& 86400 * day + 3600 * t.hour + 60 * t.minute + t.second == secs
            &&& t.hour < 24
            &&& t.minute < 60
            &&& t.second < 60
        }),
{
    let day = secs / 86400;
    let n = day + 719162;
    let rest = secs % 86400;
    reveal_with_fuel(days_before_month, 14);
    year_step(262142);
    let y = year_with_day(n, -262143, 262143);
    year_step(y);
    let k = n - days_before_year(y);
    let m = month_with_day(y, k, 13);
    let d = k - days_before_month(y, m) + 1;
    let t = CivilTime {
        year: y as i32,
        month: m as u32,
        day: d as u32,
        hour: (rest / 3600) as u32,
        minute: (rest % 3600 / 60) as u32,
        second: (rest % 60) as u32,
    };
    assert(days_before_month(y, m + 1) == days_before_month(y, m) + month_len(y, m));
    assert(rest == 3600 * (rest / 3600) + 60 * (rest % 3600 / 60) + rest % 60);
    assert(epoch_day(y, m, d) == day);
    assert(t.wf() && t.timestamp() == secs);
}

/// A moment has one calendar time only.
pub proof fn civil_time_is_unique(a: CivilTime, b: CivilTime)
    requires
        a.wf(),
        b.wf(),
        a.timestamp() == b.timestamp(),
    ensures
        a == b,
{
    let (ay, am, ad) = (a.year as int, a.month as int, a.day as int);
    let (by, bm, bd) = (b.year as int, b.month as int, b.day as int);
    assert(epoch_day(ay, am, ad) == epoch_day(by, bm, bd));
    day_of_year_bounds(ay, am, ad);
    day_of_year_bounds(by, bm, bd);
    year_step(ay);
    year_step(by);
    if ay < by {
        years_ascend(ay + 1, by);
    } else if by < ay {
        years_ascend(by + 1, ay);
    }
    assert(ay == by);
    if am < bm {
        months_ascend(ay, am + 1, bm);
    } else if bm < am {
        months_ascend(ay, bm + 1, am);
    }
    assert(am == bm);
}

/// A moment before the first day of a year has an earlier year.
pub proof fn year_by_timestamp(t: CivilTime, y: int)
    requires
        t.wf(),
    ensures
        t.timestamp() < 86400 * epoch_day(y, 1, 1) <==> t.year < y,
{
    let ty = t.year as int;
    day_of_year_bounds(ty, t.month as int, t.day as int);
    year_step(ty);
    if ty < y {
        years_ascend(ty + 1, y);
    } else {
        years_ascend(y, ty);
    }
}

/// `chrono::DateTime::from_timestamp` without a fraction of a second, taken apart by
/// `year`, `month`, `day`, `hour`, `minute` and `second`: the time in UTC that many
/// seconds after the start of 1970 in the proleptic Gregorian calendar, and nothing
/// where its year lies outside the years that chrono represents, -262143 to 262142.
#[verifier::external_body]
pub(crate) fn civil_from_timestamp(secs: i64) -> (r: Option<CivilTime>)
    ensures
        r is Some <==> civil_in_range(secs as int),
        r matches Some(t) ==> t.wf() && t.timestamp() == secs,
{
    let time = chrono::DateTime::from_timestamp(secs, 0)?;
    Some(
        CivilTime {
            year: time.year(),
            month: time.month(),
            day: time.day(),
            hour: time.hour(),
            minute: time.minute(),
            second: time.second(),
        },
    )
}

/// `chrono::Utc::now`, taken apart by `year`, `month`, `day`, `hour`, `minute` and
/// `second`: the moment of the call, of which only that it is a moment is known.
#[verifier::external_body]
pub(crate) fn civil_now() -> (r: CivilTime)
    ensures
        r.wf(),
{
    let time = chrono::Utc::now();
    CivilTime {
        year: time.year(),
        month: time.month(),
        day: time.day(),
        hour: time.hour(),
        minute: time.minute(),
        second: time.second(),
    }
}

} // verus!
