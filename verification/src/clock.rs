//! Dates, times of day and minute-precision timestamps over the proleptic
//! Gregorian calendar, restricted to the years 0 through 9999 that the log's
//! four-digit year field can carry.
//!
//! A timestamp's position on the time line is measured by `ts_minutes`, the
//! number of minutes since the start of year 0; all ordering and duration
//! arithmetic is stated against that measure.

use chrono::Datelike;
use chrono::Timelike;
use vstd::prelude::*;

verus! {

/// A calendar date.
#[derive(Clone, Copy, Debug, PartialEq, Eq, Structural)]
pub struct Date {
    pub year: u16,
    pub month: u8,
    pub day: u8,
}

/// A wall-clock time of day, minute precision.
#[derive(Clone, Copy, Debug, PartialEq, Eq, Structural)]
pub struct Time {
    pub hour: u8,
    pub minute: u8,
}

/// A calendar date combined with a time of day.
#[derive(Clone, Copy, Debug, PartialEq, Eq, Structural)]
pub struct Timestamp {
    pub date: Date,
    pub time: Time,
}

pub open spec fn is_leap_year(y: int) -> bool {
    y % 4 == 0 && (y % 100 != 0 || y % 400 == 0)
}

pub open spec fn year_length(y: int) -> int {
    if is_leap_year(y) {
        366
    } else {
        365
    }
}

pub open spec fn days_in_month(y: int, m: int) -> int {
    if m == 2 {
        if is_leap_year(y) {
            29
        } else {
            28
        }
    } else if m == 4 || m == 6 || m == 9 || m == 11 {
        30
    } else {
        31
    }
}

/// Days in all years before year `y` (year 0 is the first).
pub open spec fn days_before_year(y: int) -> int
    decreases y,
{
    if y <= 0 {
        0
    } else {
        days_before_year(y - 1) + year_length(y - 1)
    }
}

/// Days in year `y` before month `m`.
pub open spec fn days_before_month(y: int, m: int) -> int
    decreases m,
{
    if m <= 1 {
        0
    } else {
        days_before_month(y, m - 1) + days_in_month(y, m - 1)
    }
}

impl Date {
    pub open spec fn wf(self) -> bool {
        &&& self.year <= 9999
        &&& 1 <= self.month <= 12
        &&& 1 <= self.day <= days_in_month(self.year as int, self.month as int)
    }

    /// Position of this date on the day line, day 0 being the first day of
    /// year 0.
    pub open spec fn day_index(self) -> int {
        days_before_year(self.year as int) + days_before_month(self.year as int, self.month as int)
            + self.day - 1
    }
}

impl Time {
    pub open spec fn wf(self) -> bool {
        self.hour < 24 && self.minute < 60
    }

    /// Minutes since midnight.
    pub open spec fn minute_of_day(self) -> int {
        self.hour * 60 + self.minute
    }
}

impl Timestamp {
    pub open spec fn wf(self) -> bool {
        self.date.wf() && self.time.wf()
    }

    /// Minutes since the start of year 0.
    pub open spec fn ts_minutes(self) -> int {
        self.date.day_index() * 1440 + self.time.minute_of_day()
    }
}

/// Minute count just past the largest representable timestamp.
pub open spec fn max_ts_minutes() -> int {
    days_before_year(10000) * 1440
}

pub open spec fn date_lt(a: Date, b: Date) -> bool {
    ||| a.year < b.year
    ||| (a.year == b.year && a.month < b.month)
    ||| (a.year == b.year && a.month == b.month && a.day < b.day)
}

pub open spec fn ts_le(a: Timestamp, b: Timestamp) -> bool {
    ||| date_lt(a.date, b.date)
    ||| (a.date == b.date && a.time.minute_of_day() <= b.time.minute_of_day())
}

proof fn lemma_dby_bounds(y: int)
    requires
        y >= 0,
    ensures
        365 * y <= days_before_year(y) <= 366 * y,
    decreases y,
{
    if y > 0 {
        lemma_dby_bounds(y - 1);
    }
}

proof fn lemma_dby_mono(y1: int, y2: int)
    requires
        0 <= y1 <= y2,
    ensures
        days_before_year(y1) + 365 * (y2 - y1) <= days_before_year(y2),
    decreases y2 - y1,
{
    if y1 < y2 {
        lemma_dby_mono(y1, y2 - 1);
    }
}

proof fn lemma_dbm_mono(y: int, m1: int, m2: int)
    requires
        1 <= m1 <= m2,
    ensures
        days_before_month(y, m1) <= days_before_month(y, m2),
        m1 < m2 ==> days_before_month(y, m1) + days_in_month(y, m1) <= days_before_month(y, m2),
    decreases m2 - m1,
{
    if m1 < m2 {
        lemma_dbm_mono(y, m1, m2 - 1);
        lemma_dbm_mono(y, m1 + 1, m2);
    }
}

proof fn lemma_dbm_total(y: int)
    ensures
        days_before_month(y, 13) == year_length(y),
{
    reveal_with_fuel(days_before_month, 13);
}

/// A well-formed date's day index lies within its year's slice of the day
/// line.
proof fn lemma_day_index_in_year(d: Date)
    requires
        d.wf(),
    ensures
        days_before_year(d.year as int) <= d.day_index() < days_before_year(d.year as int)
            + year_length(d.year as int),
        days_before_year(d.year as int) + year_length(d.year as int) == days_before_year(
            d.year + 1,
        ),
{
    lemma_dbm_mono(d.year as int, 1, d.month as int);
    lemma_dbm_mono(d.year as int, d.month as int, 13);
    lemma_dbm_total(d.year as int);
}

/// The day index respects the lexicographic date order: the calendar has no
/// two distinct well-formed dates at the same position on the day line.
pub proof fn lemma_day_index_order(a: Date, b: Date)
    requires
        a.wf(),
        b.wf(),
    ensures
        date_lt(a, b) <==> a.day_index() < b.day_index(),
        a == b <==> a.day_index() == b.day_index(),
{
    lemma_day_index_in_year(a);
    lemma_day_index_in_year(b);
    if a.year == b.year {
        if a.month < b.month {
            lemma_dbm_mono(a.year as int, a.month as int, b.month as int);
        } else if b.month < a.month {
            lemma_dbm_mono(a.year as int, b.month as int, a.month as int);
        }
    } else if a.year < b.year {
        lemma_dby_mono(a.year + 1, b.year as int);
    } else {
        lemma_dby_mono(b.year + 1, a.year as int);
    }
}

/// The minute measure respects the timestamp order.
pub proof fn lemma_ts_minutes_order(a: Timestamp, b: Timestamp)
    requires
        a.wf(),
        b.wf(),
    ensures
        ts_le(a, b) <==> a.ts_minutes() <= b.ts_minutes(),
        a.ts_minutes() == b.ts_minutes() ==> a.date == b.date && a.time.minute_of_day()
            == b.time.minute_of_day(),
{
    lemma_day_index_order(a.date, b.date);
}

/// The whole representable range spans fewer minutes than six billion.
pub proof fn lemma_max_ts_minutes_value()
    ensures
        max_ts_minutes() <= 6_000_000_000,
{
    lemma_dby_bounds(10000);
}

/// A well-formed date sits at a nonnegative position on the day line.
pub proof fn lemma_day_index_nonneg(d: Date)
    requires
        d.wf(),
    ensures
        d.day_index() >= 0,
        d.day_index() < days_before_year(10000),
{
    lemma_day_index_in_year(d);
    lemma_dby_bounds(d.year as int);
    lemma_dby_mono(d.year + 1, 10000);
}

/// Every well-formed timestamp's minute measure is within range.
pub proof fn lemma_ts_minutes_bounds(t: Timestamp)
    requires
        t.wf(),
    ensures
        0 <= t.ts_minutes() < max_ts_minutes(),
{
    lemma_day_index_in_year(t.date);
    lemma_dby_mono(t.date.year + 1, 10000);
    lemma_dby_bounds(t.date.year as int);
}

pub fn is_leap_year_exec(y: u16) -> (r: bool)
    ensures
        r == is_leap_year(y as int),
{
    y % 4 == 0 && (y % 100 != 0 || y % 400 == 0)
}

pub fn year_length_exec(y: u16) -> (r: u32)
    ensures
        r == year_length(y as int),
{
    if is_leap_year_exec(y) {
        366
    } else {
        365
    }
}

pub fn days_in_month_exec(y: u16, m: u8) -> (r: u8)
    ensures
        r == days_in_month(y as int, m as int),
{
    if m == 2 {
        if is_leap_year_exec(y) {
            29
        } else {
            28
        }
    } else if m == 4 || m == 6 || m == 9 || m == 11 {
        30
    } else {
        31
    }
}

/// Computes `days_before_year` by summing year lengths.
fn days_before_year_exec(y: u16) -> (r: u32)
    requires
        y <= 10000,
    ensures
        r == days_before_year(y as int),
{
    let mut acc: u32 = 0;
    let mut i: u16 = 0;
    while i < y
        invariant
            i <= y <= 10000,
            acc == days_before_year(i as int),
            acc <= 366 * (i as int),
        decreases y - i,
    {
        proof {
            lemma_dby_bounds(i as int);
        }
        if is_leap_year_exec(i) {
            acc += 366;
        } else {
            acc += 365;
        }
        i += 1;
        proof {
            lemma_dby_bounds(i as int);
        }
    }
    acc
}

/// Computes `days_before_month` by summing month lengths.
fn days_before_month_exec(y: u16, m: u8) -> (r: u16)
    requires
        1 <= m <= 13,
    ensures
        r == days_before_month(y as int, m as int),
{
    let mut acc: u16 = 0;
    let mut i: u8 = 1;
    while i < m
        invariant
            1 <= i <= m <= 13,
            acc == days_before_month(y as int, i as int),
            acc <= 31 * (i as int),
        decreases m - i,
    {
        proof {
            lemma_dbm_bound(y as int, i as int);
        }
        acc += days_in_month_exec(y, i) as u16;
        i += 1;
        proof {
            lemma_dbm_bound(y as int, i as int);
        }
    }
    acc
}

proof fn lemma_dbm_bound(y: int, m: int)
    requires
        m >= 1,
    ensures
        0 <= days_before_month(y, m) <= 31 * m,
    decreases m,
{
    if m > 1 {
        lemma_dbm_bound(y, m - 1);
    }
}

impl Date {
    pub fn wf_exec(&self) -> (r: bool)
        ensures
            r == self.wf(),
    {
        self.year <= 9999 && 1 <= self.month && self.month <= 12 && 1 <= self.day && self.day
            <= days_in_month_exec(self.year, self.month)
    }

    pub fn day_index_exec(&self) -> (r: u32)
        requires
            self.wf(),
        ensures
            r == self.day_index(),
            r < days_before_year(10000),
    {
        proof {
            lemma_day_index_in_year(*self);
            lemma_dby_mono(self.year + 1, 10000);
            lemma_dby_bounds(10000);
            lemma_dbm_bound(self.year as int, self.month as int);
        }
        let dby = days_before_year_exec(self.year);
        let dbm = days_before_month_exec(self.year, self.month);
        dby + dbm as u32 + self.day as u32 - 1
    }
}

/// Recovers the unique well-formed date at a given position on the day line.
pub fn date_from_day_index(n: u32) -> (d: Date)
    requires
        n < days_before_year(10000),
    ensures
        d.wf(),
        d.day_index() == n,
{
    proof {
        lemma_dby_bounds(10000);
    }
    let mut y: u16 = 0;
    let mut acc: u32 = 0;
    while y < 9999 && acc + year_length_exec(y) <= n
        invariant
            y <= 9999,
            acc == days_before_year(y as int),
            acc <= n < days_before_year(10000),
            days_before_year(10000) <= 3_660_000,
        decreases 9999 - y,
    {
        acc += year_length_exec(y);
        y += 1;
    }
    proof {
        if y == 9999 {
            assert(days_before_year(10000) == days_before_year(9999) + year_length(9999));
        }
        assert(n < acc + year_length(y as int));
    }
    let rest: u32 = n - acc;
    let mut m: u8 = 1;
    let mut macc: u16 = 0;
    while m < 12 && macc as u32 + days_in_month_exec(y, m) as u32 <= rest
        invariant
            1 <= m <= 12,
            macc == days_before_month(y as int, m as int),
            macc <= rest,
            rest < year_length(y as int),
            acc == days_before_year(y as int),
            n == acc + rest,
            y <= 9999,
            macc <= 31 * (m as int),
        decreases 12 - m,
    {
        proof {
            lemma_dbm_bound(y as int, (m + 1) as int);
        }
        macc += days_in_month_exec(y, m) as u16;
        m += 1;
    }
    proof {
        if m == 12 {
            lemma_dbm_total(y as int);
            assert(days_before_month(y as int, 13) == days_before_month(y as int, 12)
                + days_in_month(y as int, 12));
        }
        assert(rest < macc + days_in_month(y as int, m as int));
    }
    let day: u8 = ((rest - macc as u32) + 1) as u8;
    Date { year: y, month: m, day }
}

impl Timestamp {
    pub fn wf_exec(&self) -> (r: bool)
        ensures
            r == self.wf(),
    {
        self.date.wf_exec() && self.time.hour < 24 && self.time.minute < 60
    }

    pub fn ts_minutes_exec(&self) -> (r: u64)
        requires
            self.wf(),
        ensures
            r == self.ts_minutes(),
            r < max_ts_minutes(),
    {
        proof {
            lemma_ts_minutes_bounds(*self);
            lemma_dby_bounds(10000);
        }
        let di = self.date.day_index_exec() as u64;
        di * 1440 + (self.time.hour as u64) * 60 + self.time.minute as u64
    }
}

/// Recovers the unique well-formed timestamp at a given minute position.
pub fn timestamp_from_minutes(total: u64) -> (t: Timestamp)
    requires
        total < max_ts_minutes(),
    ensures
        t.wf(),
        t.ts_minutes() == total,
{
    proof {
        lemma_dby_bounds(10000);
        vstd::arithmetic::div_mod::lemma_fundamental_div_mod(total as int, 1440);
        assert(1440 * (total as int / 1440) <= total as int);
        assert((total as int) < 1440 * days_before_year(10000));
        vstd::arithmetic::div_mod::lemma_multiply_divide_lt(
            total as int,
            1440,
            days_before_year(10000),
        );
    }
    let day = (total / 1440) as u32;
    let tod = (total % 1440) as u16;
    let date = date_from_day_index(day);
    let hour = (tod / 60) as u8;
    let minute = (tod % 60) as u8;
    proof {
        vstd::arithmetic::div_mod::lemma_fundamental_div_mod(tod as int, 60);
    }
    let t = Timestamp { date, time: Time { hour, minute } };
    proof {
        assert(t.ts_minutes() == day * 1440 + tod);
    }
    t
}

/// The calendar day before a date, structurally; the first representable
/// day is its own predecessor.
pub open spec fn spec_date_pred(d: Date) -> Date {
    if d.day > 1 {
        Date { year: d.year, month: d.month, day: (d.day - 1) as u8 }
    } else if d.month > 1 {
        Date {
            year: d.year,
            month: (d.month - 1) as u8,
            day: days_in_month(d.year as int, d.month - 1) as u8,
        }
    } else if d.year > 0 {
        Date { year: (d.year - 1) as u16, month: 12, day: 31 }
    } else {
        d
    }
}

/// The calendar day before `self`, if there is one.
pub fn date_pred(d: &Date) -> (r: Option<Date>)
    requires
        d.wf(),
    ensures
        match r {
            Some(p) => {
                &&& p.wf()
                &&& p.day_index() == d.day_index() - 1
                &&& p == spec_date_pred(*d)
            },
            None => d.day_index() == 0 && *d == spec_date_pred(*d),
        },
{
    proof {
        lemma_day_index_in_year(*d);
    }
    if d.day > 1 {
        Some(Date { year: d.year, month: d.month, day: d.day - 1 })
    } else if d.month > 1 {
        let pm = d.month - 1;
        let r = Date { year: d.year, month: pm, day: days_in_month_exec(d.year, pm) };
        proof {
            assert(days_before_month(d.year as int, d.month as int) == days_before_month(
                d.year as int,
                pm as int,
            ) + days_in_month(d.year as int, pm as int));
        }
        Some(r)
    } else if d.year > 0 {
        let py = d.year - 1;
        let r = Date { year: py, month: 12, day: 31 };
        proof {
            lemma_dbm_total(py as int);
            assert(days_before_year(d.year as int) == days_before_year(py as int) + year_length(
                py as int,
            ));
            reveal_with_fuel(days_before_month, 13);
        }
        Some(r)
    } else {
        None
    }
}

/// The calendar day after `self`, if it is still representable.
pub fn date_succ(d: &Date) -> (r: Option<Date>)
    requires
        d.wf(),
    ensures
        match r {
            Some(p) => {
                &&& p.wf()
                &&& p.day_index() == d.day_index() + 1
            },
            None => d.day_index() == days_before_year(10000) - 1,
        },
{
    proof {
        lemma_day_index_in_year(*d);
    }
    if d.day < days_in_month_exec(d.year, d.month) {
        Some(Date { year: d.year, month: d.month, day: d.day + 1 })
    } else if d.month < 12 {
        let r = Date { year: d.year, month: d.month + 1, day: 1 };
        proof {
            assert(days_before_month(d.year as int, d.month + 1) == days_before_month(
                d.year as int,
                d.month as int,
            ) + days_in_month(d.year as int, d.month as int));
        }
        Some(r)
    } else if d.year < 9999 {
        let r = Date { year: d.year + 1, month: 1, day: 1 };
        proof {
            lemma_dbm_total(d.year as int);
        }
        Some(r)
    } else {
        proof {
            lemma_dbm_total(d.year as int);
            assert(days_before_year(10000) == days_before_year(9999) + year_length(9999));
        }
        None
    }
}

/// Moves a timestamp `delta` minutes into the past (or, for a negative
/// `delta`, into the future); `None` when the result would leave the
/// representable range.
pub fn shift_back_minutes(t: &Timestamp, delta: i64) -> (r: Option<Timestamp>)
    requires
        t.wf(),
    ensures
        match r {
            Some(s) => {
                &&& s.wf()
                &&& s.ts_minutes() == t.ts_minutes() - delta
                &&& 0 <= t.ts_minutes() - delta < max_ts_minutes()
            },
            None => !(0 <= t.ts_minutes() - delta < max_ts_minutes()),
        },
{
    proof {
        lemma_ts_minutes_bounds(*t);
        lemma_dby_bounds(10000);
    }
    let total = t.ts_minutes_exec();
    let limit = days_before_year_exec(10000) as u64 * 1440;
    if delta >= 0 {
        let d = delta as u64;
        if d > total {
            None
        } else {
            Some(timestamp_from_minutes(total - d))
        }
    } else {
        let add: u64 = if delta == i64::MIN {
            0x8000_0000_0000_0000u64
        } else {
            (-delta) as u64
        };
        if add >= limit - total {
            None
        } else {
            Some(timestamp_from_minutes(total + add))
        }
    }
}

pub open spec fn date_le(a: Date, b: Date) -> bool {
    date_lt(a, b) || a == b
}

/// Relies on chrono's `Local::now` for the current wall-clock instant, read
/// field by field through `Datelike` and `Timelike`; chrono documents the
/// month in 1..=12, the day of month in 1..=31, the hour below 24 and the
/// minute below 60.
#[verifier::external_body]
fn now_fields() -> (r: (i32, u32, u32, u32, u32))
    ensures
        1 <= r.1 <= 12,
        1 <= r.2 <= 31,
        r.3 < 24,
        r.4 < 60,
{
    let n = chrono::Local::now().naive_local();
    (n.year(), n.month(), n.day(), n.hour(), n.minute())
}

/// The current wall-clock timestamp. A clock reading outside the calendar
/// this library can write down (years 0 through 9999) is clamped to its
/// nearest representable date.
pub fn now_local() -> (t: Timestamp)
    ensures
        t.wf(),
{
    let (y, mo, d, h, mi) = now_fields();
    let year: u16 = if y < 0 {
        0
    } else if y > 9999 {
        9999
    } else {
        y as u16
    };
    let month: u8 = mo as u8;
    let dim = days_in_month_exec(year, month);
    let day8: u8 = d as u8;
    let day: u8 = if day8 > dim {
        dim
    } else {
        day8
    };
    Timestamp { date: Date { year, month, day }, time: Time { hour: h as u8, minute: mi as u8 } }
}

/// Lexicographic comparison of timestamps.
pub fn ts_le_exec(a: &Timestamp, b: &Timestamp) -> (r: bool)
    ensures
        r == ts_le(*a, *b),
{
    if a.date.year != b.date.year {
        a.date.year < b.date.year
    } else if a.date.month != b.date.month {
        a.date.month < b.date.month
    } else if a.date.day != b.date.day {
        a.date.day < b.date.day
    } else {
        (a.time.hour as u16) * 60 + a.time.minute as u16 <= (b.time.hour as u16) * 60
            + b.time.minute as u16
    }
}

} // verus!
