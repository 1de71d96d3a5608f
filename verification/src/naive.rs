//! Timezone-less civil datetimes.
//!
//! A [`NaiveDateTime`] is a count of non-leap seconds since the Unix
//! epoch together with a nanosecond part.  The nanosecond part may reach
//! into `[1e9, 2e9)` to encode a leap second.  Calendar fields are always
//! derived from the second count through the verified conversions in
//! [`crate::calendar`]; they are never stored.

use vstd::prelude::*;
use crate::calendar::{
    days_before_month, days_before_year, days_before_month_x, days_before_year_x, days_from_ymd,
    days_in_month, days_in_month_x, days_to_ymd, div_floor, is_civil_of, is_leap_year,
    is_leap_year_x, lemma_civil_within_year, lemma_days_before_month_bound,
    lemma_days_before_month_mono, lemma_year_length, rem_floor, valid_ymd, ymd_to_days, EPOCH_DAYS,
    MAX_DAY, MAX_SECS, MAX_YEAR, MIN_DAY, MIN_SECS, MIN_YEAR,
};
use crate::delta::TimeDelta;

verus! {

/// Seconds in a day.
pub const SECS_PER_DAY: i64 = 86400;
/// Two days of slack around the representable range, used for the
/// internal overflowing projections.
pub const EXT_SLACK: i64 = 172800;

/// Day number (from the Unix epoch) of a second count.
pub open spec fn days_of_secs(secs: int) -> int {
    secs / (SECS_PER_DAY as int)
}

/// Second of the day of a second count.
pub open spec fn sod_of_secs(secs: int) -> int {
    secs % (SECS_PER_DAY as int)
}

/// Weekday index of a day number: 0 is Monday through 6 is Sunday.
/// Day 0 (1970-01-01) was a Thursday.
pub open spec fn weekday_of_days(days: int) -> int {
    (days + 3) % 7
}

/// A day of the week.
#[derive(Clone, Copy, PartialEq, Eq, Structural, Debug, Hash)]
pub enum Weekday {
    Mon,
    Tue,
    Wed,
    Thu,
    Fri,
    Sat,
    Sun,
}

impl Weekday {
    /// The index used by `weekday_of_days`: 0 for Monday .. 6 for Sunday.
    pub open spec fn spec_days_from_monday(self) -> int {
        match self {
            Weekday::Mon => 0,
            Weekday::Tue => 1,
            Weekday::Wed => 2,
            Weekday::Thu => 3,
            Weekday::Fri => 4,
            Weekday::Sat => 5,
            Weekday::Sun => 6,
        }
    }

    pub fn num_days_from_monday(&self) -> (r: u32)
        ensures
            r == self.spec_days_from_monday(),
    {
        match self {
            Weekday::Mon => 0,
            Weekday::Tue => 1,
            Weekday::Wed => 2,
            Weekday::Thu => 3,
            Weekday::Fri => 4,
            Weekday::Sat => 5,
            Weekday::Sun => 6,
        }
    }

    pub fn number_from_monday(&self) -> (r: u32)
        ensures
            r == self.spec_days_from_monday() + 1,
    {
        self.num_days_from_monday() + 1
    }

    /// The weekday with the given Monday-based index.
    pub fn from_days_from_monday(i: u8) -> (r: Weekday)
        requires
            i < 7,
        ensures
            r.spec_days_from_monday() == i,
    {
        if i == 0 {
            Weekday::Mon
        } else if i == 1 {
            Weekday::Tue
        } else if i == 2 {
            Weekday::Wed
        } else if i == 3 {
            Weekday::Thu
        } else if i == 4 {
            Weekday::Fri
        } else if i == 5 {
            Weekday::Sat
        } else {
            Weekday::Sun
        }
    }
}

/// Weekday index (0 = Monday) of the first of January of year `y`.
pub open spec fn jan1_weekday(y: int) -> int {
    weekday_of_days(days_before_year(y) - EPOCH_DAYS)
}

/// Number of ISO weeks in year `y`: 53 when the year starts on a
/// Thursday, or on a Wednesday in a leap year; else 52.
pub open spec fn weeks_in_iso_year(y: int) -> int {
    if jan1_weekday(y) == 3 || (is_leap_year(y) && jan1_weekday(y) == 2) {
        53
    } else {
        52
    }
}

/// The ISO 8601 week of a date, given its year, 1-based ordinal and
/// weekday index: days in the final week of December may belong to week
/// 1 of the next year, days in the first week of January to the last
/// week of the previous.
pub open spec fn iso_week_of(y: int, ord: int, wd: int) -> (int, int) {
    let raw = (ord + 9 - wd) / 7;
    if raw < 1 {
        (y - 1, weeks_in_iso_year(y - 1))
    } else if raw > weeks_in_iso_year(y) {
        (y + 1, 1)
    } else {
        (y, raw)
    }
}

/// An ISO 8601 week: a week-year and a week number in `[1, 53]`.
#[derive(Clone, Copy, PartialEq, Eq, Structural, Debug, Hash)]
pub struct IsoWeek {
    pub year: i32,
    pub week: u8,
}

impl IsoWeek {
    pub fn year(&self) -> (r: i32)
        ensures
            r == self.year,
    {
        self.year
    }

    pub fn week(&self) -> (r: u32)
        ensures
            r == self.week,
    {
        self.week as u32
    }
}

/// A calendar date: year, month and day of month.
#[derive(Clone, Copy, PartialEq, Eq, Structural, Debug, Hash)]
pub struct NaiveDate {
    pub year: i32,
    pub month: u8,
    pub day: u8,
}

impl NaiveDate {
    pub open spec fn wf(self) -> bool {
        valid_ymd(self.year as int, self.month as int, self.day as int)
    }

    /// The day number of this date, counted from the Unix epoch.
    pub open spec fn spec_days(self) -> int {
        days_from_ymd(self.year as int, self.month as int, self.day as int)
    }

    pub fn from_ymd_opt(year: i32, month: u32, day: u32) -> (r: Option<NaiveDate>)
        ensures
            match r {
                Some(date) => {
                    &&& date.wf()
                    &&& date.year == year
                    &&& date.month == month
                    &&& date.day == day
                    &&& valid_ymd(year as int, month as int, day as int)
                },
                None => !valid_ymd(year as int, month as int, day as int),
            },
    {
        if year as i64 >= MIN_YEAR && year as i64 <= MAX_YEAR && month >= 1 && month <= 12 {
            let dim = days_in_month_x(year as i64, month as u8);
            if day >= 1 && day <= dim as u32 {
                return Some(NaiveDate { year, month: month as u8, day: day as u8 });
            }
        }
        None
    }

    pub fn year(&self) -> (r: i32)
        ensures
            r == self.year,
    {
        self.year
    }

    pub fn month(&self) -> (r: u32)
        ensures
            r == self.month,
    {
        self.month as u32
    }

    pub fn day(&self) -> (r: u32)
        ensures
            r == self.day,
    {
        self.day as u32
    }

    /// Day number of this date, counted from the Unix epoch.
    pub fn num_days_from_epoch(&self) -> (r: i64)
        requires
            self.wf(),
        ensures
            r == self.spec_days(),
            MIN_DAY <= r <= MAX_DAY,
    {
        ymd_to_days(self.year as i64, self.month, self.day)
    }

    pub fn weekday(&self) -> (r: Weekday)
        requires
            self.wf(),
        ensures
            r.spec_days_from_monday() == weekday_of_days(self.spec_days()),
    {
        let days = self.num_days_from_epoch();
        let idx = rem_floor(days + 3, 7);
        Weekday::from_days_from_monday(idx as u8)
    }
}

/// A clock reading: seconds from midnight plus a nanosecond part that
/// encodes a leap second when it reaches `[1e9, 2e9)`.
#[derive(Clone, Copy, PartialEq, Eq, Structural, Debug, Hash)]
pub struct NaiveTime {
    pub secs: u32,
    pub frac: u32,
}

impl NaiveTime {
    pub open spec fn wf(self) -> bool {
        &&& self.secs < 86400
        &&& self.frac < 2000000000
    }

    pub fn from_num_seconds_from_midnight_opt(secs: u32, nano: u32) -> (r: Option<NaiveTime>)
        ensures
            match r {
                Some(t) => t.secs == secs && t.frac == nano && t.wf(),
                None => !(secs < 86400 && nano < 2000000000),
            },
    {
        if secs < 86400 && nano < 2000000000 {
            Some(NaiveTime { secs, frac: nano })
        } else {
            None
        }
    }

    pub fn from_hms_nano_opt(hour: u32, min: u32, sec: u32, nano: u32) -> (r: Option<NaiveTime>)
        ensures
            match r {
                Some(t) => {
                    &&& hour < 24 && min < 60 && sec < 60 && nano < 2000000000
                    &&& t.wf()
                    &&& t.secs == hour * 3600 + min * 60 + sec
                    &&& t.frac == nano
                },
                None => !(hour < 24 && min < 60 && sec < 60 && nano < 2000000000),
            },
    {
        if hour < 24 && min < 60 && sec < 60 && nano < 2000000000 {
            Some(NaiveTime { secs: hour * 3600 + min * 60 + sec, frac: nano })
        } else {
            None
        }
    }

    pub fn hour(&self) -> (r: u32)
        requires
            self.wf(),
        ensures
            r == self.secs as int / 3600,
    {
        self.secs / 3600
    }

    pub fn minute(&self) -> (r: u32)
        requires
            self.wf(),
        ensures
            r == self.secs as int % 3600 / 60,
    {
        self.secs % 3600 / 60
    }

    pub fn second(&self) -> (r: u32)
        requires
            self.wf(),
        ensures
            r == self.secs as int % 60,
    {
        proof {
            lemma_sod_second(self.secs as int);
        }
        self.secs % 3600 % 60
    }

    pub fn nanosecond(&self) -> (r: u32)
        ensures
            r == self.frac,
    {
        self.frac
    }
}

/// `(s % 3600) % 60 == s % 60` for non-negative `s`.
proof fn lemma_sod_second(s: int)
    requires
        0 <= s,
    ensures
        s % 3600 % 60 == s % 60,
{
    vstd::arithmetic::div_mod::lemma_fundamental_div_mod(s, 3600);
    vstd::arithmetic::div_mod::lemma_mod_bound(s, 3600);
    vstd::arithmetic::div_mod::lemma_fundamental_div_mod(s % 3600, 60);
    vstd::arithmetic::div_mod::lemma_mod_bound(s % 3600, 60);
    let q1 = s / 3600;
    let r1 = s % 3600;
    let q2 = r1 / 60;
    let r2 = r1 % 60;
    assert(s == 60 * (60 * q1 + q2) + r2) by (nonlinear_arith)
        requires
            s == 3600 * q1 + r1,
            r1 == 60 * q2 + r2,
    {}
    vstd::arithmetic::div_mod::lemma_fundamental_div_mod_converse(s, 60, 60 * q1 + q2, r2);
}

/// A timezone-less civil datetime: seconds since the Unix epoch (not
/// counting leap seconds) plus nanoseconds, where a nanosecond value of
/// `1e9` or more encodes a leap second.
#[derive(Clone, Copy, PartialEq, Eq, Structural, Debug, Hash)]
pub struct NaiveDateTime {
    pub secs: i64,
    pub nsecs: u32,
}

impl NaiveDateTime {
    /// Inside the representable range.
    pub open spec fn wf(self) -> bool {
        &&& MIN_SECS <= self.secs <= MAX_SECS
        &&& self.nsecs < 2000000000
    }

    /// Inside the representable range extended by two days: the buffer
    /// used by the overflowing local projections.
    pub open spec fn wf_ext(self) -> bool {
        &&& MIN_SECS - EXT_SLACK <= self.secs <= MAX_SECS + EXT_SLACK
        &&& self.nsecs < 2000000000
    }

    pub open spec fn spec_days(self) -> int {
        days_of_secs(self.secs as int)
    }

    pub open spec fn spec_sod(self) -> int {
        sod_of_secs(self.secs as int)
    }

    /// The instant from a Unix timestamp.  A nanosecond count of one
    /// second or more encodes a leap second and is only accepted on the
    /// 59th second of a minute.
    pub fn from_timestamp(secs: i64, nsecs: u32) -> (r: Option<NaiveDateTime>)
        ensures
            match r {
                Some(t) => {
                    &&& t.secs == secs
                    &&& t.nsecs == nsecs
                    &&& t.wf()
                    &&& MIN_SECS <= secs <= MAX_SECS
                    &&& (nsecs < 1000000000 || (nsecs < 2000000000 && secs as int % 60 == 59))
                },
                None => !(MIN_SECS <= secs <= MAX_SECS && (nsecs < 1000000000 || (nsecs
                    < 2000000000 && secs as int % 60 == 59))),
            },
    {
        if secs < MIN_SECS || secs > MAX_SECS {
            return None;
        }
        if nsecs < 1000000000 {
            Some(NaiveDateTime { secs, nsecs })
        } else if nsecs < 2000000000 && rem_floor(secs, 60) == 59 {
            Some(NaiveDateTime { secs, nsecs })
        } else {
            None
        }
    }

    /// The instant from a count of non-leap milliseconds since the epoch.
    pub fn from_timestamp_millis(millis: i64) -> (r: Option<NaiveDateTime>)
        ensures
            match r {
                Some(t) => {
                    &&& t.wf()
                    &&& t.secs * 1000 + t.nsecs as int / 1000000 == millis
                    &&& t.nsecs < 1000000000
                    &&& t.nsecs as int % 1000000 == 0
                    &&& MIN_SECS * 1000 <= millis <= MAX_SECS * 1000 + 999
                },
                None => !(MIN_SECS * 1000 <= millis <= MAX_SECS * 1000 + 999),
            },
    {
        let secs = div_floor(millis, 1000);
        let sub = rem_floor(millis, 1000);
        proof {
            vstd::arithmetic::div_mod::lemma_fundamental_div_mod(millis as int, 1000);
        }
        if secs < MIN_SECS || secs > MAX_SECS {
            return None;
        }
        let nsecs = (sub as u32) * 1000000;
        proof {
            vstd::arithmetic::div_mod::lemma_fundamental_div_mod_converse(
                nsecs as int,
                1000000,
                sub as int,
                0,
            );
        }
        Some(NaiveDateTime { secs, nsecs })
    }

    /// Seconds since the epoch, not counting leap seconds.
    pub fn timestamp(&self) -> (r: i64)
        ensures
            r == self.secs,
    {
        self.secs
    }

    /// Non-leap milliseconds since the epoch.
    pub fn timestamp_millis(&self) -> (r: i64)
        requires
            self.wf(),
        ensures
            r == self.secs * 1000 + self.nsecs as int / 1000000,
    {
        self.secs * 1000 + (self.nsecs / 1000000) as i64
    }

    /// Non-leap microseconds since the epoch.
    pub fn timestamp_micros(&self) -> (r: i64)
        requires
            self.wf(),
        ensures
            r == self.secs * 1000000 + self.nsecs as int / 1000,
    {
        self.secs * 1000000 + (self.nsecs / 1000) as i64
    }

    /// Non-leap nanoseconds since the epoch, when the count fits a
    /// 64-bit integer.
    pub fn timestamp_nanos(&self) -> (r: Option<i64>)
        requires
            self.wf(),
        ensures
            match r {
                Some(n) => n == self.secs * 1000000000 + self.nsecs,
                None => !(i64::MIN <= self.secs * 1000000000 + self.nsecs <= i64::MAX),
            },
    {
        if self.secs < 0 && self.nsecs >= 1000000000 {
            // A leap second needs a shift of two to keep the remainder
            // negative, so that an overflowing base implies an
            // unrepresentable total.
            let base = match (self.secs + 2).checked_mul(1000000000) {
                Some(b) => b,
                None => {
                    return None;
                },
            };
            match base.checked_add(self.nsecs as i64 - 2000000000) {
                Some(total) => Some(total),
                None => None,
            }
        } else if self.secs < 0 && self.nsecs > 0 {
            let base = match (self.secs + 1).checked_mul(1000000000) {
                Some(b) => b,
                None => {
                    return None;
                },
            };
            match base.checked_add(self.nsecs as i64 - 1000000000) {
                Some(total) => Some(total),
                None => None,
            }
        } else {
            let base = match self.secs.checked_mul(1000000000) {
                Some(b) => b,
                None => {
                    return None;
                },
            };
            match base.checked_add(self.nsecs as i64) {
                Some(total) => Some(total),
                None => None,
            }
        }
    }

    /// Milliseconds since the last second boundary; above 999 during a
    /// leap second.
    pub fn timestamp_subsec_millis(&self) -> (r: u32)
        ensures
            r == self.nsecs as int / 1000000,
    {
        self.nsecs / 1000000
    }

    /// Microseconds since the last second boundary.
    pub fn timestamp_subsec_micros(&self) -> (r: u32)
        ensures
            r == self.nsecs as int / 1000,
    {
        self.nsecs / 1000
    }

    /// Nanoseconds since the last second boundary.
    pub fn timestamp_subsec_nanos(&self) -> (r: u32)
        ensures
            r == self.nsecs,
    {
        self.nsecs
    }

    /// The calendar date of this instant.
    pub fn date(&self) -> (r: NaiveDate)
        requires
            self.wf(),
        ensures
            r.wf(),
            is_civil_of(self.spec_days(), r.year as int, r.month as int, r.day as int),
    {
        proof {
            lemma_days_of_wf(self.secs as int);
        }
        let days = div_floor(self.secs, SECS_PER_DAY);
        let (y, m, d) = days_to_ymd(days);
        NaiveDate { year: y as i32, month: m, day: d }
    }

    /// The clock reading of this instant.
    pub fn time(&self) -> (r: NaiveTime)
        requires
            self.wf_ext(),
        ensures
            r.wf(),
            r.secs == self.spec_sod(),
            r.frac == self.nsecs,
    {
        let sod = rem_floor(self.secs, SECS_PER_DAY);
        NaiveTime { secs: sod as u32, frac: self.nsecs }
    }

    /// The civil triple of this instant, tolerating the extended range.
    pub fn civil(&self) -> (r: (i64, u8, u8))
        requires
            self.wf_ext(),
        ensures
            is_civil_of(self.spec_days(), r.0 as int, r.1 as int, r.2 as int),
            MIN_YEAR - 1 <= r.0 <= MAX_YEAR + 1,
    {
        proof {
            lemma_days_of_ext(self.secs as int);
        }
        let days = div_floor(self.secs, SECS_PER_DAY);
        let (y, m, d) = days_to_ymd(days);
        (y, m, d)
    }

    pub fn year(&self) -> (r: i32)
        requires
            self.wf_ext(),
        ensures
            exists|m: int, d: int| is_civil_of(self.spec_days(), r as int, m, d),
    {
        let (y, m, d) = self.civil();
        proof {
            assert(is_civil_of(self.spec_days(), y as int, m as int, d as int));
        }
        y as i32
    }

    pub fn month(&self) -> (r: u32)
        requires
            self.wf_ext(),
        ensures
            exists|y: int, d: int| is_civil_of(self.spec_days(), y, r as int, d),
    {
        let (y, m, d) = self.civil();
        proof {
            assert(is_civil_of(self.spec_days(), y as int, m as int, d as int));
        }
        m as u32
    }

    pub fn day(&self) -> (r: u32)
        requires
            self.wf_ext(),
        ensures
            exists|y: int, m: int| is_civil_of(self.spec_days(), y, m, r as int),
    {
        let (y, m, d) = self.civil();
        proof {
            assert(is_civil_of(self.spec_days(), y as int, m as int, d as int));
        }
        d as u32
    }

    /// 1-based day of the year.
    pub fn ordinal(&self) -> (r: u32)
        requires
            self.wf_ext(),
        ensures
            exists|y: int|
                {
                    &&& r >= 1
                    &&& self.spec_days() == days_before_year(y) - EPOCH_DAYS + r - 1
                    &&& r <= days_before_month(y, 13)
                },
    {
        let (y, m, d) = self.civil();
        proof {
            lemma_civil_within_year(y as int, m as int, d as int);
            lemma_days_before_month_bound(y as int, m as int);
            lemma_days_before_month_mono(y as int, m as int + 1, 13);
            lemma_year_length(y as int);
        }
        let bm = days_before_month_x(y, m);
        let r = bm as u32 + d as u32;
        proof {
            assert(self.spec_days() == days_before_year(y as int) - EPOCH_DAYS + r - 1);
        }
        r
    }

    pub fn hour(&self) -> (r: u32)
        requires
            self.wf_ext(),
        ensures
            r == self.spec_sod() / 3600,
    {
        let sod = rem_floor(self.secs, SECS_PER_DAY);
        (sod as u32) / 3600
    }

    pub fn minute(&self) -> (r: u32)
        requires
            self.wf_ext(),
        ensures
            r == self.spec_sod() % 3600 / 60,
    {
        let sod = rem_floor(self.secs, SECS_PER_DAY);
        (sod as u32) % 3600 / 60
    }

    pub fn second(&self) -> (r: u32)
        requires
            self.wf_ext(),
        ensures
            r == self.spec_sod() % 60,
    {
        let sod = rem_floor(self.secs, SECS_PER_DAY);
        proof {
            lemma_sod_second(sod as int);
        }
        (sod as u32) % 3600 % 60
    }

    pub fn nanosecond(&self) -> (r: u32)
        ensures
            r == self.nsecs,
    {
        self.nsecs
    }

    pub fn weekday(&self) -> (r: Weekday)
        requires
            self.wf_ext(),
        ensures
            r.spec_days_from_monday() == weekday_of_days(self.spec_days()),
    {
        let days = div_floor(self.secs, SECS_PER_DAY);
        let idx = rem_floor(days + 3, 7);
        Weekday::from_days_from_monday(idx as u8)
    }

    /// The ISO 8601 week of this instant.
    pub fn iso_week(&self) -> (r: IsoWeek)
        requires
            self.wf_ext(),
        ensures
            exists|y: int, ord: int|
                {
                    &&& self.spec_days() == days_before_year(y) - EPOCH_DAYS + ord - 1
                    &&& 1 <= ord <= days_before_month(y, 13)
                    &&& (r.year as int, r.week as int) == iso_week_of(
                        y,
                        ord,
                        weekday_of_days(self.spec_days()),
                    )
                },
    {
        let (y, m, d) = self.civil();
        proof {
            lemma_civil_within_year(y as int, m as int, d as int);
            lemma_days_before_month_bound(y as int, m as int);
            lemma_days_before_month_mono(y as int, m as int + 1, 13);
            lemma_year_length(y as int);
        }
        let bm = days_before_month_x(y, m);
        let ord: u32 = bm as u32 + d as u32;
        let days = div_floor(self.secs, SECS_PER_DAY);
        let wd = rem_floor(days + 3, 7);
        proof {
            assert(self.spec_days() == days_before_year(y as int) - EPOCH_DAYS + ord - 1);
        }
        let raw = (ord as i64 + 9 - wd) / 7;
        let wiy = weeks_in_iso_year_x(y);
        let (wy, ww): (i64, u8) = if raw < 1 {
            let prev = weeks_in_iso_year_x(y - 1);
            (y - 1, prev)
        } else if raw > wiy as i64 {
            (y + 1, 1)
        } else {
            (y, raw as u8)
        };
        proof {
            assert((wy as int, ww as int) == iso_week_of(
                y as int,
                ord as int,
                weekday_of_days(self.spec_days()),
            ));
        }
        IsoWeek { year: wy as i32, week: ww }
    }
}

/// Number of ISO weeks in a year, as executable code.
pub fn weeks_in_iso_year_x(y: i64) -> (r: u8)
    requires
        -262500 <= y <= 262500,
    ensures
        r == weeks_in_iso_year(y as int),
        52 <= r <= 53,
{
    let jan1 = days_before_year_x(y);
    let wd = rem_floor(jan1 - EPOCH_DAYS + 3, 7);
    if wd == 3 || (is_leap_year_x(y) && wd == 2) {
        53
    } else {
        52
    }
}

/// A second count in the nominal range has its day in the nominal day
/// range.
proof fn lemma_days_of_wf(secs: int)
    requires
        MIN_SECS <= secs <= MAX_SECS,
    ensures
        MIN_DAY <= days_of_secs(secs) <= MAX_DAY,
{
    vstd::arithmetic::div_mod::lemma_div_is_ordered(MIN_SECS as int, secs, SECS_PER_DAY as int);
    vstd::arithmetic::div_mod::lemma_div_is_ordered(secs, MAX_SECS as int, SECS_PER_DAY as int);
}

/// A second count in the extended range has its day in the extended day
/// range.
proof fn lemma_days_of_ext(secs: int)
    requires
        MIN_SECS - EXT_SLACK <= secs <= MAX_SECS + EXT_SLACK,
    ensures
        MIN_DAY - 2 <= days_of_secs(secs) <= MAX_DAY + 2,
{
    vstd::arithmetic::div_mod::lemma_div_is_ordered(
        MIN_SECS - EXT_SLACK as int,
        secs,
        SECS_PER_DAY as int,
    );
    vstd::arithmetic::div_mod::lemma_div_is_ordered(
        secs,
        MAX_SECS + EXT_SLACK as int,
        SECS_PER_DAY as int,
    );
}


/// The result of adding `dn` nanoseconds to the instant `(secs, nsecs)`.
///
/// Ordinary instants follow plain nanosecond arithmetic.  A leap-second
/// instant (`nsecs >= 1e9`) keeps its leap encoding while the result
/// stays inside the same leap second; once the result leaves it, the
/// leap second counts as one elapsed second and the result is an
/// ordinary instant, so that exactly one leap second is ever assumed.
pub open spec fn leap_add(secs: int, nsecs: int, dn: int) -> (int, int) {
    if nsecs >= 1000000000 && 1000000000 <= nsecs + dn < 2000000000 {
        (secs, nsecs + dn)
    } else {
        let total = secs * 1000000000 + nsecs + dn;
        (total / 1000000000, total % 1000000000)
    }
}

/// The elapsed nanoseconds from `(s2, n2)` to `(s1, n1)`.
///
/// No leap seconds are assumed between the two instants, except that a
/// leap-second endpoint occupies one extra second: when the earlier
/// endpoint encodes a leap second and the later one lies in a later
/// second, that leap second counts as elapsed.
pub open spec fn leap_diff(s1: int, n1: int, s2: int, n2: int) -> int {
    (s1 - s2) * 1000000000 + (n1 - n2) + if n2 >= 1000000000 && s1 > s2 {
        1000000000int
    } else if n1 >= 1000000000 && s1 < s2 {
        -1000000000int
    } else {
        0int
    }
}

impl NaiveDateTime {
    /// Core of duration arithmetic: add `ds` seconds and `dn` nanoseconds
    /// (`dn < 1e9`), following `leap_add`; fails when the result leaves
    /// the representable range.
    fn checked_add_norm(&self, ds: i64, dn: u32) -> (r: Option<NaiveDateTime>)
        requires
            self.wf(),
            -9300000000000000 <= ds <= 9300000000000000,
            dn < 1000000000,
        ensures
            ({
                let (s2, n2) = leap_add(self.secs as int, self.nsecs as int, ds * 1000000000 + dn);
                match r {
                    Some(t) => {
                        &&& t.wf()
                        &&& t.secs == s2
                        &&& t.nsecs == n2
                    },
                    None => !(MIN_SECS <= s2 <= MAX_SECS),
                }
            }),
    {
        let ghost dtotal = ds * 1000000000 + dn;
        if self.nsecs >= 1000000000 {
            // possibly staying within the leap second
            if ds == 0 && (self.nsecs as u64 + dn as u64) < 2000000000 {
                assert(1000000000 <= self.nsecs + dtotal < 2000000000);
                return Some(NaiveDateTime { secs: self.secs, nsecs: self.nsecs + dn });
            }
            if ds == -1 && (self.nsecs as u64 + dn as u64) >= 2000000000 {
                assert(1000000000 <= self.nsecs + dtotal < 2000000000);
                return Some(
                    NaiveDateTime { secs: self.secs, nsecs: self.nsecs + dn - 1000000000 },
                );
            }
            proof {
                if ds >= 1 {
                    assert(self.nsecs + dtotal >= 2000000000);
                }
                if ds <= -2 {
                    assert(self.nsecs + dtotal < 1000000000);
                }
                assert(!(1000000000 <= self.nsecs + dtotal < 2000000000));
            }
            let base_secs = self.secs + 1;
            let base_sub = self.nsecs - 1000000000;
            self.add_plain(base_secs, base_sub, ds, dn, Ghost(dtotal))
        } else {
            self.add_plain(self.secs, self.nsecs, ds, dn, Ghost(dtotal))
        }
    }

    /// Plain (non-leap) part of `checked_add_norm`: the instant is
    /// `(base_secs, base_sub)` with `base_sub < 1e9`.
    #[verifier::spinoff_prover]
    fn add_plain(
        &self,
        base_secs: i64,
        base_sub: u32,
        ds: i64,
        dn: u32,
        total: Ghost<int>,
    ) -> (r: Option<NaiveDateTime>)
        requires
            MIN_SECS - EXT_SLACK <= base_secs <= MAX_SECS + EXT_SLACK + 1,
            base_sub < 1000000000,
            -9300000000000000 <= ds <= 9300000000000000,
            dn < 1000000000,
            total@ == ds * 1000000000 + dn,
            self.secs * 1000000000 + self.nsecs + total@ == base_secs * 1000000000 + base_sub
                + total@,
        ensures
            ({
                let whole = self.secs * 1000000000 + self.nsecs + total@;
                match r {
                    Some(t) => {
                        &&& t.wf()
                        &&& t.secs == whole / 1000000000
                        &&& t.nsecs == whole % 1000000000
                    },
                    None => !(MIN_SECS <= whole / 1000000000 <= MAX_SECS),
                }
            }),
    {
        let sum_sub = base_sub + dn;  // < 2e9
        let carry: i64 = if sum_sub >= 1000000000 {
            1
        } else {
            0
        };
        let n2 = if sum_sub >= 1000000000 {
            sum_sub - 1000000000
        } else {
            sum_sub
        };
        let s2 = base_secs + ds + carry;
        proof {
            let whole = self.secs * 1000000000 + self.nsecs + total@;
            assert(whole == s2 * 1000000000 + n2);
            vstd::arithmetic::div_mod::lemma_fundamental_div_mod_converse(
                whole,
                1000000000,
                s2 as int,
                n2 as int,
            );
        }
        if MIN_SECS <= s2 && s2 <= MAX_SECS {
            Some(NaiveDateTime { secs: s2, nsecs: n2 })
        } else {
            None
        }
    }

    /// Add a duration, reporting failure when the result leaves the
    /// representable range.
    pub fn checked_add_signed(&self, d: TimeDelta) -> (r: Option<NaiveDateTime>)
        requires
            self.wf(),
            d.wf(),
        ensures
            ({
                let (s2, n2) = leap_add(self.secs as int, self.nsecs as int, d.total_nanos());
                match r {
                    Some(t) => {
                        &&& t.wf()
                        &&& t.secs == s2
                        &&& t.nsecs == n2
                    },
                    None => !(MIN_SECS <= s2 <= MAX_SECS),
                }
            }),
    {
        self.checked_add_norm(d.secs, d.nanos)
    }

    /// Subtract a duration, reporting failure when the result leaves the
    /// representable range.
    pub fn checked_sub_signed(&self, d: TimeDelta) -> (r: Option<NaiveDateTime>)
        requires
            self.wf(),
            d.wf(),
        ensures
            ({
                let (s2, n2) = leap_add(self.secs as int, self.nsecs as int, -d.total_nanos());
                match r {
                    Some(t) => {
                        &&& t.wf()
                        &&& t.secs == s2
                        &&& t.nsecs == n2
                    },
                    None => !(MIN_SECS <= s2 <= MAX_SECS),
                }
            }),
    {
        if d.nanos == 0 {
            self.checked_add_norm(-d.secs, 0)
        } else {
            self.checked_add_norm(-d.secs - 1, 1000000000 - d.nanos)
        }
    }

    /// The elapsed time from `rhs` to `self`, following `leap_diff`.
    /// Never fails: the representable range always fits a `TimeDelta`.
    pub fn signed_duration_since(&self, rhs: &NaiveDateTime) -> (r: TimeDelta)
        requires
            self.wf_ext(),
            rhs.wf_ext(),
        ensures
            r.wf(),
            r.total_nanos() == leap_diff(
                self.secs as int,
                self.nsecs as int,
                rhs.secs as int,
                rhs.nsecs as int,
            ),
    {
        let adj: i64 = if rhs.nsecs >= 1000000000 && self.secs > rhs.secs {
            1
        } else if self.nsecs >= 1000000000 && self.secs < rhs.secs {
            -1
        } else {
            0
        };
        let mut ts = self.secs - rhs.secs + adj;
        let mut tn = self.nsecs as i64 - rhs.nsecs as i64;
        if tn < 0 {
            ts = ts - 1;
            tn = tn + 1000000000;
        }
        if tn < 0 {
            ts = ts - 1;
            tn = tn + 1000000000;
        }
        if tn >= 1000000000 {
            ts = ts + 1;
            tn = tn - 1000000000;
        }
        TimeDelta { secs: ts, nanos: tn as u32 }
    }

    /// Shift by a fixed offset, reporting failure when the result leaves
    /// the representable range.  The nanosecond part is untouched.
    pub fn checked_add_offset_secs(&self, off: i32) -> (r: Option<NaiveDateTime>)
        requires
            self.wf(),
            -86400 < off < 86400,
        ensures
            match r {
                Some(t) => {
                    &&& t.wf()
                    &&& t.secs == self.secs + off
                    &&& t.nsecs == self.nsecs
                },
                None => !(MIN_SECS <= self.secs + off <= MAX_SECS),
            },
    {
        let s2 = self.secs + off as i64;
        if MIN_SECS <= s2 && s2 <= MAX_SECS {
            Some(NaiveDateTime { secs: s2, nsecs: self.nsecs })
        } else {
            None
        }
    }

    /// Shift by a fixed offset into the extended buffer range; total.
    /// The result may lie slightly outside the representable range and
    /// must stay internal.
    pub fn overflowing_add_offset_secs(&self, off: i32) -> (r: NaiveDateTime)
        requires
            self.wf(),
            -86400 < off < 86400,
        ensures
            r.wf_ext(),
            r.secs == self.secs + off,
            r.nsecs == self.nsecs,
    {
        NaiveDateTime { secs: self.secs + off as i64, nsecs: self.nsecs }
    }

    /// Rebuild the instant on a new civil date, keeping the clock
    /// reading; fails when the date is invalid or out of range.
    fn with_civil(&self, y2: i64, m2: u8, d2: u8) -> (r: Option<NaiveDateTime>)
        requires
            self.wf_ext(),
        ensures
            match r {
                Some(t) => {
                    &&& valid_ymd(y2 as int, m2 as int, d2 as int)
                    &&& t.wf()
                    &&& t.spec_days() == days_from_ymd(y2 as int, m2 as int, d2 as int)
                    &&& t.spec_sod() == self.spec_sod()
                    &&& t.nsecs == self.nsecs
                },
                None => !valid_ymd(y2 as int, m2 as int, d2 as int),
            },
    {
        if y2 < MIN_YEAR || y2 > MAX_YEAR || m2 < 1 || m2 > 12 {
            return None;
        }
        if d2 < 1 || d2 > days_in_month_x(y2, m2) {
            return None;
        }
        let days2 = ymd_to_days(y2, m2, d2);
        let sod = rem_floor(self.secs, SECS_PER_DAY);
        let secs2 = days2 * SECS_PER_DAY + sod;
        proof {
            vstd::arithmetic::div_mod::lemma_fundamental_div_mod_converse(
                secs2 as int,
                SECS_PER_DAY as int,
                days2 as int,
                sod as int,
            );
        }
        Some(NaiveDateTime { secs: secs2, nsecs: self.nsecs })
    }
}


/// The year and month reached after moving `n` calendar months from
/// year `y`, month `m`.
pub open spec fn shift_months_ym(y: int, m: int, n: int) -> (int, int) {
    let total = y * 12 + (m - 1) + n;
    (total / 12, total % 12 + 1)
}

/// The day of month after a month shift: clamped to the length of the
/// target month.
pub open spec fn clamp_day(y: int, m: int, d: int) -> int {
    if d <= days_in_month(y, m) {
        d
    } else {
        days_in_month(y, m)
    }
}

impl NaiveDateTime {
    /// New instant with the year changed; the month and day must remain
    /// a valid date (for instance the 29th of February moved to a common
    /// year is rejected).
    pub fn with_year(&self, year: i64) -> (r: Option<NaiveDateTime>)
        requires
            self.wf_ext(),
        ensures
            exists|y: int, m: int, d: int| is_civil_of(self.spec_days(), y, m, d),
            forall|y: int, m: int, d: int|
                is_civil_of(self.spec_days(), y, m, d) ==> match r {
                    Some(t) => {
                        &&& valid_ymd(year as int, m, d)
                        &&& t.wf()
                        &&& t.spec_days() == days_from_ymd(year as int, m, d)
                        &&& t.spec_sod() == self.spec_sod()
                        &&& t.nsecs == self.nsecs
                    },
                    None => !valid_ymd(year as int, m, d),
                },
    {
        let (y0, m0, d0) = self.civil();
        let r = self.with_civil(year, m0, d0);
        proof {
            lemma_setter_unique(self.spec_days(), y0 as int, m0 as int, d0 as int);
        }
        r
    }

    /// New instant with the month (1-12) changed; the day must exist in
    /// the target month.
    pub fn with_month(&self, month: u32) -> (r: Option<NaiveDateTime>)
        requires
            self.wf_ext(),
        ensures
            exists|y: int, m: int, d: int| is_civil_of(self.spec_days(), y, m, d),
            forall|y: int, m: int, d: int|
                is_civil_of(self.spec_days(), y, m, d) ==> match r {
                    Some(t) => {
                        &&& valid_ymd(y, month as int, d)
                        &&& t.wf()
                        &&& t.spec_days() == days_from_ymd(y, month as int, d)
                        &&& t.spec_sod() == self.spec_sod()
                        &&& t.nsecs == self.nsecs
                    },
                    None => !valid_ymd(y, month as int, d),
                },
    {
        let (y0, m0, d0) = self.civil();
        proof {
            lemma_setter_unique(self.spec_days(), y0 as int, m0 as int, d0 as int);
        }
        if month < 1 || month > 12 {
            return None;
        }
        self.with_civil(y0, month as u8, d0)
    }

    /// New instant with the zero-based month changed.
    pub fn with_month0(&self, month0: u32) -> (r: Option<NaiveDateTime>)
        requires
            self.wf_ext(),
        ensures
            exists|y: int, m: int, d: int| is_civil_of(self.spec_days(), y, m, d),
            forall|y: int, m: int, d: int|
                is_civil_of(self.spec_days(), y, m, d) ==> match r {
                    Some(t) => {
                        &&& valid_ymd(y, month0 + 1, d)
                        &&& t.wf()
                        &&& t.spec_days() == days_from_ymd(y, month0 + 1, d)
                        &&& t.spec_sod() == self.spec_sod()
                        &&& t.nsecs == self.nsecs
                    },
                    None => !valid_ymd(y, month0 + 1, d),
                },
    {
        if month0 >= 12 {
            let (y0, m0, d0) = self.civil();
            proof {
                lemma_setter_unique(self.spec_days(), y0 as int, m0 as int, d0 as int);
            }
            return None;
        }
        self.with_month(month0 + 1)
    }

    /// New instant with the day of month changed.
    pub fn with_day(&self, day: u32) -> (r: Option<NaiveDateTime>)
        requires
            self.wf_ext(),
        ensures
            exists|y: int, m: int, d: int| is_civil_of(self.spec_days(), y, m, d),
            forall|y: int, m: int, d: int|
                is_civil_of(self.spec_days(), y, m, d) ==> match r {
                    Some(t) => {
                        &&& valid_ymd(y, m, day as int)
                        &&& t.wf()
                        &&& t.spec_days() == days_from_ymd(y, m, day as int)
                        &&& t.spec_sod() == self.spec_sod()
                        &&& t.nsecs == self.nsecs
                    },
                    None => !valid_ymd(y, m, day as int),
                },
    {
        let (y0, m0, d0) = self.civil();
        proof {
            lemma_setter_unique(self.spec_days(), y0 as int, m0 as int, d0 as int);
        }
        if day < 1 || day > 31 {
            return None;
        }
        self.with_civil(y0, m0, day as u8)
    }

    /// New instant with the zero-based day of month changed.
    pub fn with_day0(&self, day0: u32) -> (r: Option<NaiveDateTime>)
        requires
            self.wf_ext(),
        ensures
            exists|y: int, m: int, d: int| is_civil_of(self.spec_days(), y, m, d),
            forall|y: int, m: int, d: int|
                is_civil_of(self.spec_days(), y, m, d) ==> match r {
                    Some(t) => {
                        &&& valid_ymd(y, m, day0 + 1)
                        &&& t.wf()
                        &&& t.spec_days() == days_from_ymd(y, m, day0 + 1)
                        &&& t.spec_sod() == self.spec_sod()
                        &&& t.nsecs == self.nsecs
                    },
                    None => !valid_ymd(y, m, day0 + 1),
                },
    {
        if day0 >= 31 {
            let (y0, m0, d0) = self.civil();
            proof {
                lemma_setter_unique(self.spec_days(), y0 as int, m0 as int, d0 as int);
            }
            return None;
        }
        self.with_day(day0 + 1)
    }

    /// New instant with the 1-based day of the year changed.
    pub fn with_ordinal(&self, ordinal: u32) -> (r: Option<NaiveDateTime>)
        requires
            self.wf_ext(),
        ensures
            exists|y: int, m: int, d: int| is_civil_of(self.spec_days(), y, m, d),
            forall|y: int, m: int, d: int|
                is_civil_of(self.spec_days(), y, m, d) ==> match r {
                    Some(t) => {
                        &&& MIN_YEAR <= y <= MAX_YEAR
                        &&& 1 <= ordinal <= days_before_month(y, 13)
                        &&& t.wf()
                        &&& t.spec_days() == days_before_year(y) - EPOCH_DAYS + ordinal - 1
                        &&& t.spec_sod() == self.spec_sod()
                        &&& t.nsecs == self.nsecs
                    },
                    None => !(MIN_YEAR <= y <= MAX_YEAR && 1 <= ordinal <= days_before_month(
                        y,
                        13,
                    )),
                },
    {
        let (y0, m0, d0) = self.civil();
        proof {
            lemma_setter_unique(self.spec_days(), y0 as int, m0 as int, d0 as int);
            lemma_year_length(y0 as int);
        }
        if y0 < MIN_YEAR || y0 > MAX_YEAR {
            return None;
        }
        let ylen = if is_leap_year_x(y0) {
            366u32
        } else {
            365u32
        };
        if ordinal < 1 || ordinal > ylen {
            return None;
        }
        let dby = days_before_year_x(y0);
        let days2 = dby - EPOCH_DAYS + ordinal as i64 - 1;
        let sod = rem_floor(self.secs, SECS_PER_DAY);
        let secs2 = days2 * SECS_PER_DAY + sod;
        proof {
            lemma_civil_within_year(y0 as int, 1, 1);
            lemma_civil_within_year(y0 as int, 12, 31);
            vstd::arithmetic::div_mod::lemma_fundamental_div_mod_converse(
                secs2 as int,
                SECS_PER_DAY as int,
                days2 as int,
                sod as int,
            );
            crate::calendar::lemma_ymd_day_range(y0 as int, 1, 1);
            crate::calendar::lemma_ymd_day_range(y0 as int, 12, 31);
        }
        Some(NaiveDateTime { secs: secs2, nsecs: self.nsecs })
    }

    /// New instant with the zero-based day of the year changed.
    pub fn with_ordinal0(&self, ordinal0: u32) -> (r: Option<NaiveDateTime>)
        requires
            self.wf_ext(),
        ensures
            exists|y: int, m: int, d: int| is_civil_of(self.spec_days(), y, m, d),
            forall|y: int, m: int, d: int|
                is_civil_of(self.spec_days(), y, m, d) ==> match r {
                    Some(t) => {
                        &&& MIN_YEAR <= y <= MAX_YEAR
                        &&& 1 <= ordinal0 + 1 <= days_before_month(y, 13)
                        &&& t.wf()
                        &&& t.spec_days() == days_before_year(y) - EPOCH_DAYS + ordinal0
                        &&& t.spec_sod() == self.spec_sod()
                        &&& t.nsecs == self.nsecs
                    },
                    None => !(MIN_YEAR <= y <= MAX_YEAR && 1 <= ordinal0 + 1
                        <= days_before_month(y, 13)),
                },
    {
        if ordinal0 >= 366 {
            let (y0, m0, d0) = self.civil();
            proof {
                lemma_setter_unique(self.spec_days(), y0 as int, m0 as int, d0 as int);
                lemma_year_length(y0 as int);
            }
            return None;
        }
        self.with_ordinal(ordinal0 + 1)
    }

    /// New instant with the hour changed; stays on the same day.
    pub fn with_hour(&self, hour: u32) -> (r: Option<NaiveDateTime>)
        requires
            self.wf_ext(),
        ensures
            match r {
                Some(t) => {
                    &&& hour < 24
                    &&& t.wf_ext()
                    &&& t.spec_days() == self.spec_days()
                    &&& t.spec_sod() == hour * 3600 + self.spec_sod() % 3600
                    &&& t.nsecs == self.nsecs
                },
                None => hour >= 24,
            },
    {
        if hour >= 24 {
            return None;
        }
        let days = div_floor(self.secs, SECS_PER_DAY);
        let sod = rem_floor(self.secs, SECS_PER_DAY);
        let (h, mi, sec) = split_sod(sod as u32);
        let sod2 = hour * 3600 + mi * 60 + sec;
        let secs2 = days * SECS_PER_DAY + sod2 as i64;
        proof {
            vstd::arithmetic::div_mod::lemma_fundamental_div_mod(
                self.secs as int,
                SECS_PER_DAY as int,
            );
            vstd::arithmetic::div_mod::lemma_fundamental_div_mod_converse(
                secs2 as int,
                SECS_PER_DAY as int,
                days as int,
                sod2 as int,
            );
        }
        Some(NaiveDateTime { secs: secs2, nsecs: self.nsecs })
    }

    /// New instant with the minute changed.
    #[verifier::spinoff_prover]
    #[verifier::rlimit(50)]
    pub fn with_minute(&self, min: u32) -> (r: Option<NaiveDateTime>)
        requires
            self.wf_ext(),
        ensures
            match r {
                Some(t) => {
                    &&& min < 60
                    &&& t.wf_ext()
                    &&& t.spec_days() == self.spec_days()
                    &&& t.spec_sod() == self.spec_sod() / 3600 * 3600 + min * 60 + self.spec_sod()
                        % 60
                    &&& t.nsecs == self.nsecs
                },
                None => min >= 60,
            },
    {
        if min >= 60 {
            return None;
        }
        let days = div_floor(self.secs, SECS_PER_DAY);
        let sod = rem_floor(self.secs, SECS_PER_DAY);
        let (h, mi, sec) = split_sod(sod as u32);
        let sod2 = h * 3600 + min * 60 + sec;
        let secs2 = days * SECS_PER_DAY + sod2 as i64;
        proof {
            vstd::arithmetic::div_mod::lemma_fundamental_div_mod(
                self.secs as int,
                SECS_PER_DAY as int,
            );
            vstd::arithmetic::div_mod::lemma_fundamental_div_mod_converse(
                secs2 as int,
                SECS_PER_DAY as int,
                days as int,
                sod2 as int,
            );
        }
        Some(NaiveDateTime { secs: secs2, nsecs: self.nsecs })
    }

    /// New instant with the second changed; the input range stays below
    /// 60, leap seconds are reached through the nanosecond field.
    #[verifier::spinoff_prover]
    #[verifier::rlimit(50)]
    pub fn with_second(&self, sec: u32) -> (r: Option<NaiveDateTime>)
        requires
            self.wf_ext(),
        ensures
            match r {
                Some(t) => {
                    &&& sec < 60
                    &&& t.wf_ext()
                    &&& t.spec_days() == self.spec_days()
                    &&& t.spec_sod() == self.spec_sod() - self.spec_sod() % 60 + sec
                    &&& t.nsecs == self.nsecs
                },
                None => sec >= 60,
            },
    {
        if sec >= 60 {
            return None;
        }
        let days = div_floor(self.secs, SECS_PER_DAY);
        let sod = rem_floor(self.secs, SECS_PER_DAY);
        let (h, mi, s0) = split_sod(sod as u32);
        let sod2 = h * 3600 + mi * 60 + sec;
        let secs2 = days * SECS_PER_DAY + sod2 as i64;
        proof {
            assert(sod2 == sod - s0 + sec);
            vstd::arithmetic::div_mod::lemma_fundamental_div_mod(
                self.secs as int,
                SECS_PER_DAY as int,
            );
            vstd::arithmetic::div_mod::lemma_fundamental_div_mod_converse(
                secs2 as int,
                SECS_PER_DAY as int,
                days as int,
                sod2 as int,
            );
        }
        Some(NaiveDateTime { secs: secs2, nsecs: self.nsecs })
    }

    /// New instant with the nanosecond field changed; values in
    /// `[1e9, 2e9)` encode a leap second.
    pub fn with_nanosecond(&self, nano: u32) -> (r: Option<NaiveDateTime>)
        requires
            self.wf_ext(),
        ensures
            match r {
                Some(t) => {
                    &&& nano < 2000000000
                    &&& t.secs == self.secs
                    &&& t.nsecs == nano
                    &&& t.wf_ext()
                },
                None => nano >= 2000000000,
            },
    {
        if nano >= 2000000000 {
            return None;
        }
        Some(NaiveDateTime { secs: self.secs, nsecs: nano })
    }

    /// Move by calendar months; the day of month is clamped to the
    /// target month, the clock reading is kept.  Fails when the target
    /// year leaves the representable range.
    pub fn shift_months(&self, n: i64) -> (r: Option<NaiveDateTime>)
        requires
            self.wf_ext(),
            -10000000000 <= n <= 10000000000,
        ensures
            exists|y: int, m: int, d: int| is_civil_of(self.spec_days(), y, m, d),
            forall|y: int, m: int, d: int|
                is_civil_of(self.spec_days(), y, m, d) ==> {
                    let (y2, m2) = shift_months_ym(y, m, n as int);
                    match r {
                        Some(t) => {
                            &&& MIN_YEAR <= y2 <= MAX_YEAR
                            &&& t.wf()
                            &&& t.spec_days() == days_from_ymd(y2, m2, clamp_day(y2, m2, d))
                            &&& t.spec_sod() == self.spec_sod()
                            &&& t.nsecs == self.nsecs
                        },
                        None => !(MIN_YEAR <= y2 <= MAX_YEAR),
                    }
                },
    {
        let (y0, m0, d0) = self.civil();
        proof {
            lemma_setter_unique(self.spec_days(), y0 as int, m0 as int, d0 as int);
        }
        let total = y0 * 12 + (m0 as i64 - 1) + n;
        let y2 = div_floor(total, 12);
        let m2r = rem_floor(total, 12);
        let m2 = (m2r + 1) as u8;
        proof {
            vstd::arithmetic::div_mod::lemma_fundamental_div_mod(total as int, 12);
        }
        if y2 < MIN_YEAR || y2 > MAX_YEAR {
            return None;
        }
        let dim = days_in_month_x(y2, m2);
        let d2 = if d0 <= dim {
            d0
        } else {
            dim
        };
        let r = self.with_civil(y2, m2, d2);
        proof {
            assert(r is Some);
        }
        r
    }

    /// Move by whole days, keeping the clock reading.  Fails when the
    /// result leaves the representable range.
    pub fn shift_days(&self, n: i64) -> (r: Option<NaiveDateTime>)
        requires
            self.wf_ext(),
            -200000000 <= n <= 200000000,
        ensures
            match r {
                Some(t) => {
                    &&& MIN_DAY <= self.spec_days() + n <= MAX_DAY
                    &&& t.wf()
                    &&& t.spec_days() == self.spec_days() + n
                    &&& t.spec_sod() == self.spec_sod()
                    &&& t.nsecs == self.nsecs
                },
                None => !(MIN_DAY <= self.spec_days() + n <= MAX_DAY),
            },
    {
        let days = div_floor(self.secs, SECS_PER_DAY);
        let sod = rem_floor(self.secs, SECS_PER_DAY);
        let days2 = days + n;
        if days2 < MIN_DAY || days2 > MAX_DAY {
            return None;
        }
        let secs2 = days2 * SECS_PER_DAY + sod;
        proof {
            vstd::arithmetic::div_mod::lemma_fundamental_div_mod_converse(
                secs2 as int,
                SECS_PER_DAY as int,
                days2 as int,
                sod as int,
            );
        }
        Some(NaiveDateTime { secs: secs2, nsecs: self.nsecs })
    }
}

/// Split a second-of-day into hour, minute and second.
pub fn split_sod(sod: u32) -> (r: (u32, u32, u32))
    requires
        sod < 86400,
    ensures
        r.0 == sod as int / 3600,
        r.1 == sod as int % 3600 / 60,
        r.2 == sod as int % 60,
        r.0 < 24 && r.1 < 60 && r.2 < 60,
        sod == r.0 * 3600 + r.1 * 60 + r.2,
{
    proof {
        lemma_sod_second(sod as int);
        vstd::arithmetic::div_mod::lemma_fundamental_div_mod(sod as int, 3600);
        vstd::arithmetic::div_mod::lemma_mod_bound(sod as int, 3600);
        vstd::arithmetic::div_mod::lemma_fundamental_div_mod(sod as int % 3600, 60);
        vstd::arithmetic::div_mod::lemma_mod_bound(sod as int % 3600, 60);
    }
    let h = sod / 3600;
    let mi = sod % 3600 / 60;
    let sec = sod % 3600 % 60;
    (h, mi, sec)
}

/// The decomposition produced by `civil` is the only one, so a setter
/// contract quantified over all decompositions is met by computing with
/// the concrete one.
proof fn lemma_setter_unique(days: int, y0: int, m0: int, d0: int)
    requires
        is_civil_of(days, y0, m0, d0),
    ensures
        forall|y: int, m: int, d: int|
            is_civil_of(days, y, m, d) ==> y == y0 && m == m0 && d == d0,
{
    assert forall|y: int, m: int, d: int| is_civil_of(days, y, m, d) implies y == y0 && m == m0
        && d == d0 by {
        crate::calendar::lemma_civil_injective(days, y, m, d, y0, m0, d0);
    }
}

} // verus!
