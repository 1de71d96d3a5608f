//! Timezone-aware instants.
//!
//! A [`DateTime`] couples an absolute instant — a [`NaiveDateTime`] that
//! always reads as UTC — with an offset capability that projects it into
//! local civil time.  The instant is the single source of truth: equality
//! and ordering ignore the capability entirely, and every local field is
//! derived on demand by shifting the instant, never stored.

use vstd::prelude::*;
use crate::calendar::{
    days_from_ymd, days_in_month, is_civil_of, MAX_DAY, MAX_SECS, MAX_YEAR, MIN_DAY, MIN_SECS,
    MIN_YEAR,
};
use crate::delta::TimeDelta;
use crate::naive::{
    clamp_day, days_of_secs, leap_add, leap_diff, shift_months_ym, sod_of_secs, IsoWeek, NaiveDate,
    NaiveDateTime, NaiveTime, Weekday, SECS_PER_DAY,
};
use crate::offset::{FixedOffset, LocalResult, ResolvedShift, TimeZone, Utc};

verus! {

/// A count of calendar months.
#[derive(Clone, Copy, PartialEq, Eq, Structural, Debug, Hash)]
pub struct Months(pub u32);

/// A count of calendar days.
#[derive(Clone, Copy, PartialEq, Eq, Structural, Debug, Hash)]
pub struct Days(pub u64);

/// An instant in time together with the offset capability through which
/// its local civil fields are read.
#[derive(Clone, Copy, Debug)]
pub struct DateTime<Tz: TimeZone> {
    /// The instant, as a civil datetime that always reads as UTC.
    pub datetime: NaiveDateTime,
    /// The capability used to project the instant into local time.
    pub offset: Tz,
}

/// The instant a resolved local reading denotes, if the resolution was
/// unique and the instant representable.
pub open spec fn resolved_instant(res: ResolvedShift, target: int) -> Option<int> {
    match res {
        ResolvedShift::Single(o) => if MIN_SECS <= target - o <= MAX_SECS {
            Some(target - o)
        } else {
            None
        },
        _ => None,
    }
}

impl<Tz: TimeZone> DateTime<Tz> {
    /// Validity: the instant is representable and the capability's data
    /// is well-formed.
    pub open spec fn wf(self) -> bool {
        &&& self.datetime.wf()
        &&& self.offset.zone_wf()
    }

    /// The local civil reading of the instant, in seconds: the instant
    /// plus the shift in force at it.
    pub open spec fn local_secs(self) -> int {
        self.datetime.secs + self.offset.spec_shift(self.datetime.secs as int)
    }

    /// Pair an instant (a civil datetime read as UTC) with an offset
    /// capability.  Total: both are stored as given.
    pub fn from_naive_utc_and_offset(datetime: NaiveDateTime, offset: Tz) -> (r: DateTime<Tz>)
        ensures
            r.datetime == datetime,
            r.offset == offset,
    {
        DateTime { datetime, offset }
    }

    /// The instant, as a civil datetime in UTC.
    pub fn naive_utc(&self) -> (r: NaiveDateTime)
        ensures
            r == self.datetime,
    {
        NaiveDateTime { secs: self.datetime.secs, nsecs: self.datetime.nsecs }
    }

    /// The local projection of the instant.  The offset shift must not
    /// push it outside the representable range; callers that cannot
    /// guarantee that must validate the range first.
    pub fn naive_local(&self) -> (r: NaiveDateTime)
        requires
            self.wf(),
            MIN_SECS <= self.local_secs() <= MAX_SECS,
        ensures
            r.wf(),
            r.secs == self.local_secs(),
            r.nsecs == self.datetime.nsecs,
    {
        let off = self.offset.offset_at(&self.datetime);
        let r = self.datetime.overflowing_add_offset_secs(off.local_minus_utc);
        r
    }

    /// The local projection with two days of slack, for internal use by
    /// field access and arithmetic: never fails, but its result may lie
    /// slightly outside the representable range and must not escape.
    pub(crate) fn overflowing_naive_local(&self) -> (r: NaiveDateTime)
        requires
            self.wf(),
        ensures
            r.wf_ext(),
            r.secs == self.local_secs(),
            r.nsecs == self.datetime.nsecs,
    {
        proof {
            self.offset.lemma_shift_bounded(self.datetime.secs as int);
        }
        let off = self.offset.offset_at(&self.datetime);
        self.datetime.overflowing_add_offset_secs(off.local_minus_utc)
    }

    /// The local calendar date.  Fails like `naive_local` when the shift
    /// leaves the representable range.
    pub fn date_naive(&self) -> (r: NaiveDate)
        requires
            self.wf(),
            MIN_SECS <= self.local_secs() <= MAX_SECS,
        ensures
            r.wf(),
            is_civil_of(days_of_secs(self.local_secs()), r.year as int, r.month as int, r.day as int),
    {
        let local = self.naive_local();
        local.date()
    }

    /// The local clock reading.  Total: the time of day wraps around
    /// midnight and cannot overflow.
    pub fn time(&self) -> (r: NaiveTime)
        requires
            self.wf(),
        ensures
            r.wf(),
            r.secs == sod_of_secs(self.local_secs()),
            r.frac == self.datetime.nsecs,
    {
        let local = self.overflowing_naive_local();
        local.time()
    }

    /// Seconds since the Unix epoch (the Unix timestamp), not counting
    /// leap seconds.
    pub fn timestamp(&self) -> (r: i64)
        ensures
            r == self.datetime.secs,
    {
        self.datetime.timestamp()
    }

    /// Non-leap milliseconds since the epoch.
    pub fn timestamp_millis(&self) -> (r: i64)
        requires
            self.wf(),
        ensures
            r == self.datetime.secs * 1000 + self.datetime.nsecs as int / 1000000,
    {
        self.datetime.timestamp_millis()
    }

    /// Non-leap microseconds since the epoch.
    pub fn timestamp_micros(&self) -> (r: i64)
        requires
            self.wf(),
        ensures
            r == self.datetime.secs * 1000000 + self.datetime.nsecs as int / 1000,
    {
        self.datetime.timestamp_micros()
    }

    /// Non-leap nanoseconds since the epoch; fails exactly when the
    /// count does not fit a 64-bit signed integer.
    pub fn timestamp_nanos(&self) -> (r: Option<i64>)
        requires
            self.wf(),
        ensures
            match r {
                Some(n) => n == self.datetime.secs * 1000000000 + self.datetime.nsecs,
                None => !(i64::MIN <= self.datetime.secs * 1000000000 + self.datetime.nsecs
                    <= i64::MAX),
            },
    {
        self.datetime.timestamp_nanos()
    }

    /// Milliseconds since the last second boundary; above 999 during a
    /// leap second.
    pub fn timestamp_subsec_millis(&self) -> (r: u32)
        ensures
            r == self.datetime.nsecs as int / 1000000,
    {
        self.datetime.timestamp_subsec_millis()
    }

    /// Microseconds since the last second boundary.
    pub fn timestamp_subsec_micros(&self) -> (r: u32)
        ensures
            r == self.datetime.nsecs as int / 1000,
    {
        self.datetime.timestamp_subsec_micros()
    }

    /// Nanoseconds since the last second boundary.
    pub fn timestamp_subsec_nanos(&self) -> (r: u32)
        ensures
            r == self.datetime.nsecs,
    {
        self.datetime.timestamp_subsec_nanos()
    }

    /// The offset capability.
    pub fn offset(&self) -> (r: &Tz)
        ensures
            r == &self.offset,
    {
        &self.offset
    }

    /// A duplicate of the offset capability, behaving identically.
    pub fn timezone(&self) -> (r: Tz)
        ensures
            r.zone_wf() == self.offset.zone_wf(),
            forall|t: int| r.spec_shift(t) == self.offset.spec_shift(t),
            forall|l: int| r.spec_resolve(l) == self.offset.spec_resolve(l),
    {
        self.offset.clone_zone()
    }

    /// The same instant read through another capability.  Only the
    /// projection changes; the instant is preserved exactly.
    pub fn with_timezone<Tz2: TimeZone>(&self, tz: &Tz2) -> (r: DateTime<Tz2>)
        ensures
            r.datetime == self.datetime,
            r.offset.zone_wf() == tz.zone_wf(),
            forall|t: int| r.offset.spec_shift(t) == tz.spec_shift(t),
            forall|l: int| r.offset.spec_resolve(l) == tz.spec_resolve(l),
    {
        DateTime {
            datetime: NaiveDateTime { secs: self.datetime.secs, nsecs: self.datetime.nsecs },
            offset: tz.clone_zone(),
        }
    }

    /// The same instant under the fixed offset currently in force,
    /// dropping the capability.
    pub fn fixed_offset(&self) -> (r: DateTime<FixedOffset>)
        requires
            self.wf(),
        ensures
            r.datetime == self.datetime,
            r.offset.local_minus_utc == self.offset.spec_shift(self.datetime.secs as int),
            r.wf(),
    {
        let off = self.offset.offset_at(&self.datetime);
        DateTime {
            datetime: NaiveDateTime { secs: self.datetime.secs, nsecs: self.datetime.nsecs },
            offset: off,
        }
    }

    /// The same instant in UTC, dropping the capability.
    pub fn to_utc(&self) -> (r: DateTime<Utc>)
        ensures
            r.datetime == self.datetime,
            r.offset == Utc,
    {
        DateTime {
            datetime: NaiveDateTime { secs: self.datetime.secs, nsecs: self.datetime.nsecs },
            offset: Utc,
        }
    }

    /// The elapsed time from `rhs` to `self`, computed purely from the
    /// two instants; the offsets play no part.  Never fails.
    pub fn signed_duration_since<Tz2: TimeZone>(self, rhs: &DateTime<Tz2>) -> (r: TimeDelta)
        requires
            self.datetime.wf(),
            rhs.datetime.wf(),
        ensures
            r.wf(),
            r.total_nanos() == leap_diff(
                self.datetime.secs as int,
                self.datetime.nsecs as int,
                rhs.datetime.secs as int,
                rhs.datetime.nsecs as int,
            ),
    {
        self.datetime.signed_duration_since(&rhs.datetime)
    }

    /// Instant equality: true exactly when the two absolute instants
    /// coincide, whatever their offsets.
    pub fn eq_instant<Tz2: TimeZone>(&self, other: &DateTime<Tz2>) -> (r: bool)
        ensures
            r == (self.datetime == other.datetime),
    {
        self.datetime.secs == other.datetime.secs && self.datetime.nsecs == other.datetime.nsecs
    }

    /// Instant order: `self` is earlier than `other` exactly when its
    /// absolute instant is, whatever the offsets.  Instants order by
    /// seconds first, nanoseconds second.
    pub fn lt_instant<Tz2: TimeZone>(&self, other: &DateTime<Tz2>) -> (r: bool)
        ensures
            r == (self.datetime.secs < other.datetime.secs || (self.datetime.secs
                == other.datetime.secs && self.datetime.nsecs < other.datetime.nsecs)),
    {
        self.datetime.secs < other.datetime.secs || (self.datetime.secs == other.datetime.secs
            && self.datetime.nsecs < other.datetime.nsecs)
    }
}

impl DateTime<Utc> {
    /// The instant from a Unix timestamp plus nanoseconds, in UTC.  The
    /// nanosecond part may encode a leap second (a value of one second
    /// or more) only on the 59th second of a minute.
    pub fn from_timestamp(secs: i64, nsecs: u32) -> (r: Option<DateTime<Utc>>)
        ensures
            match r {
                Some(dt) => {
                    &&& dt.datetime.secs == secs
                    &&& dt.datetime.nsecs == nsecs
                    &&& dt.offset == Utc
                    &&& dt.wf()
                    &&& MIN_SECS <= secs <= MAX_SECS
                    &&& (nsecs < 1000000000 || (nsecs < 2000000000 && secs as int % 60 == 59))
                },
                None => !(MIN_SECS <= secs <= MAX_SECS && (nsecs < 1000000000 || (nsecs
                    < 2000000000 && secs as int % 60 == 59))),
            },
    {
        match NaiveDateTime::from_timestamp(secs, nsecs) {
            Some(datetime) => Some(DateTime { datetime, offset: Utc }),
            None => None,
        }
    }

    /// The instant from a count of non-leap milliseconds since the
    /// epoch, in UTC.
    pub fn from_timestamp_millis(millis: i64) -> (r: Option<DateTime<Utc>>)
        ensures
            match r {
                Some(dt) => {
                    &&& dt.wf()
                    &&& dt.offset == Utc
                    &&& dt.datetime.secs * 1000 + dt.datetime.nsecs as int / 1000000 == millis
                    &&& dt.datetime.nsecs < 1000000000
                    &&& dt.datetime.nsecs as int % 1000000 == 0
                    &&& MIN_SECS * 1000 <= millis <= MAX_SECS * 1000 + 999
                },
                None => !(MIN_SECS * 1000 <= millis <= MAX_SECS * 1000 + 999),
            },
    {
        match NaiveDateTime::from_timestamp_millis(millis) {
            Some(datetime) => Some(DateTime { datetime, offset: Utc }),
            None => None,
        }
    }

    /// The Unix epoch, 1970-01-01T00:00:00Z.
    pub fn unix_epoch() -> (r: DateTime<Utc>)
        ensures
            r.datetime.secs == 0,
            r.datetime.nsecs == 0,
            r.offset == Utc,
            r.wf(),
    {
        DateTime { datetime: NaiveDateTime { secs: 0, nsecs: 0 }, offset: Utc }
    }
}

impl Default for DateTime<Utc> {
    /// The Unix epoch.
    fn default() -> (r: Self)
        ensures
            r.datetime.secs == 0,
            r.datetime.nsecs == 0,
            r.offset == Utc,
    {
        DateTime { datetime: NaiveDateTime { secs: 0, nsecs: 0 }, offset: Utc }
    }
}

impl<Tz: TimeZone, Tz2: TimeZone> PartialEq<DateTime<Tz2>> for DateTime<Tz> {
    /// Equality on the absolute instant alone; offsets are ignored, even
    /// across different capability types.
    fn eq(&self, other: &DateTime<Tz2>) -> (r: bool)
    {
        self.datetime.secs == other.datetime.secs && self.datetime.nsecs == other.datetime.nsecs
    }
}

impl<Tz: TimeZone, Tz2: TimeZone> vstd::std_specs::cmp::PartialEqSpecImpl<DateTime<Tz2>> for DateTime<Tz> {
    open spec fn obeys_eq_spec() -> bool {
        true
    }

    open spec fn eq_spec(&self, other: &DateTime<Tz2>) -> bool {
        self.datetime == other.datetime
    }
}

impl<Tz: TimeZone> Eq for DateTime<Tz> {

}

impl<Tz: TimeZone, Tz2: TimeZone> PartialOrd<DateTime<Tz2>> for DateTime<Tz> {
    /// Order by the absolute instant alone: seconds first, nanoseconds
    /// second; offsets are ignored.
    fn partial_cmp(&self, other: &DateTime<Tz2>) -> (r: Option<core::cmp::Ordering>)
    {
        if self.datetime.secs < other.datetime.secs {
            Some(core::cmp::Ordering::Less)
        } else if self.datetime.secs > other.datetime.secs {
            Some(core::cmp::Ordering::Greater)
        } else if self.datetime.nsecs < other.datetime.nsecs {
            Some(core::cmp::Ordering::Less)
        } else if self.datetime.nsecs > other.datetime.nsecs {
            Some(core::cmp::Ordering::Greater)
        } else {
            Some(core::cmp::Ordering::Equal)
        }
    }
}

impl<Tz: TimeZone, Tz2: TimeZone> vstd::std_specs::cmp::PartialOrdSpecImpl<DateTime<Tz2>> for DateTime<Tz> {
    open spec fn obeys_partial_cmp_spec() -> bool {
        true
    }

    open spec fn partial_cmp_spec(&self, other: &DateTime<Tz2>) -> Option<core::cmp::Ordering> {
        if self.datetime.secs < other.datetime.secs {
            Some(core::cmp::Ordering::Less)
        } else if self.datetime.secs > other.datetime.secs {
            Some(core::cmp::Ordering::Greater)
        } else if self.datetime.nsecs < other.datetime.nsecs {
            Some(core::cmp::Ordering::Less)
        } else if self.datetime.nsecs > other.datetime.nsecs {
            Some(core::cmp::Ordering::Greater)
        } else {
            Some(core::cmp::Ordering::Equal)
        }
    }
}


/// Two capabilities that behave identically: same validity, same shifts,
/// same resolutions.
pub open spec fn same_zone<Tz: TimeZone>(a: Tz, b: Tz) -> bool {
    &&& a.zone_wf() == b.zone_wf()
    &&& forall|t: int| a.spec_shift(t) == b.spec_shift(t)
    &&& forall|l: int| a.spec_resolve(l) == b.spec_resolve(l)
}

/// Lexicographic comparison of local (month, day, second-of-day,
/// nanosecond) tuples, as `years_since` counts a not-yet-complete year.
pub open spec fn fields_earlier(
    m1: int,
    d1: int,
    s1: int,
    n1: int,
    m2: int,
    d2: int,
    s2: int,
    n2: int,
) -> bool {
    ||| m1 < m2
    ||| (m1 == m2 && d1 < d2)
    ||| (m1 == m2 && d1 == d2 && s1 < s2)
    ||| (m1 == m2 && d1 == d2 && s1 == s2 && n1 < n2)
}

/// Resolve a local civil reading in a zone and rebuild an instant from
/// the unique candidate; the heart of every field mutation and of the
/// calendar-unit arithmetic.
fn resolve_in_zone<Tz: TimeZone>(zone: Tz, local2: NaiveDateTime) -> (r: Option<DateTime<Tz>>)
    requires
        zone.zone_wf(),
        local2.wf_ext(),
    ensures
        match r {
            Some(dt) => {
                &&& resolved_instant(zone.spec_resolve(local2.secs as int), local2.secs as int)
                    == Some(dt.datetime.secs as int)
                &&& dt.datetime.nsecs == local2.nsecs
                &&& dt.offset == zone
                &&& dt.wf()
                &&& dt.local_secs() == local2.secs
            },
            None => resolved_instant(
                zone.spec_resolve(local2.secs as int),
                local2.secs as int,
            ) is None,
        },
{
    proof {
        zone.lemma_resolve_consistent(local2.secs as int);
    }
    let res = zone.resolve_local_secs(local2.secs);
    match res.single() {
        Some(f) => {
            let secs2 = local2.secs - f.local_minus_utc as i64;
            if MIN_SECS <= secs2 && secs2 <= MAX_SECS {
                Some(
                    DateTime {
                        datetime: NaiveDateTime { secs: secs2, nsecs: local2.nsecs },
                        offset: zone,
                    },
                )
            } else {
                None
            }
        },
        None => None,
    }
}

impl<Tz: TimeZone> DateTime<Tz> {
    /// Add a duration to the instant.  Pure instant arithmetic: the
    /// offset plays no part and is kept.  Fails when the result leaves
    /// the representable range.
    pub fn checked_add_signed(self, rhs: TimeDelta) -> (r: Option<DateTime<Tz>>)
        requires
            self.wf(),
            rhs.wf(),
        ensures
            ({
                let (s2, n2) = leap_add(
                    self.datetime.secs as int,
                    self.datetime.nsecs as int,
                    rhs.total_nanos(),
                );
                match r {
                    Some(dt) => {
                        &&& dt.datetime.secs == s2
                        &&& dt.datetime.nsecs == n2
                        &&& dt.offset == self.offset
                        &&& dt.wf()
                    },
                    None => !(MIN_SECS <= s2 <= MAX_SECS),
                }
            }),
    {
        match self.datetime.checked_add_signed(rhs) {
            Some(d2) => Some(DateTime { datetime: d2, offset: self.offset }),
            None => None,
        }
    }

    /// Subtract a duration from the instant; the offset is kept.  Fails
    /// when the result leaves the representable range.
    pub fn checked_sub_signed(self, rhs: TimeDelta) -> (r: Option<DateTime<Tz>>)
        requires
            self.wf(),
            rhs.wf(),
        ensures
            ({
                let (s2, n2) = leap_add(
                    self.datetime.secs as int,
                    self.datetime.nsecs as int,
                    -rhs.total_nanos(),
                );
                match r {
                    Some(dt) => {
                        &&& dt.datetime.secs == s2
                        &&& dt.datetime.nsecs == n2
                        &&& dt.offset == self.offset
                        &&& dt.wf()
                    },
                    None => !(MIN_SECS <= s2 <= MAX_SECS),
                }
            }),
    {
        match self.datetime.checked_sub_signed(rhs) {
            Some(d2) => Some(DateTime { datetime: d2, offset: self.offset }),
            None => None,
        }
    }

    /// The demanding form of `checked_add_signed`: the caller must know
    /// the result stays in range.
    pub fn add_signed(self, rhs: TimeDelta) -> (r: DateTime<Tz>)
        requires
            self.wf(),
            rhs.wf(),
            MIN_SECS <= leap_add(
                self.datetime.secs as int,
                self.datetime.nsecs as int,
                rhs.total_nanos(),
            ).0 <= MAX_SECS,
        ensures
            ({
                let (s2, n2) = leap_add(
                    self.datetime.secs as int,
                    self.datetime.nsecs as int,
                    rhs.total_nanos(),
                );
                r.datetime.secs == s2 && r.datetime.nsecs == n2 && r.offset == self.offset
                    && r.wf()
            }),
    {
        self.checked_add_signed(rhs).unwrap()
    }

    /// The demanding form of `checked_sub_signed`.
    pub fn sub_signed(self, rhs: TimeDelta) -> (r: DateTime<Tz>)
        requires
            self.wf(),
            rhs.wf(),
            MIN_SECS <= leap_add(
                self.datetime.secs as int,
                self.datetime.nsecs as int,
                -rhs.total_nanos(),
            ).0 <= MAX_SECS,
        ensures
            ({
                let (s2, n2) = leap_add(
                    self.datetime.secs as int,
                    self.datetime.nsecs as int,
                    -rhs.total_nanos(),
                );
                r.datetime.secs == s2 && r.datetime.nsecs == n2 && r.offset == self.offset
                    && r.wf()
            }),
    {
        self.checked_sub_signed(rhs).unwrap()
    }

    /// Move by calendar months on the *local* civil reading: the wall
    /// clock is preserved where possible.  The day of month is clamped
    /// to the target month; the changed local reading is re-resolved
    /// against the capability and accepted only if it denotes exactly
    /// one representable instant.
    pub fn checked_add_months(self, rhs: Months) -> (r: Option<DateTime<Tz>>)
        requires
            self.wf(),
        ensures
            forall|y: int, m: int, d: int|
                is_civil_of(days_of_secs(self.local_secs()), y, m, d) ==> {
                    let (y2, m2) = shift_months_ym(y, m, rhs.0 as int);
                    let target = days_from_ymd(y2, m2, clamp_day(y2, m2, d)) * 86400 + sod_of_secs(
                        self.local_secs(),
                    );
                    match r {
                        Some(dt) => {
                            &&& MIN_YEAR <= y2 <= MAX_YEAR
                            &&& resolved_instant(self.offset.spec_resolve(target), target) == Some(
                                dt.datetime.secs as int,
                            )
                            &&& dt.datetime.nsecs == self.datetime.nsecs
                            &&& dt.offset == self.offset
                            &&& dt.wf()
                            &&& dt.local_secs() == target
                        },
                        None => !(MIN_YEAR <= y2 <= MAX_YEAR) || resolved_instant(
                            self.offset.spec_resolve(target),
                            target,
                        ) is None,
                    }
                },
    {
        let local = self.overflowing_naive_local();
        match local.shift_months(rhs.0 as i64) {
            Some(local2) => {
                proof {
                    lemma_secs_recompose(local2);
                }
                resolve_in_zone(self.offset, local2)
            },
            None => None,
        }
    }

    /// Move backward by calendar months; see `checked_add_months`.
    pub fn checked_sub_months(self, rhs: Months) -> (r: Option<DateTime<Tz>>)
        requires
            self.wf(),
        ensures
            forall|y: int, m: int, d: int|
                is_civil_of(days_of_secs(self.local_secs()), y, m, d) ==> {
                    let (y2, m2) = shift_months_ym(y, m, -(rhs.0 as int));
                    let target = days_from_ymd(y2, m2, clamp_day(y2, m2, d)) * 86400 + sod_of_secs(
                        self.local_secs(),
                    );
                    match r {
                        Some(dt) => {
                            &&& MIN_YEAR <= y2 <= MAX_YEAR
                            &&& resolved_instant(self.offset.spec_resolve(target), target) == Some(
                                dt.datetime.secs as int,
                            )
                            &&& dt.datetime.nsecs == self.datetime.nsecs
                            &&& dt.offset == self.offset
                            &&& dt.wf()
                            &&& dt.local_secs() == target
                        },
                        None => !(MIN_YEAR <= y2 <= MAX_YEAR) || resolved_instant(
                            self.offset.spec_resolve(target),
                            target,
                        ) is None,
                    }
                },
    {
        let local = self.overflowing_naive_local();
        match local.shift_months(-(rhs.0 as i64)) {
            Some(local2) => {
                proof {
                    lemma_secs_recompose(local2);
                }
                resolve_in_zone(self.offset, local2)
            },
            None => None,
        }
    }

    /// Move by whole days on the local civil reading, keeping the wall
    /// clock where possible; re-resolved like `checked_add_months`.
    pub fn checked_add_days(self, days: Days) -> (r: Option<DateTime<Tz>>)
        requires
            self.wf(),
        ensures
            ({
                let target = (days_of_secs(self.local_secs()) + days.0) * 86400 + sod_of_secs(
                    self.local_secs(),
                );
                match r {
                    Some(dt) => {
                        &&& MIN_DAY <= days_of_secs(self.local_secs()) + days.0 <= MAX_DAY
                        &&& resolved_instant(self.offset.spec_resolve(target), target) == Some(
                            dt.datetime.secs as int,
                        )
                        &&& dt.datetime.nsecs == self.datetime.nsecs
                        &&& dt.offset == self.offset
                        &&& dt.wf()
                        &&& dt.local_secs() == target
                    },
                    None => !(MIN_DAY <= days_of_secs(self.local_secs()) + days.0 <= MAX_DAY)
                        || resolved_instant(self.offset.spec_resolve(target), target) is None,
                }
            }),
    {
        let local = self.overflowing_naive_local();
        if days.0 > 200000000 {
            return None;
        }
        match local.shift_days(days.0 as i64) {
            Some(local2) => {
                proof {
                    lemma_secs_recompose(local2);
                }
                resolve_in_zone(self.offset, local2)
            },
            None => None,
        }
    }

    /// Move backward by whole days; see `checked_add_days`.
    pub fn checked_sub_days(self, days: Days) -> (r: Option<DateTime<Tz>>)
        requires
            self.wf(),
        ensures
            ({
                let target = (days_of_secs(self.local_secs()) - days.0) * 86400 + sod_of_secs(
                    self.local_secs(),
                );
                match r {
                    Some(dt) => {
                        &&& MIN_DAY <= days_of_secs(self.local_secs()) - days.0 <= MAX_DAY
                        &&& resolved_instant(self.offset.spec_resolve(target), target) == Some(
                            dt.datetime.secs as int,
                        )
                        &&& dt.datetime.nsecs == self.datetime.nsecs
                        &&& dt.offset == self.offset
                        &&& dt.wf()
                        &&& dt.local_secs() == target
                    },
                    None => !(MIN_DAY <= days_of_secs(self.local_secs()) - days.0 <= MAX_DAY)
                        || resolved_instant(self.offset.spec_resolve(target), target) is None,
                }
            }),
    {
        let local = self.overflowing_naive_local();
        if days.0 > 200000000 {
            return None;
        }
        match local.shift_days(-(days.0 as i64)) {
            Some(local2) => {
                proof {
                    lemma_secs_recompose(local2);
                }
                resolve_in_zone(self.offset, local2)
            },
            None => None,
        }
    }
}

/// A civil datetime is its day number times a day plus its second of the
/// day.
proof fn lemma_secs_recompose(t: NaiveDateTime)
    ensures
        t.secs as int == days_of_secs(t.secs as int) * 86400 + sod_of_secs(t.secs as int),
{
    vstd::arithmetic::div_mod::lemma_fundamental_div_mod(t.secs as int, 86400);
}


impl<Tz: TimeZone> DateTime<Tz> {
    /// The local calendar year.
    pub fn year(&self) -> (r: i32)
        requires
            self.wf(),
        ensures
            exists|m: int, d: int| is_civil_of(days_of_secs(self.local_secs()), r as int, m, d),
    {
        self.overflowing_naive_local().year()
    }

    /// The local month, 1 through 12.
    pub fn month(&self) -> (r: u32)
        requires
            self.wf(),
        ensures
            exists|y: int, d: int| is_civil_of(days_of_secs(self.local_secs()), y, r as int, d),
    {
        self.overflowing_naive_local().month()
    }

    /// The local month, 0 through 11.
    pub fn month0(&self) -> (r: u32)
        requires
            self.wf(),
        ensures
            exists|y: int, m: int, d: int|
                is_civil_of(days_of_secs(self.local_secs()), y, m, d) && m == r + 1,
    {
        let m = self.overflowing_naive_local().month();
        m - 1
    }

    /// The local day of month, 1-based.
    pub fn day(&self) -> (r: u32)
        requires
            self.wf(),
        ensures
            exists|y: int, m: int| is_civil_of(days_of_secs(self.local_secs()), y, m, r as int),
    {
        self.overflowing_naive_local().day()
    }

    /// The local day of month, 0-based.
    pub fn day0(&self) -> (r: u32)
        requires
            self.wf(),
        ensures
            exists|y: int, m: int, d: int|
                is_civil_of(days_of_secs(self.local_secs()), y, m, d) && d == r + 1,
    {
        let d = self.overflowing_naive_local().day();
        d - 1
    }

    /// The local day of the year, 1-based.
    pub fn ordinal(&self) -> (r: u32)
        requires
            self.wf(),
        ensures
            exists|y: int|
                {
                    &&& r >= 1
                    &&& days_of_secs(self.local_secs()) == crate::calendar::days_before_year(y)
                        - crate::calendar::EPOCH_DAYS + r - 1
                    &&& r <= crate::calendar::days_before_month(y, 13)
                },
    {
        self.overflowing_naive_local().ordinal()
    }

    /// The local day of the year, 0-based.
    pub fn ordinal0(&self) -> (r: u32)
        requires
            self.wf(),
        ensures
            exists|y: int|
                {
                    &&& days_of_secs(self.local_secs()) == crate::calendar::days_before_year(y)
                        - crate::calendar::EPOCH_DAYS + r
                    &&& r + 1 <= crate::calendar::days_before_month(y, 13)
                },
    {
        let o = self.overflowing_naive_local().ordinal();
        o - 1
    }

    /// The local weekday.
    pub fn weekday(&self) -> (r: Weekday)
        requires
            self.wf(),
        ensures
            r.spec_days_from_monday() == crate::naive::weekday_of_days(
                days_of_secs(self.local_secs()),
            ),
    {
        self.overflowing_naive_local().weekday()
    }

    /// The local ISO 8601 week.
    pub fn iso_week(&self) -> (r: IsoWeek)
        requires
            self.wf(),
        ensures
            exists|y: int, ord: int|
                {
                    &&& days_of_secs(self.local_secs()) == crate::calendar::days_before_year(y)
                        - crate::calendar::EPOCH_DAYS + ord - 1
                    &&& 1 <= ord <= crate::calendar::days_before_month(y, 13)
                    &&& (r.year as int, r.week as int) == crate::naive::iso_week_of(
                        y,
                        ord,
                        crate::naive::weekday_of_days(days_of_secs(self.local_secs())),
                    )
                },
    {
        self.overflowing_naive_local().iso_week()
    }

    /// The local hour.
    pub fn hour(&self) -> (r: u32)
        requires
            self.wf(),
        ensures
            r == sod_of_secs(self.local_secs()) / 3600,
    {
        self.overflowing_naive_local().hour()
    }

    /// The local minute.
    pub fn minute(&self) -> (r: u32)
        requires
            self.wf(),
        ensures
            r == sod_of_secs(self.local_secs()) % 3600 / 60,
    {
        self.overflowing_naive_local().minute()
    }

    /// The local second.
    pub fn second(&self) -> (r: u32)
        requires
            self.wf(),
        ensures
            r == sod_of_secs(self.local_secs()) % 60,
    {
        self.overflowing_naive_local().second()
    }

    /// The nanosecond part; at or above 1e9 during a leap second.
    pub fn nanosecond(&self) -> (r: u32)
        ensures
            r == self.datetime.nsecs,
    {
        self.datetime.nsecs
    }
}


impl<Tz: TimeZone> DateTime<Tz> {
    /// Shared tail of every field mutation: re-resolve the changed local
    /// reading against a duplicate of this capability and keep the result
    /// only if it denotes exactly one representable instant.
    fn rebuild_local(&self, local2: NaiveDateTime) -> (r: Option<DateTime<Tz>>)
        requires
            self.wf(),
            local2.wf_ext(),
        ensures
            match r {
                Some(dt) => {
                    &&& resolved_instant(
                        self.offset.spec_resolve(local2.secs as int),
                        local2.secs as int,
                    ) == Some(dt.datetime.secs as int)
                    &&& dt.datetime.nsecs == local2.nsecs
                    &&& same_zone(dt.offset, self.offset)
                    &&& dt.wf()
                    &&& dt.local_secs() == local2.secs
                },
                None => resolved_instant(
                    self.offset.spec_resolve(local2.secs as int),
                    local2.secs as int,
                ) is None,
            },
    {
        let zone = self.offset.clone_zone();
        let r = resolve_in_zone(zone, local2);
        r
    }

    /// New value with the local year changed; the month and day must
    /// remain valid, and the changed local reading must resolve to one
    /// representable instant.
    pub fn with_year(&self, year: i64) -> (r: Option<DateTime<Tz>>)
        requires
            self.wf(),
        ensures
            forall|y: int, m: int, d: int|
                is_civil_of(days_of_secs(self.local_secs()), y, m, d) ==> {
                    let target = days_from_ymd(year as int, m, d) * 86400 + sod_of_secs(
                        self.local_secs(),
                    );
                    match r {
                        Some(dt) => {
                            &&& crate::calendar::valid_ymd(year as int, m, d)
                            &&& resolved_instant(self.offset.spec_resolve(target), target) == Some(
                                dt.datetime.secs as int,
                            )
                            &&& dt.datetime.nsecs == self.datetime.nsecs
                            &&& same_zone(dt.offset, self.offset)
                            &&& dt.wf()
                            &&& dt.local_secs() == target
                        },
                        None => !crate::calendar::valid_ymd(year as int, m, d)
                            || resolved_instant(self.offset.spec_resolve(target), target) is None,
                    }
                },
    {
        let local = self.overflowing_naive_local();
        match local.with_year(year) {
            Some(local2) => {
                proof {
                    lemma_secs_recompose(local2);
                }
                self.rebuild_local(local2)
            },
            None => None,
        }
    }

    /// New value with the local month changed.
    pub fn with_month(&self, month: u32) -> (r: Option<DateTime<Tz>>)
        requires
            self.wf(),
        ensures
            forall|y: int, m: int, d: int|
                is_civil_of(days_of_secs(self.local_secs()), y, m, d) ==> {
                    let target = days_from_ymd(y, month as int, d) * 86400 + sod_of_secs(
                        self.local_secs(),
                    );
                    match r {
                        Some(dt) => {
                            &&& crate::calendar::valid_ymd(y, month as int, d)
                            &&& resolved_instant(self.offset.spec_resolve(target), target) == Some(
                                dt.datetime.secs as int,
                            )
                            &&& dt.datetime.nsecs == self.datetime.nsecs
                            &&& same_zone(dt.offset, self.offset)
                            &&& dt.wf()
                            &&& dt.local_secs() == target
                        },
                        None => !crate::calendar::valid_ymd(y, month as int, d)
                            || resolved_instant(self.offset.spec_resolve(target), target) is None,
                    }
                },
    {
        let local = self.overflowing_naive_local();
        match local.with_month(month) {
            Some(local2) => {
                proof {
                    lemma_secs_recompose(local2);
                }
                self.rebuild_local(local2)
            },
            None => None,
        }
    }

    /// New value with the zero-based local month changed.
    pub fn with_month0(&self, month0: u32) -> (r: Option<DateTime<Tz>>)
        requires
            self.wf(),
        ensures
            forall|y: int, m: int, d: int|
                is_civil_of(days_of_secs(self.local_secs()), y, m, d) ==> {
                    let target = days_from_ymd(y, month0 + 1, d) * 86400 + sod_of_secs(
                        self.local_secs(),
                    );
                    match r {
                        Some(dt) => {
                            &&& crate::calendar::valid_ymd(y, month0 + 1, d)
                            &&& resolved_instant(self.offset.spec_resolve(target), target) == Some(
                                dt.datetime.secs as int,
                            )
                            &&& dt.datetime.nsecs == self.datetime.nsecs
                            &&& same_zone(dt.offset, self.offset)
                            &&& dt.wf()
                            &&& dt.local_secs() == target
                        },
                        None => !crate::calendar::valid_ymd(y, month0 + 1, d)
                            || resolved_instant(self.offset.spec_resolve(target), target) is None,
                    }
                },
    {
        let local = self.overflowing_naive_local();
        match local.with_month0(month0) {
            Some(local2) => {
                proof {
                    lemma_secs_recompose(local2);
                }
                self.rebuild_local(local2)
            },
            None => None,
        }
    }

    /// New value with the local day of month changed.
    pub fn with_day(&self, day: u32) -> (r: Option<DateTime<Tz>>)
        requires
            self.wf(),
        ensures
            forall|y: int, m: int, d: int|
                is_civil_of(days_of_secs(self.local_secs()), y, m, d) ==> {
                    let target = days_from_ymd(y, m, day as int) * 86400 + sod_of_secs(
                        self.local_secs(),
                    );
                    match r {
                        Some(dt) => {
                            &&& crate::calendar::valid_ymd(y, m, day as int)
                            &&& resolved_instant(self.offset.spec_resolve(target), target) == Some(
                                dt.datetime.secs as int,
                            )
                            &&& dt.datetime.nsecs == self.datetime.nsecs
                            &&& same_zone(dt.offset, self.offset)
                            &&& dt.wf()
                            &&& dt.local_secs() == target
                        },
                        None => !crate::calendar::valid_ymd(y, m, day as int)
                            || resolved_instant(self.offset.spec_resolve(target), target) is None,
                    }
                },
    {
        let local = self.overflowing_naive_local();
        match local.with_day(day) {
            Some(local2) => {
                proof {
                    lemma_secs_recompose(local2);
                }
                self.rebuild_local(local2)
            },
            None => None,
        }
    }

    /// New value with the zero-based local day of month changed.
    pub fn with_day0(&self, day0: u32) -> (r: Option<DateTime<Tz>>)
        requires
            self.wf(),
        ensures
            forall|y: int, m: int, d: int|
                is_civil_of(days_of_secs(self.local_secs()), y, m, d) ==> {
                    let target = days_from_ymd(y, m, day0 + 1) * 86400 + sod_of_secs(
                        self.local_secs(),
                    );
                    match r {
                        Some(dt) => {
                            &&& crate::calendar::valid_ymd(y, m, day0 + 1)
                            &&& resolved_instant(self.offset.spec_resolve(target), target) == Some(
                                dt.datetime.secs as int,
                            )
                            &&& dt.datetime.nsecs == self.datetime.nsecs
                            &&& same_zone(dt.offset, self.offset)
                            &&& dt.wf()
                            &&& dt.local_secs() == target
                        },
                        None => !crate::calendar::valid_ymd(y, m, day0 + 1)
                            || resolved_instant(self.offset.spec_resolve(target), target) is None,
                    }
                },
    {
        let local = self.overflowing_naive_local();
        match local.with_day0(day0) {
            Some(local2) => {
                proof {
                    lemma_secs_recompose(local2);
                }
                self.rebuild_local(local2)
            },
            None => None,
        }
    }

    /// New value with the 1-based local day of the year changed.
    pub fn with_ordinal(&self, ordinal: u32) -> (r: Option<DateTime<Tz>>)
        requires
            self.wf(),
        ensures
            forall|y: int, m: int, d: int|
                is_civil_of(days_of_secs(self.local_secs()), y, m, d) ==> {
                    let target = (crate::calendar::days_before_year(y)
                        - crate::calendar::EPOCH_DAYS + ordinal - 1) * 86400 + sod_of_secs(
                        self.local_secs(),
                    );
                    let ord_ok = MIN_YEAR <= y <= MAX_YEAR && 1 <= ordinal
                        <= crate::calendar::days_before_month(y, 13);
                    match r {
                        Some(dt) => {
                            &&& ord_ok
                            &&& resolved_instant(self.offset.spec_resolve(target), target) == Some(
                                dt.datetime.secs as int,
                            )
                            &&& dt.datetime.nsecs == self.datetime.nsecs
                            &&& same_zone(dt.offset, self.offset)
                            &&& dt.wf()
                            &&& dt.local_secs() == target
                        },
                        None => !ord_ok || resolved_instant(
                            self.offset.spec_resolve(target),
                            target,
                        ) is None,
                    }
                },
    {
        let local = self.overflowing_naive_local();
        match local.with_ordinal(ordinal) {
            Some(local2) => {
                proof {
                    lemma_secs_recompose(local2);
                }
                self.rebuild_local(local2)
            },
            None => None,
        }
    }

    /// New value with the 0-based local day of the year changed.
    pub fn with_ordinal0(&self, ordinal0: u32) -> (r: Option<DateTime<Tz>>)
        requires
            self.wf(),
        ensures
            forall|y: int, m: int, d: int|
                is_civil_of(days_of_secs(self.local_secs()), y, m, d) ==> {
                    let target = (crate::calendar::days_before_year(y)
                        - crate::calendar::EPOCH_DAYS + ordinal0) * 86400 + sod_of_secs(
                        self.local_secs(),
                    );
                    let ord_ok = MIN_YEAR <= y <= MAX_YEAR && 1 <= ordinal0 + 1
                        <= crate::calendar::days_before_month(y, 13);
                    match r {
                        Some(dt) => {
                            &&& ord_ok
                            &&& resolved_instant(self.offset.spec_resolve(target), target) == Some(
                                dt.datetime.secs as int,
                            )
                            &&& dt.datetime.nsecs == self.datetime.nsecs
                            &&& same_zone(dt.offset, self.offset)
                            &&& dt.wf()
                            &&& dt.local_secs() == target
                        },
                        None => !ord_ok || resolved_instant(
                            self.offset.spec_resolve(target),
                            target,
                        ) is None,
                    }
                },
    {
        let local = self.overflowing_naive_local();
        match local.with_ordinal0(ordinal0) {
            Some(local2) => {
                proof {
                    lemma_secs_recompose(local2);
                }
                self.rebuild_local(local2)
            },
            None => None,
        }
    }

    /// New value with the local hour changed.  An hour that falls in a
    /// zone transition gap or overlap reports failure, never a silently
    /// shifted instant.
    pub fn with_hour(&self, hour: u32) -> (r: Option<DateTime<Tz>>)
        requires
            self.wf(),
        ensures
            ({
                let target = days_of_secs(self.local_secs()) * 86400 + hour * 3600 + sod_of_secs(
                    self.local_secs(),
                ) % 3600;
                match r {
                    Some(dt) => {
                        &&& hour < 24
                        &&& resolved_instant(self.offset.spec_resolve(target), target) == Some(
                            dt.datetime.secs as int,
                        )
                        &&& dt.datetime.nsecs == self.datetime.nsecs
                        &&& same_zone(dt.offset, self.offset)
                        &&& dt.wf()
                        &&& dt.local_secs() == target
                    },
                    None => hour >= 24 || resolved_instant(
                        self.offset.spec_resolve(target),
                        target,
                    ) is None,
                }
            }),
    {
        let local = self.overflowing_naive_local();
        match local.with_hour(hour) {
            Some(local2) => {
                proof {
                    lemma_secs_recompose(local2);
                }
                self.rebuild_local(local2)
            },
            None => None,
        }
    }

    /// New value with the local minute changed.
    pub fn with_minute(&self, min: u32) -> (r: Option<DateTime<Tz>>)
        requires
            self.wf(),
        ensures
            ({
                let target = days_of_secs(self.local_secs()) * 86400 + sod_of_secs(
                    self.local_secs(),
                ) / 3600 * 3600 + min * 60 + sod_of_secs(self.local_secs()) % 60;
                match r {
                    Some(dt) => {
                        &&& min < 60
                        &&& resolved_instant(self.offset.spec_resolve(target), target) == Some(
                            dt.datetime.secs as int,
                        )
                        &&& dt.datetime.nsecs == self.datetime.nsecs
                        &&& same_zone(dt.offset, self.offset)
                        &&& dt.wf()
                        &&& dt.local_secs() == target
                    },
                    None => min >= 60 || resolved_instant(
                        self.offset.spec_resolve(target),
                        target,
                    ) is None,
                }
            }),
    {
        let local = self.overflowing_naive_local();
        match local.with_minute(min) {
            Some(local2) => {
                proof {
                    lemma_secs_recompose(local2);
                }
                self.rebuild_local(local2)
            },
            None => None,
        }
    }

    /// New value with the local second changed; values 60 and above are
    /// rejected, a leap second is reached through `with_nanosecond`.
    pub fn with_second(&self, sec: u32) -> (r: Option<DateTime<Tz>>)
        requires
            self.wf(),
        ensures
            ({
                let target = days_of_secs(self.local_secs()) * 86400 + sod_of_secs(
                    self.local_secs(),
                ) - sod_of_secs(self.local_secs()) % 60 + sec;
                match r {
                    Some(dt) => {
                        &&& sec < 60
                        &&& resolved_instant(self.offset.spec_resolve(target), target) == Some(
                            dt.datetime.secs as int,
                        )
                        &&& dt.datetime.nsecs == self.datetime.nsecs
                        &&& same_zone(dt.offset, self.offset)
                        &&& dt.wf()
                        &&& dt.local_secs() == target
                    },
                    None => sec >= 60 || resolved_instant(
                        self.offset.spec_resolve(target),
                        target,
                    ) is None,
                }
            }),
    {
        let local = self.overflowing_naive_local();
        match local.with_second(sec) {
            Some(local2) => {
                proof {
                    lemma_secs_recompose(local2);
                }
                self.rebuild_local(local2)
            },
            None => None,
        }
    }

    /// New value with the nanosecond field changed; values in
    /// `[1e9, 2e9)` encode a leap second.  The instant's second count is
    /// untouched, so no re-resolution is needed.
    pub fn with_nanosecond(&self, nano: u32) -> (r: Option<DateTime<Tz>>)
        requires
            self.wf(),
        ensures
            match r {
                Some(dt) => {
                    &&& nano < 2000000000
                    &&& dt.datetime.secs == self.datetime.secs
                    &&& dt.datetime.nsecs == nano
                    &&& same_zone(dt.offset, self.offset)
                    &&& dt.wf()
                },
                None => nano >= 2000000000,
            },
    {
        if nano >= 2000000000 {
            return None;
        }
        Some(
            DateTime {
                datetime: NaiveDateTime { secs: self.datetime.secs, nsecs: nano },
                offset: self.offset.clone_zone(),
            },
        )
    }

    /// Whole calendar years elapsed from `base` to `self`, counted on
    /// local fields and rounded toward zero; fails when `base` is later.
    pub fn years_since(&self, base: DateTime<Tz>) -> (r: Option<u32>)
        requires
            self.wf(),
            base.wf(),
        ensures
            forall|y1: int, m1: int, d1: int, y2: int, m2: int, d2: int|
                is_civil_of(days_of_secs(self.local_secs()), y1, m1, d1) && is_civil_of(
                    days_of_secs(base.local_secs()),
                    y2,
                    m2,
                    d2,
                ) ==> {
                    let years = y1 - y2 - if fields_earlier(
                        m1,
                        d1,
                        sod_of_secs(self.local_secs()),
                        self.datetime.nsecs as int,
                        m2,
                        d2,
                        sod_of_secs(base.local_secs()),
                        base.datetime.nsecs as int,
                    ) {
                        1int
                    } else {
                        0int
                    };
                    r == if years >= 0 {
                        Some(years as u32)
                    } else {
                        None::<u32>
                    }
                },
    {
        let l1 = self.overflowing_naive_local();
        let l2 = base.overflowing_naive_local();
        let (y1, m1, d1) = l1.civil();
        let (y2, m2, d2) = l2.civil();
        let s1 = crate::calendar::rem_floor(l1.secs, SECS_PER_DAY);
        let s2 = crate::calendar::rem_floor(l2.secs, SECS_PER_DAY);
        proof {
            lemma_civil_unique_pair(days_of_secs(l1.secs as int), y1 as int, m1 as int, d1 as int);
            lemma_civil_unique_pair(days_of_secs(l2.secs as int), y2 as int, m2 as int, d2 as int);
        }
        let earlier = m1 < m2 || (m1 == m2 && (d1 < d2 || (d1 == d2 && (s1 < s2 || (s1 == s2
            && l1.nsecs < l2.nsecs)))));
        let years = y1 - y2 - if earlier {
            1
        } else {
            0
        };
        if years >= 0 {
            Some(years as u32)
        } else {
            None
        }
    }
}

/// A civil decomposition is unique: what holds of the computed one holds
/// of any.
proof fn lemma_civil_unique_pair(days: int, y0: int, m0: int, d0: int)
    requires
        is_civil_of(days, y0, m0, d0),
    ensures
        forall|y: int, m: int, d: int|
            is_civil_of(days, y, m, d) ==> y == y0 && m == m0 && d == d0,
{
    assert forall|y: int, m: int, d: int| is_civil_of(days, y, m, d) implies y == y0 && m == m0
        && d == d0 by {
        crate::calendar::lemma_civil_injective(days, y, m, d, y0, m0, d0);
    }
}


impl<Tz: TimeZone> DateTime<Tz> {
    /// The demanding form of `checked_add_months`: the caller must know
    /// the shifted local reading resolves to one representable instant.
    pub fn add_months(self, rhs: Months) -> (r: DateTime<Tz>)
        requires
            self.wf(),
            exists|y: int, m: int, d: int|
                #[trigger] is_civil_of(days_of_secs(self.local_secs()), y, m, d) && {
                    let (y2, m2) = shift_months_ym(y, m, rhs.0 as int);
                    let target = days_from_ymd(y2, m2, clamp_day(y2, m2, d)) * 86400 + sod_of_secs(
                        self.local_secs(),
                    );
                    MIN_YEAR <= y2 <= MAX_YEAR && resolved_instant(
                        self.offset.spec_resolve(target),
                        target,
                    ) is Some
                },
        ensures
            forall|y: int, m: int, d: int|
                is_civil_of(days_of_secs(self.local_secs()), y, m, d) ==> {
                    let (y2, m2) = shift_months_ym(y, m, rhs.0 as int);
                    let target = days_from_ymd(y2, m2, clamp_day(y2, m2, d)) * 86400 + sod_of_secs(
                        self.local_secs(),
                    );
                    &&& resolved_instant(self.offset.spec_resolve(target), target) == Some(
                        r.datetime.secs as int,
                    )
                    &&& r.datetime.nsecs == self.datetime.nsecs
                    &&& r.offset == self.offset
                    &&& r.wf()
                },
    {
        let r = self.checked_add_months(rhs);
        r.unwrap()
    }

    /// The demanding form of `checked_sub_months`.
    pub fn sub_months(self, rhs: Months) -> (r: DateTime<Tz>)
        requires
            self.wf(),
            exists|y: int, m: int, d: int|
                #[trigger] is_civil_of(days_of_secs(self.local_secs()), y, m, d) && {
                    let (y2, m2) = shift_months_ym(y, m, -(rhs.0 as int));
                    let target = days_from_ymd(y2, m2, clamp_day(y2, m2, d)) * 86400 + sod_of_secs(
                        self.local_secs(),
                    );
                    MIN_YEAR <= y2 <= MAX_YEAR && resolved_instant(
                        self.offset.spec_resolve(target),
                        target,
                    ) is Some
                },
        ensures
            forall|y: int, m: int, d: int|
                is_civil_of(days_of_secs(self.local_secs()), y, m, d) ==> {
                    let (y2, m2) = shift_months_ym(y, m, -(rhs.0 as int));
                    let target = days_from_ymd(y2, m2, clamp_day(y2, m2, d)) * 86400 + sod_of_secs(
                        self.local_secs(),
                    );
                    &&& resolved_instant(self.offset.spec_resolve(target), target) == Some(
                        r.datetime.secs as int,
                    )
                    &&& r.datetime.nsecs == self.datetime.nsecs
                    &&& r.offset == self.offset
                    &&& r.wf()
                },
    {
        let r = self.checked_sub_months(rhs);
        r.unwrap()
    }

    /// The demanding form of `checked_add_days`.
    pub fn add_days(self, days: Days) -> (r: DateTime<Tz>)
        requires
            self.wf(),
            ({
                let target = (days_of_secs(self.local_secs()) + days.0) * 86400 + sod_of_secs(
                    self.local_secs(),
                );
                MIN_DAY <= days_of_secs(self.local_secs()) + days.0 <= MAX_DAY && resolved_instant(
                    self.offset.spec_resolve(target),
                    target,
                ) is Some
            }),
        ensures
            ({
                let target = (days_of_secs(self.local_secs()) + days.0) * 86400 + sod_of_secs(
                    self.local_secs(),
                );
                &&& resolved_instant(self.offset.spec_resolve(target), target) == Some(
                    r.datetime.secs as int,
                )
                &&& r.datetime.nsecs == self.datetime.nsecs
                &&& r.offset == self.offset
                &&& r.wf()
            }),
    {
        let r = self.checked_add_days(days);
        r.unwrap()
    }

    /// The demanding form of `checked_sub_days`.
    pub fn sub_days(self, days: Days) -> (r: DateTime<Tz>)
        requires
            self.wf(),
            ({
                let target = (days_of_secs(self.local_secs()) - days.0) * 86400 + sod_of_secs(
                    self.local_secs(),
                );
                MIN_DAY <= days_of_secs(self.local_secs()) - days.0 <= MAX_DAY && resolved_instant(
                    self.offset.spec_resolve(target),
                    target,
                ) is Some
            }),
        ensures
            ({
                let target = (days_of_secs(self.local_secs()) - days.0) * 86400 + sod_of_secs(
                    self.local_secs(),
                );
                &&& resolved_instant(self.offset.spec_resolve(target), target) == Some(
                    r.datetime.secs as int,
                )
                &&& r.datetime.nsecs == self.datetime.nsecs
                &&& r.offset == self.offset
                &&& r.wf()
            }),
    {
        let r = self.checked_sub_days(days);
        r.unwrap()
    }
}

impl DateTime<Utc> {
    /// An instant from a platform wall-clock reading, given as a whole
    /// duration away from the epoch: `before` tells on which side.  A
    /// reading before the epoch with a nanosecond part borrows one whole
    /// second, so that the nanosecond field stays non-negative.  Fails
    /// exactly when the instant leaves the representable range.
    pub fn from_platform_parts(before: bool, secs: u64, nanos: u32) -> (r: Option<DateTime<Utc>>)
        requires
            nanos < 1000000000,
        ensures
            ({
                let total = if before {
                    -(secs as int) * 1000000000 - nanos
                } else {
                    secs as int * 1000000000 + nanos
                };
                match r {
                    Some(dt) => {
                        &&& dt.wf()
                        &&& dt.offset == Utc
                        &&& dt.datetime.nsecs < 1000000000
                        &&& dt.datetime.secs * 1000000000 + dt.datetime.nsecs == total
                    },
                    None => !(MIN_SECS * 1000000000 <= total <= MAX_SECS * 1000000000 + 999999999),
                }
            }),
    {
        if !before {
            if secs > MAX_SECS as u64 {
                proof {
                    assert(secs * 1000000000 + nanos > MAX_SECS * 1000000000 + 999999999)
                        by (nonlinear_arith)
                        requires
                            secs > MAX_SECS,
                            MAX_SECS == 8210266876799,
                    {}
                }
                return None;
            }
            Some(
                DateTime {
                    datetime: NaiveDateTime { secs: secs as i64, nsecs: nanos },
                    offset: Utc,
                },
            )
        } else {
            if secs > (-MIN_SECS) as u64 {
                proof {
                    assert(-(secs as int) * 1000000000 - nanos < MIN_SECS * 1000000000)
                        by (nonlinear_arith)
                        requires
                            secs > -(MIN_SECS as int),
                            MIN_SECS == -8334601228800,
                            nanos >= 0,
                    {}
                }
                return None;
            }
            let (bsecs, bnanos): (u64, u32) = if nanos == 0 {
                (secs, 0)
            } else {
                (secs + 1, 1000000000 - nanos)
            };
            if bsecs > (-MIN_SECS) as u64 {
                proof {
                    assert(-(secs as int) * 1000000000 - nanos < MIN_SECS * 1000000000)
                        by (nonlinear_arith)
                        requires
                            bsecs > -(MIN_SECS as int),
                            MIN_SECS == -8334601228800,
                            nanos < 1000000000,
                            (nanos == 0 && bsecs == secs) || (nanos > 0 && bsecs == secs + 1),
                    {}
                }
                return None;
            }
            let rsecs = -(bsecs as i64);
            proof {
                assert(rsecs * 1000000000 + bnanos == -(secs as int) * 1000000000 - nanos)
                    by (nonlinear_arith)
                    requires
                        (nanos == 0 && bsecs == secs && bnanos == 0) || (nanos > 0 && bsecs == secs
                            + 1 && bnanos == 1000000000 - nanos),
                        rsecs == -(bsecs as int),
                        nanos < 1000000000,
                {}
                if rsecs == MIN_SECS && bnanos == 0 {
                }
                assert(MIN_SECS * 1000000000 <= rsecs * 1000000000 + bnanos) by (nonlinear_arith)
                    requires
                        rsecs >= MIN_SECS,
                        bnanos >= 0,
                        MIN_SECS == -8334601228800,
                {}
            }
            Some(
                DateTime { datetime: NaiveDateTime { secs: rsecs, nsecs: bnanos }, offset: Utc },
            )
        }
    }
}

impl<Tz: TimeZone> DateTime<Tz> {
    /// The instant as a platform wall-clock reading: a whole duration
    /// away from the epoch and the side it lies on.  The inverse of
    /// `from_platform_parts` for instants without a leap second.
    pub fn to_platform_parts(&self) -> (r: (bool, u64, u32))
        requires
            self.datetime.wf(),
        ensures
            ({
                let total = if r.0 {
                    -(r.1 as int) * 1000000000 - r.2
                } else {
                    r.1 as int * 1000000000 + r.2
                };
                &&& r.2 < 1000000000
                &&& total == self.datetime.secs * 1000000000 + if self.datetime.nsecs
                    < 1000000000 {
                    self.datetime.nsecs as int
                } else {
                    self.datetime.nsecs - 1000000000
                }
            }),
    {
        let nsub: u32 = if self.datetime.nsecs >= 1000000000 {
            self.datetime.nsecs - 1000000000
        } else {
            self.datetime.nsecs
        };
        if self.datetime.secs >= 0 {
            (false, self.datetime.secs as u64, nsub)
        } else if nsub == 0 {
            proof {
                assert(-((-(self.datetime.secs as int)) as int) * 1000000000 - 0
                    == self.datetime.secs * 1000000000) by (nonlinear_arith)
                {}
            }
            (true, (-self.datetime.secs) as u64, 0)
        } else {
            let bsecs = (-(self.datetime.secs + 1)) as u64;
            let bnanos = 1000000000 - nsub;
            proof {
                assert(-(bsecs as int) * 1000000000 - bnanos == self.datetime.secs * 1000000000
                    + nsub) by (nonlinear_arith)
                    requires
                        bsecs == -(self.datetime.secs as int) - 1,
                        bnanos == 1000000000 - nsub,
                        0 < nsub < 1000000000,
                {}
            }
            (true, bsecs, bnanos)
        }
    }
}

} // verus!
