//! Signed durations with nanosecond precision.
//!
//! A [`TimeDelta`] is the difference between two instants.  It is stored
//! as whole seconds plus a non-negative nanosecond part, and is specified
//! by its total length in nanoseconds, `total_nanos`.

use vstd::prelude::*;
use crate::calendar::div_floor;
use crate::calendar::rem_floor;

verus! {

/// Bound on the seconds of a `TimeDelta`, chosen so that a length in
/// milliseconds always fits an `i64`.
pub const MAX_DELTA_SECS: i64 = 9223372036854775;
/// Lower bound on the seconds of a `TimeDelta`.
pub const MIN_DELTA_SECS: i64 = -9223372036854775;
/// Smallest number of milliseconds a `TimeDelta` can hold.
pub const MIN_DELTA_MILLIS: i64 = -9223372036854775000;

pub const NANOS_PER_SEC: u32 = 1000000000;
pub const NANOS_PER_MILLI: u32 = 1000000;
pub const NANOS_PER_MICRO: u32 = 1000;
pub const MILLIS_PER_SEC: i64 = 1000;
pub const MICROS_PER_SEC: i64 = 1000000;

/// A signed span of time: `secs` whole seconds plus `nanos` nanoseconds,
/// with `0 <= nanos < 1_000_000_000`.  A span of minus one and a half
/// seconds is stored as `secs == -2, nanos == 500_000_000`.
#[derive(Clone, Copy, PartialEq, Eq, Structural, Debug, Hash)]
pub struct TimeDelta {
    pub secs: i64,
    pub nanos: u32,
}

impl TimeDelta {
    /// Structural validity: the nanosecond part is normalized and the
    /// seconds are small enough that unit conversions cannot overflow.
    pub open spec fn wf(self) -> bool {
        &&& MIN_DELTA_SECS <= self.secs <= MAX_DELTA_SECS
        &&& self.nanos < NANOS_PER_SEC
    }

    /// The length of the span in nanoseconds: the single mathematical
    /// meaning of a `TimeDelta`.
    pub open spec fn total_nanos(self) -> int {
        self.secs * (NANOS_PER_SEC as int) + self.nanos
    }

    /// A span from whole seconds and a nanosecond part.
    pub fn new(secs: i64, nanos: u32) -> (r: Option<TimeDelta>)
        ensures
            match r {
                Some(d) => {
                    &&& d.wf()
                    &&& d.total_nanos() == secs * (NANOS_PER_SEC as int) + nanos
                },
                None => !(MIN_DELTA_SECS <= secs <= MAX_DELTA_SECS && nanos < NANOS_PER_SEC),
            },
    {
        if MIN_DELTA_SECS <= secs && secs <= MAX_DELTA_SECS && nanos < NANOS_PER_SEC {
            Some(TimeDelta { secs, nanos })
        } else {
            None
        }
    }

    /// A span of whole seconds.
    pub fn seconds(secs: i64) -> (r: TimeDelta)
        requires
            MIN_DELTA_SECS <= secs <= MAX_DELTA_SECS,
        ensures
            r.wf(),
            r.total_nanos() == secs * (NANOS_PER_SEC as int),
    {
        TimeDelta { secs, nanos: 0 }
    }

    /// A span of whole milliseconds.
    pub fn milliseconds(millis: i64) -> (r: TimeDelta)
        requires
            millis >= MIN_DELTA_MILLIS,
        ensures
            r.wf(),
            r.total_nanos() == millis * (NANOS_PER_MILLI as int),
    {
        let secs = div_floor(millis, MILLIS_PER_SEC);
        let sub = rem_floor(millis, MILLIS_PER_SEC);
        proof {
            vstd::arithmetic::div_mod::lemma_fundamental_div_mod(
                millis as int,
                MILLIS_PER_SEC as int,
            );
            lemma_div_in_delta_range(millis as int, MILLIS_PER_SEC as int);
            assert((millis as int) * (NANOS_PER_MILLI as int) == (secs as int) * (
            NANOS_PER_SEC as int) + (sub as int) * (NANOS_PER_MILLI as int)) by (nonlinear_arith)
                requires
                    millis as int == (MILLIS_PER_SEC as int) * (secs as int) + sub as int,
                    NANOS_PER_MILLI == 1000000,
                    NANOS_PER_SEC == 1000000000,
                    MILLIS_PER_SEC == 1000,
            {}
        }
        TimeDelta { secs, nanos: (sub as u32) * NANOS_PER_MILLI }
    }

    /// A span of whole microseconds.
    pub fn microseconds(micros: i64) -> (r: TimeDelta)
        ensures
            r.wf(),
            r.total_nanos() == micros * (NANOS_PER_MICRO as int),
    {
        let secs = div_floor(micros, MICROS_PER_SEC);
        let sub = rem_floor(micros, MICROS_PER_SEC);
        proof {
            vstd::arithmetic::div_mod::lemma_fundamental_div_mod(
                micros as int,
                MICROS_PER_SEC as int,
            );
            lemma_div_in_delta_range(micros as int, MICROS_PER_SEC as int);
            assert((micros as int) * (NANOS_PER_MICRO as int) == (secs as int) * (
            NANOS_PER_SEC as int) + (sub as int) * (NANOS_PER_MICRO as int)) by (nonlinear_arith)
                requires
                    micros as int == (MICROS_PER_SEC as int) * (secs as int) + sub as int,
                    NANOS_PER_MICRO == 1000,
                    NANOS_PER_SEC == 1000000000,
                    MICROS_PER_SEC == 1000000,
            {}
        }
        TimeDelta { secs, nanos: (sub as u32) * NANOS_PER_MICRO }
    }

    /// A span of nanoseconds.
    pub fn nanoseconds(nanos: i64) -> (r: TimeDelta)
        ensures
            r.wf(),
            r.total_nanos() == nanos,
    {
        let secs = div_floor(nanos, NANOS_PER_SEC as i64);
        let sub = rem_floor(nanos, NANOS_PER_SEC as i64);
        proof {
            vstd::arithmetic::div_mod::lemma_fundamental_div_mod(nanos as int, NANOS_PER_SEC as int);
            lemma_div_in_delta_range(nanos as int, NANOS_PER_SEC as int);
        }
        TimeDelta { secs, nanos: sub as u32 }
    }

    /// The zero-length span.
    pub fn zero() -> (r: TimeDelta)
        ensures
            r.wf(),
            r.total_nanos() == 0,
    {
        TimeDelta { secs: 0, nanos: 0 }
    }

    pub fn is_zero(&self) -> (r: bool)
        requires
            self.wf(),
        ensures
            r == (self.total_nanos() == 0),
    {
        proof {
            if self.secs != 0 {
                lemma_total_nanos_nonzero(*self);
            }
        }
        self.secs == 0 && self.nanos == 0
    }

    /// `num_seconds` as a spec-level function: whole seconds rounded
    /// toward zero.
    pub open spec fn num_seconds_spec(self) -> int {
        if self.secs < 0 && self.nanos > 0 {
            self.secs + 1
        } else {
            self.secs as int
        }
    }

    /// Whole seconds, rounded toward zero.
    pub fn num_seconds(&self) -> (r: i64)
        requires
            self.wf(),
        ensures
            r == self.num_seconds_spec(),
    {
        if self.secs < 0 && self.nanos > 0 {
            self.secs + 1
        } else {
            self.secs
        }
    }

    /// The nanosecond part that `num_seconds` leaves over; negative for
    /// negative spans.
    pub fn subsec_nanos(&self) -> (r: i32)
        requires
            self.wf(),
        ensures
            r == self.total_nanos() - self.num_seconds_spec() * (NANOS_PER_SEC as int),
            -1000000000 < r < 1000000000,
    {
        if self.secs < 0 && self.nanos > 0 {
            (self.nanos as i32) - (NANOS_PER_SEC as i32)
        } else {
            self.nanos as i32
        }
    }

    /// The exact length in nanoseconds, when it fits a 64-bit integer.
    pub fn num_nanoseconds(&self) -> (r: Option<i64>)
        requires
            self.wf(),
        ensures
            match r {
                Some(n) => n == self.total_nanos(),
                None => !(i64::MIN <= self.total_nanos() <= i64::MAX),
            },
    {
        if self.secs < 0 && self.nanos > 0 {
            // Shift by one second so that the second part alone cannot
            // underflow while the total still fits.
            let base = match (self.secs + 1).checked_mul(NANOS_PER_SEC as i64) {
                Some(b) => b,
                None => {
                    return None;
                },
            };
            match base.checked_add(self.nanos as i64 - NANOS_PER_SEC as i64) {
                Some(total) => Some(total),
                None => None,
            }
        } else {
            let base = match self.secs.checked_mul(NANOS_PER_SEC as i64) {
                Some(b) => b,
                None => {
                    return None;
                },
            };
            match base.checked_add(self.nanos as i64) {
                Some(total) => Some(total),
                None => None,
            }
        }
    }
}

/// A quotient by a divisor of at least 1000 stays in the delta range,
/// provided the dividend is above `MIN_DELTA_SECS` times the divisor.
proof fn lemma_div_in_delta_range(a: int, b: int)
    requires
        b >= 1000,
        a >= MIN_DELTA_SECS * b,
        a <= i64::MAX,
    ensures
        MIN_DELTA_SECS <= a / b <= MAX_DELTA_SECS,
{
    vstd::arithmetic::div_mod::lemma_fundamental_div_mod(a, b);
    vstd::arithmetic::div_mod::lemma_mod_bound(a, b);
    let q = a / b;
    let r = a % b;
    assert(MIN_DELTA_SECS <= q <= MAX_DELTA_SECS) by (nonlinear_arith)
        requires
            a == b * q + r,
            0 <= r < b,
            b >= 1000,
            a >= MIN_DELTA_SECS * b,
            a <= i64::MAX,
    {
        if q > MAX_DELTA_SECS {
            assert(b * q >= 1000 * q);
        }
        if q < MIN_DELTA_SECS {
            assert(b * q <= b * (MIN_DELTA_SECS - 1));
            assert(b * (MIN_DELTA_SECS - 1) + b <= MIN_DELTA_SECS * b);
        }
    }
}

/// A span with nonzero seconds has a nonzero length.
proof fn lemma_total_nanos_nonzero(d: TimeDelta)
    requires
        d.secs != 0,
        d.nanos < NANOS_PER_SEC,
    ensures
        d.total_nanos() != 0,
{
    if d.secs > 0 {
        assert(d.total_nanos() >= 1000000000) by (nonlinear_arith)
            requires
                d.secs >= 1,
                d.total_nanos() == d.secs * 1000000000 + d.nanos,
                d.nanos >= 0,
        {}
    } else {
        assert(d.total_nanos() <= -1) by (nonlinear_arith)
            requires
                d.secs <= -1,
                d.total_nanos() == d.secs * 1000000000 + d.nanos,
                d.nanos < 1000000000,
        {}
    }
}

} // verus!
