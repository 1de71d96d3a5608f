//! The crate-level laws: properties that relate several operations, each
//! proved once and for all inputs.

use vstd::prelude::*;
use crate::calendar::{is_civil_of, lemma_civil_injective, MAX_SECS, MIN_SECS};
use crate::datetime::DateTime;
use crate::delta::TimeDelta;
use crate::naive::{days_of_secs, leap_diff, sod_of_secs, NaiveDateTime};
use crate::offset::{FixedOffset, TimeZone, Utc};
use crate::rfc3339::{
    rfc3339_match, rfc3339_nsecs, rfc3339_off_secs, rfc3339_secs, Rfc3339Parts,
};
use crate::rfc2822::{
    rfc2822_canonical, rfc2822_match, rfc2822_nsecs, rfc2822_off_secs, rfc2822_secs, Rfc2822Parts,
};

verus! {

/// Equality of zoned instants ignores the offsets entirely: two values
/// are equal exactly when their absolute instants coincide, whatever
/// capabilities they carry.
pub proof fn law_eq_ignores_offset<Tz: TimeZone, Tz2: TimeZone>(
    a: DateTime<Tz>,
    b: DateTime<Tz2>,
)
    ensures
        vstd::std_specs::cmp::PartialEqSpec::eq_spec(&a, &b) <==> a.datetime == b.datetime,
{
}

/// Order between zoned instants depends only on the absolute instants:
/// re-tagging either side with any other capability never changes the
/// comparison.
pub proof fn law_order_ignores_offset<Tz: TimeZone, Tz2: TimeZone, Tz3: TimeZone, Tz4: TimeZone>(
    a: DateTime<Tz>,
    b: DateTime<Tz2>,
    a2: DateTime<Tz3>,
    b2: DateTime<Tz4>,
)
    requires
        a.datetime == a2.datetime,
        b.datetime == b2.datetime,
    ensures
        vstd::std_specs::cmp::PartialOrdSpec::partial_cmp_spec(&a, &b)
            == vstd::std_specs::cmp::PartialOrdSpec::partial_cmp_spec(&a2, &b2),
{
}

/// Subtracting two instants neither of which encodes a leap second
/// assumes zero elapsed leap seconds: the difference is the plain
/// distance between the two second-and-nanosecond counts, whatever real
/// leap seconds lay between the dates.
pub proof fn law_diff_without_leap(a: NaiveDateTime, b: NaiveDateTime)
    requires
        a.nsecs < 1000000000,
        b.nsecs < 1000000000,
    ensures
        leap_diff(a.secs as int, a.nsecs as int, b.secs as int, b.nsecs as int) == (a.secs
            - b.secs) * 1000000000 + (a.nsecs - b.nsecs),
{
}

/// A leap-second endpoint is assumed to occupy exactly one extra second:
/// subtracting an instant that encodes a leap second from a later one
/// counts one second more than the plain distance.
pub proof fn law_diff_leap_asymmetry(a: NaiveDateTime, b: NaiveDateTime)
    requires
        a.nsecs < 1000000000,
        b.nsecs >= 1000000000,
        a.secs > b.secs,
    ensures
        leap_diff(a.secs as int, a.nsecs as int, b.secs as int, b.nsecs as int) == (a.secs
            - b.secs) * 1000000000 + (a.nsecs - b.nsecs) + 1000000000,
{
}

/// The epoch-second constructor inverts the epoch-second accessors: an
/// instant rebuilt from its timestamp and sub-second nanoseconds is the
/// instant itself, for every representable instant whose leap encoding
/// the constructor admits.
pub proof fn law_timestamp_round_trip(dt: DateTime<Utc>, rebuilt: Option<DateTime<Utc>>)
    requires
        dt.wf(),
        dt.datetime.nsecs < 1000000000 || dt.datetime.secs as int % 60 == 59,
        match rebuilt {
            Some(r) => {
                &&& r.datetime.secs == dt.datetime.secs
                &&& r.datetime.nsecs == dt.datetime.nsecs
                &&& r.offset == Utc
            },
            None => !(MIN_SECS <= dt.datetime.secs <= MAX_SECS && (dt.datetime.nsecs < 1000000000
                || (dt.datetime.nsecs < 2000000000 && dt.datetime.secs as int % 60 == 59))),
        },
    ensures
        rebuilt matches Some(r) && r.datetime == dt.datetime,
{
}

/// The millisecond constructor inverts the millisecond accessor: an
/// instant of millisecond precision rebuilt from its `timestamp_millis`
/// is the instant itself.
pub proof fn law_timestamp_millis_round_trip(dt: DateTime<Utc>, rebuilt: Option<DateTime<Utc>>)
    requires
        dt.wf(),
        dt.datetime.nsecs < 1000000000,
        dt.datetime.nsecs as int % 1000000 == 0,
        // what `from_timestamp_millis` certifies when handed
        // `dt.timestamp_millis()`
        match rebuilt {
            Some(r) => {
                &&& r.datetime.secs * 1000 + r.datetime.nsecs as int / 1000000 == dt.datetime.secs
                    * 1000 + dt.datetime.nsecs as int / 1000000
                &&& r.datetime.nsecs < 1000000000
                &&& r.datetime.nsecs as int % 1000000 == 0
                &&& r.offset == Utc
            },
            None => !(MIN_SECS * 1000 <= dt.datetime.secs * 1000 + dt.datetime.nsecs as int
                / 1000000 <= MAX_SECS * 1000 + 999),
        },
    ensures
        rebuilt matches Some(r) && r.datetime == dt.datetime,
{
    vstd::arithmetic::div_mod::lemma_fundamental_div_mod(dt.datetime.nsecs as int, 1000000);
    vstd::arithmetic::div_mod::lemma_mod_bound(dt.datetime.nsecs as int, 1000000);
    vstd::arithmetic::div_mod::lemma_div_pos_is_pos(dt.datetime.nsecs as int, 1000000);
    let dms = dt.datetime.nsecs as int / 1000000;
    assert(dms <= 999) by (nonlinear_arith)
        requires
            dt.datetime.nsecs == 1000000 * dms + dt.datetime.nsecs as int % 1000000,
            0 <= dt.datetime.nsecs as int % 1000000 < 1000000,
            dt.datetime.nsecs < 1000000000,
            dms >= 0,
    {}
    match rebuilt {
        Some(r) => {
            vstd::arithmetic::div_mod::lemma_fundamental_div_mod(r.datetime.nsecs as int, 1000000);
            vstd::arithmetic::div_mod::lemma_mod_bound(r.datetime.nsecs as int, 1000000);
            vstd::arithmetic::div_mod::lemma_div_pos_is_pos(r.datetime.nsecs as int, 1000000);
            let rms = r.datetime.nsecs as int / 1000000;
            assert(rms <= 999) by (nonlinear_arith)
                requires
                    r.datetime.nsecs == 1000000 * rms + r.datetime.nsecs as int % 1000000,
                    0 <= r.datetime.nsecs as int % 1000000 < 1000000,
                    r.datetime.nsecs < 1000000000,
                    rms >= 0,
            {}
            // the millisecond count splits uniquely into seconds and a
            // sub-second part
            vstd::arithmetic::div_mod::lemma_fundamental_div_mod_converse(
                dt.datetime.secs * 1000 + dms,
                1000,
                dt.datetime.secs as int,
                dms,
            );
            vstd::arithmetic::div_mod::lemma_fundamental_div_mod_converse(
                r.datetime.secs * 1000 + rms,
                1000,
                r.datetime.secs as int,
                rms,
            );
        },
        None => {
        },
    }
}

/// The textual ISO-style round trip: decoding any encoding of an instant
/// yields the instant back.  `wp` is the bundle the writer certified for
/// the encoded text and `pr` the values the parser returned for that
/// same text; the offset must be whole minutes (the encoding has minute
/// precision) and a leap second must sit at the end of a minute (second
/// sixty is the only leap spelling).
pub proof fn law_rfc3339_round_trip(
    dt: DateTime<FixedOffset>,
    wp: Rfc3339Parts,
    text: Seq<char>,
    secs: int,
    nsecs: int,
    off: int,
)
    requires
        dt.wf(),
        dt.offset.local_minus_utc as int % 60 == 0,
        dt.datetime.nsecs < 1000000000 || sod_of_secs(dt.local_secs()) % 60 == 59,
        // what `to_rfc3339_opts` certifies about its output, for a policy
        // that keeps all sub-second digits
        rfc3339_match(wp, text),
        is_civil_of(days_of_secs(dt.local_secs()), wp.y, wp.m, wp.d),
        wp.h == sod_of_secs(dt.local_secs()) / 3600,
        wp.mi == sod_of_secs(dt.local_secs()) % 3600 / 60,
        wp.sec == sod_of_secs(dt.local_secs()) % 60 + if dt.datetime.nsecs >= 1000000000 {
            1int
        } else {
            0int
        },
        wp.nano == if dt.datetime.nsecs >= 1000000000 {
            dt.datetime.nsecs - 1000000000
        } else {
            dt.datetime.nsecs as int
        },
        rfc3339_off_secs(wp) == dt.offset.local_minus_utc,
        // what `parse_from_rfc3339` returns for any text matched by `wp`
        secs == rfc3339_secs(wp),
        nsecs == rfc3339_nsecs(wp),
        off == rfc3339_off_secs(wp),
    ensures
        secs == dt.datetime.secs,
        nsecs == dt.datetime.nsecs,
        off == dt.offset.local_minus_utc,
{
    let ell = dt.local_secs();
    lemma_local_recompose(ell);
    assert(days_of_secs(ell) * 86400 + wp.h * 3600 + wp.mi * 60 + sod_of_secs(ell) % 60
        == ell) by {
        lemma_sod_split(sod_of_secs(ell));
    }
}

/// The textual message-timestamp round trip, for whole-second instants:
/// decoding the canonical encoding of an instant yields the instant.
pub proof fn law_rfc2822_round_trip(
    dt: DateTime<FixedOffset>,
    wp: Rfc2822Parts,
    text: Seq<char>,
    secs: int,
    nsecs: int,
    off: int,
)
    requires
        dt.wf(),
        dt.offset.local_minus_utc as int % 60 == 0,
        dt.datetime.nsecs == 0 || (dt.datetime.nsecs == 1000000000 && sod_of_secs(dt.local_secs())
            % 60 == 59),
        rfc2822_match(wp, text),
        rfc2822_canonical(wp),
        is_civil_of(
            days_of_secs(dt.local_secs()),
            crate::rfc2822::rfc2822_year(wp),
            wp.month,
            wp.day,
        ),
        wp.h == sod_of_secs(dt.local_secs()) / 3600,
        wp.mi == sod_of_secs(dt.local_secs()) % 3600 / 60,
        wp.sec == sod_of_secs(dt.local_secs()) % 60 + if dt.datetime.nsecs >= 1000000000 {
            1int
        } else {
            0int
        },
        rfc2822_off_secs(wp) == dt.offset.local_minus_utc,
        secs == rfc2822_secs(wp),
        nsecs == rfc2822_nsecs(wp),
        off == rfc2822_off_secs(wp),
    ensures
        secs == dt.datetime.secs,
        nsecs == dt.datetime.nsecs,
        off == dt.offset.local_minus_utc,
{
    let ell = dt.local_secs();
    lemma_local_recompose(ell);
    assert(days_of_secs(ell) * 86400 + wp.h * 3600 + wp.mi * 60 + sod_of_secs(ell) % 60
        == ell) by {
        lemma_sod_split(sod_of_secs(ell));
    }
}

/// A second count is its day times a day plus its second of the day.
proof fn lemma_local_recompose(ell: int)
    ensures
        ell == days_of_secs(ell) * 86400 + sod_of_secs(ell),
{
    vstd::arithmetic::div_mod::lemma_fundamental_div_mod(ell, 86400);
}

/// A second of the day splits into hours, minutes and seconds.
proof fn lemma_sod_split(sod: int)
    requires
        0 <= sod < 86400,
    ensures
        sod == sod / 3600 * 3600 + sod % 3600 / 60 * 60 + sod % 60,
{
    vstd::arithmetic::div_mod::lemma_fundamental_div_mod(sod, 3600);
    vstd::arithmetic::div_mod::lemma_mod_bound(sod, 3600);
    vstd::arithmetic::div_mod::lemma_fundamental_div_mod(sod % 3600, 60);
    vstd::arithmetic::div_mod::lemma_mod_bound(sod % 3600, 60);
    let q1 = sod / 3600;
    let r1 = sod % 3600;
    let q2 = r1 / 60;
    let r2 = r1 % 60;
    assert(sod == 60 * (60 * q1 + q2) + r2) by (nonlinear_arith)
        requires
            sod == 3600 * q1 + r1,
            r1 == 60 * q2 + r2,
    {}
    vstd::arithmetic::div_mod::lemma_fundamental_div_mod_converse(sod, 60, 60 * q1 + q2, r2);
}

} // verus!
