//! Local field access, field mutation, and zone resolution, including
//! the daylight-saving edge cases.

use zoned_time::datetime::DateTime;
use zoned_time::naive::Weekday;
use zoned_time::offset::{FixedOffset, LocalResult, TimeZone, TransitionZone, Utc};

#[test]
fn local_fields_utc() {
    // 2015-05-15T02:30:45Z
    let dt = DateTime::<Utc>::from_timestamp(1431657045, 7).unwrap();
    assert_eq!(dt.year(), 2015);
    assert_eq!(dt.month(), 5);
    assert_eq!(dt.month0(), 4);
    assert_eq!(dt.day(), 15);
    assert_eq!(dt.day0(), 14);
    assert_eq!(dt.ordinal(), 135);
    assert_eq!(dt.ordinal0(), 134);
    assert_eq!(dt.hour(), 2);
    assert_eq!(dt.minute(), 30);
    assert_eq!(dt.second(), 45);
    assert_eq!(dt.nanosecond(), 7);
    assert_eq!(dt.weekday(), Weekday::Fri);
    let w = dt.iso_week();
    assert_eq!(w.year(), 2015);
    assert_eq!(w.week(), 20);
}

#[test]
fn local_fields_follow_offset() {
    // 2015-05-15T00:30:00Z seen from +02:00 and from -01:00
    let utc = DateTime::<Utc>::from_timestamp(1431649800, 0).unwrap();
    let east = utc.with_timezone(&FixedOffset::east(7200).unwrap());
    assert_eq!(east.hour(), 2);
    assert_eq!(east.day(), 15);
    let west = utc.with_timezone(&FixedOffset::west(3600).unwrap());
    assert_eq!(west.hour(), 23);
    assert_eq!(west.day(), 14);
    assert_eq!(west.timestamp(), east.timestamp());
}

#[test]
fn date_naive_and_time() {
    let dt = DateTime::<Utc>::from_timestamp(1431657045, 0).unwrap();
    let d = dt.date_naive();
    assert_eq!(d.year(), 2015);
    assert_eq!(d.month(), 5);
    assert_eq!(d.day(), 15);
    assert_eq!(d.weekday(), Weekday::Fri);
    let t = dt.time();
    assert_eq!(t.hour(), 2);
    assert_eq!(t.minute(), 30);
    assert_eq!(t.second(), 45);
}

#[test]
fn setters_utc() {
    let dt = DateTime::<Utc>::from_timestamp(1431657045, 0).unwrap();
    assert_eq!(dt.with_year(2016).unwrap().year(), 2016);
    assert_eq!(dt.with_month(12).unwrap().month(), 12);
    assert_eq!(dt.with_month(13), None);
    assert_eq!(dt.with_day(31).unwrap().day(), 31);
    assert_eq!(dt.with_ordinal(1).unwrap().month(), 1);
    assert_eq!(dt.with_hour(23).unwrap().hour(), 23);
    assert_eq!(dt.with_hour(24), None);
    assert_eq!(dt.with_minute(59).unwrap().minute(), 59);
    assert_eq!(dt.with_second(0).unwrap().second(), 0);
    assert_eq!(dt.with_second(60), None);
    assert_eq!(dt.with_nanosecond(1_999_999_999).unwrap().nanosecond(), 1_999_999_999);
    assert_eq!(dt.with_nanosecond(2_000_000_000), None);
    // setting a field keeps the others
    let moved = dt.with_day(1).unwrap();
    assert_eq!(moved.hour(), 2);
    assert_eq!(moved.minute(), 30);
    assert_eq!(moved.year(), 2015);
}

#[test]
fn invalid_dates_rejected() {
    // 2015-02-27T00:00:00Z; January 31 cannot move to February
    let dt = DateTime::<Utc>::from_timestamp(1424995200, 0).unwrap();
    assert_eq!(dt.day(), 27);
    let jan31 = DateTime::<Utc>::from_timestamp(1422662400, 0).unwrap();
    assert_eq!(jan31.day(), 31);
    assert_eq!(jan31.with_month(2), None);
}

fn spring_forward_zone() -> TransitionZone {
    // shift becomes +01:00 at UTC second 864000 (ten days in)
    TransitionZone::new(0, vec![(864000, 3600)]).unwrap()
}

fn fall_back_zone() -> TransitionZone {
    // shift drops from +01:00 to zero at UTC second 864000
    TransitionZone::new(3600, vec![(864000, 0)]).unwrap()
}

#[test]
fn spring_forward_gap_rejected() {
    let zone = spring_forward_zone();
    // instant after the transition: local reading 871600 (02:06:40 on day ten)
    let dt = DateTime::from_naive_utc_and_offset(
        zoned_time::naive::NaiveDateTime { secs: 868000, nsecs: 0 },
        zone,
    );
    assert_eq!(dt.hour(), 2);
    // hour zero of that local day falls in the gap [864000, 867600)
    assert!(dt.with_hour(0).is_none());
    // an hour past the gap works
    let ok = dt.with_hour(3).unwrap();
    assert_eq!(ok.hour(), 3);
}

#[test]
fn fall_back_overlap_rejected() {
    let zone = fall_back_zone();
    // local readings in [864000, 867600) occur twice, earlier candidate
    // first
    let res = zone.resolve_local_secs(865000);
    match res {
        LocalResult::Ambiguous(a, b) => {
            assert_eq!(a.local_minus_utc(), 3600);
            assert_eq!(b.local_minus_utc(), 0);
        },
        _ => panic!("expected an ambiguous resolution"),
    }
    // a mutation that lands in the overlap reports failure
    let dt = DateTime::from_naive_utc_and_offset(
        zoned_time::naive::NaiveDateTime { secs: 870000, nsecs: 0 },
        zone,
    );
    assert_eq!(dt.hour(), 1);
    assert!(dt.with_hour(0).is_none());
    assert!(dt.with_hour(2).is_some());
}

#[test]
fn unique_resolution_round_trip() {
    let zone = spring_forward_zone();
    match zone.resolve_local_secs(100) {
        LocalResult::Single(o) => assert_eq!(o.local_minus_utc(), 0),
        _ => panic!("expected a single resolution"),
    }
    match zone.resolve_local_secs(900000) {
        LocalResult::Single(o) => assert_eq!(o.local_minus_utc(), 3600),
        _ => panic!("expected a single resolution"),
    }
}

#[test]
fn conversions_preserve_instant() {
    let dt = DateTime::<Utc>::from_timestamp(1431657045, 123).unwrap();
    let fixed = dt.fixed_offset();
    assert_eq!(fixed.offset().local_minus_utc(), 0);
    assert_eq!(fixed.timestamp(), dt.timestamp());
    let east = dt.with_timezone(&FixedOffset::east(3600).unwrap());
    let back = east.to_utc();
    assert_eq!(back.timestamp(), dt.timestamp());
    assert_eq!(back.timestamp_subsec_nanos(), dt.timestamp_subsec_nanos());
    let naive = dt.naive_utc();
    assert_eq!(naive.secs, 1431657045);
    let local = east.naive_local();
    assert_eq!(local.secs, 1431657045 + 3600);
}
