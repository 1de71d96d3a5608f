//! Epoch-unit constructors and accessors, and the nanosecond range
//! boundary.

use zoned_time::datetime::DateTime;
use zoned_time::offset::Utc;

#[test]
fn timestamp_round_trip() {
    let dt = DateTime::<Utc>::from_timestamp(1431648000, 0).unwrap();
    assert_eq!(dt.timestamp(), 1431648000);
    assert_eq!(dt.timestamp_subsec_nanos(), 0);
    let again = DateTime::<Utc>::from_timestamp(dt.timestamp(), dt.timestamp_subsec_nanos())
        .unwrap();
    assert!(dt.eq_instant(&again));
}

#[test]
fn timestamp_millis_round_trip() {
    let dt = DateTime::<Utc>::from_timestamp_millis(947638923004).unwrap();
    assert_eq!(dt.timestamp_millis(), 947638923004);
    let again = DateTime::<Utc>::from_timestamp_millis(dt.timestamp_millis()).unwrap();
    assert!(dt.eq_instant(&again));
    let neg = DateTime::<Utc>::from_timestamp_millis(-1).unwrap();
    assert_eq!(neg.timestamp(), -1);
    assert_eq!(neg.timestamp_subsec_millis(), 999);
    assert_eq!(neg.timestamp_millis(), -1);
}

#[test]
fn timestamp_micros() {
    let dt = DateTime::<Utc>::from_timestamp(1, 444).unwrap();
    assert_eq!(dt.timestamp_micros(), 1_000_000);
    let dt = DateTime::<Utc>::from_timestamp(1_000_000_000, 555_000).unwrap();
    assert_eq!(dt.timestamp_micros(), 1_000_000_000_000_555);
}

#[test]
fn nanos_range_boundary() {
    // the lowest instant with a nanosecond count: 1677-09-21T00:12:43.145224192Z
    let low = DateTime::<Utc>::from_timestamp(-9223372037, 145224192).unwrap();
    assert_eq!(low.timestamp_nanos(), Some(i64::MIN));
    let below = DateTime::<Utc>::from_timestamp(-9223372037, 145224191).unwrap();
    assert_eq!(below.timestamp_nanos(), None);
    // the highest: 2262-04-11T23:47:16.854775807Z
    let high = DateTime::<Utc>::from_timestamp(9223372036, 854775807).unwrap();
    assert_eq!(high.timestamp_nanos(), Some(i64::MAX));
    let above = DateTime::<Utc>::from_timestamp(9223372036, 854775808).unwrap();
    assert_eq!(above.timestamp_nanos(), None);
}

#[test]
fn leap_second_encoding_rules() {
    // a nanosecond count above one second is only valid on second 59
    assert!(DateTime::<Utc>::from_timestamp(1435708799, 1_500_000_000).is_some());
    assert!(DateTime::<Utc>::from_timestamp(1435708798, 1_500_000_000).is_none());
    assert!(DateTime::<Utc>::from_timestamp(0, 2_000_000_000).is_none());
}

#[test]
fn out_of_range_seconds() {
    assert!(DateTime::<Utc>::from_timestamp(8210266876799, 0).is_some());
    assert!(DateTime::<Utc>::from_timestamp(8210266876800, 0).is_none());
    assert!(DateTime::<Utc>::from_timestamp(-8334601228800, 0).is_some());
    assert!(DateTime::<Utc>::from_timestamp(-8334601228801, 0).is_none());
}

#[test]
fn platform_parts_both_sides() {
    let after = DateTime::<Utc>::from_platform_parts(false, 10, 500_000_000).unwrap();
    assert_eq!(after.timestamp(), 10);
    assert_eq!(after.timestamp_subsec_nanos(), 500_000_000);
    let before = DateTime::<Utc>::from_platform_parts(true, 10, 500_000_000).unwrap();
    assert_eq!(before.timestamp(), -11);
    assert_eq!(before.timestamp_subsec_nanos(), 500_000_000);
    let (neg, secs, nanos) = before.to_platform_parts();
    assert!(neg);
    assert_eq!(secs, 10);
    assert_eq!(nanos, 500_000_000);
    let (neg2, secs2, nanos2) = after.to_platform_parts();
    assert!(!neg2);
    assert_eq!(secs2, 10);
    assert_eq!(nanos2, 500_000_000);
    assert!(DateTime::<Utc>::from_platform_parts(true, u64::MAX, 1).is_none());
}

#[test]
fn unix_epoch_default() {
    let e = DateTime::<Utc>::unix_epoch();
    assert_eq!(e.timestamp(), 0);
    let d: DateTime<Utc> = Default::default();
    assert!(e.eq_instant(&d));
}
