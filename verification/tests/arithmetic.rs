//! Duration and calendar arithmetic, ordering, and the leap-second
//! subtraction rule.

use zoned_time::datetime::{DateTime, Days, Months};
use zoned_time::delta::TimeDelta;
use zoned_time::offset::{FixedOffset, Utc};

#[test]
fn add_and_sub_duration() {
    let dt = DateTime::<Utc>::from_timestamp(1431648000, 0).unwrap();
    let later = dt.checked_add_signed(TimeDelta::seconds(3600)).unwrap();
    assert_eq!(later.timestamp(), 1431651600);
    let earlier = later.checked_sub_signed(TimeDelta::seconds(3600)).unwrap();
    assert_eq!(earlier.timestamp(), 1431648000);
    let with_nanos = dt.checked_add_signed(TimeDelta::nanoseconds(1_500_000_000)).unwrap();
    assert_eq!(with_nanos.timestamp(), 1431648001);
    assert_eq!(with_nanos.timestamp_subsec_nanos(), 500_000_000);
    // out of range
    let top = DateTime::<Utc>::from_timestamp(8210266876799, 0).unwrap();
    assert!(top.checked_add_signed(TimeDelta::seconds(1)).is_none());
    let demanded = dt.add_signed(TimeDelta::seconds(60));
    assert_eq!(demanded.timestamp(), 1431648060);
    let demanded2 = demanded.sub_signed(TimeDelta::seconds(60));
    assert_eq!(demanded2.timestamp(), 1431648000);
}

#[test]
fn month_clamp_leap_year() {
    // 2024-01-31 plus one calendar month is 2024-02-29
    let dt = DateTime::<Utc>::from_timestamp(1706659200, 0).unwrap();
    let next = dt.checked_add_months(Months(1)).unwrap();
    assert_eq!(next.timestamp(), 1709164800);
    assert_eq!(next.year(), 2024);
    assert_eq!(next.month(), 2);
    assert_eq!(next.day(), 29);
}

#[test]
fn month_clamp_common_year() {
    // 2023-01-31 plus one calendar month is 2023-02-28
    let dt = DateTime::<Utc>::from_timestamp(1675123200, 0).unwrap();
    let next = dt.checked_add_months(Months(1)).unwrap();
    assert_eq!(next.timestamp(), 1677542400);
    assert_eq!(next.month(), 2);
    assert_eq!(next.day(), 28);
    // and a month back from the clamped day stays on the 28th
    let back = next.checked_sub_months(Months(1)).unwrap();
    assert_eq!(back.month(), 1);
    assert_eq!(back.day(), 28);
    let demanded = dt.add_months(Months(1));
    assert_eq!(demanded.day(), 28);
    assert_eq!(demanded.sub_months(Months(1)).day(), 28);
}

#[test]
fn day_arithmetic() {
    let dt = DateTime::<Utc>::from_timestamp(1431657045, 0).unwrap();
    let next = dt.checked_add_days(Days(30)).unwrap();
    assert_eq!(next.timestamp(), 1431657045 + 30 * 86400);
    assert_eq!(next.hour(), dt.hour());
    let back = next.checked_sub_days(Days(30)).unwrap();
    assert_eq!(back.timestamp(), dt.timestamp());
    assert_eq!(dt.add_days(Days(1)).sub_days(Days(1)).timestamp(), dt.timestamp());
    assert!(dt.checked_add_days(Days(u64::MAX)).is_none());
}

#[test]
fn subtraction_is_instant_based() {
    let a = DateTime::<Utc>::from_timestamp(1431651600, 0).unwrap();
    let b = DateTime::<Utc>::from_timestamp(1431648000, 0).unwrap();
    let d = a.signed_duration_since(&b);
    assert_eq!(d.num_seconds(), 3600);
    assert_eq!(d.subsec_nanos(), 0);
    // the offsets play no part
    let a2 = DateTime::<Utc>::from_timestamp(1431651600, 0)
        .unwrap()
        .with_timezone(&FixedOffset::west(18000).unwrap());
    let d2 = a2.signed_duration_since(&b);
    assert_eq!(d2.num_seconds(), 3600);
}

#[test]
fn leap_second_subtraction_asymmetry() {
    // neither endpoint encodes a leap second: the real-world leap second
    // of 2015-06-30 does not appear in the difference
    let before = DateTime::<Utc>::from_timestamp(1435708700, 0).unwrap();
    let after = DateTime::<Utc>::from_timestamp(1435708900, 0).unwrap();
    assert_eq!(after.signed_duration_since(&before).num_seconds(), 200);
    // an endpoint that encodes the leap second occupies one extra second
    let leap = DateTime::<Utc>::from_timestamp(1435708799, 1_500_000_000).unwrap();
    let later = DateTime::<Utc>::from_timestamp(1435708799 + 3601, 0).unwrap();
    let d = later.signed_duration_since(&leap);
    assert_eq!(d.num_seconds(), 3600);
    assert_eq!(d.subsec_nanos(), 500_000_000);
}

#[test]
fn ordering_ignores_offsets() {
    // the same instants under different offsets order by instant alone
    let earlier = DateTime::<Utc>::from_timestamp(1431655200, 0)
        .unwrap()
        .with_timezone(&FixedOffset::west(3600).unwrap());
    let later = DateTime::<Utc>::from_timestamp(1431658800, 0)
        .unwrap()
        .with_timezone(&FixedOffset::west(18000).unwrap());
    assert!(later > earlier);
    assert!(earlier < later);
    assert!(later.lt_instant(&earlier) == false);
}

#[test]
fn equality_ignores_offsets() {
    let utc = DateTime::<Utc>::from_timestamp(1431655200, 0).unwrap();
    let zero = utc.with_timezone(&FixedOffset::east(0).unwrap());
    let shifted = utc.with_timezone(&FixedOffset::east(7200).unwrap());
    assert!(utc == zero);
    assert!(utc == shifted);
    assert!(utc.eq_instant(&shifted));
    // while their text differs
    assert_ne!(utc.to_utc().to_rfc3339(), shifted.to_rfc3339());
}

#[test]
fn years_since_counts_whole_years() {
    let base = DateTime::<Utc>::from_timestamp(1273968000, 0).unwrap();  // 2010-05-16
    let now = DateTime::<Utc>::from_timestamp(1589500800, 0).unwrap();  // 2020-05-15
    assert_eq!(now.years_since(base), Some(9));
    let base2 = DateTime::<Utc>::from_timestamp(1273968000, 0).unwrap();
    let anniversary = base2.checked_add_months(Months(120)).unwrap();
    assert_eq!(anniversary.years_since(DateTime::<Utc>::from_timestamp(1273968000, 0).unwrap()),
        Some(10));
    // a base in the future reports failure
    let early = DateTime::<Utc>::from_timestamp(0, 0).unwrap();
    assert_eq!(early.years_since(DateTime::<Utc>::from_timestamp(1273968000, 0).unwrap()), None);
}

#[test]
fn delta_accessors() {
    let d = TimeDelta::milliseconds(-1500);
    assert_eq!(d.num_seconds(), -1);
    assert_eq!(d.subsec_nanos(), -500_000_000);
    assert_eq!(d.num_nanoseconds(), Some(-1_500_000_000));
    let z = TimeDelta::zero();
    assert!(z.is_zero());
    assert!(!TimeDelta::nanoseconds(1).is_zero());
    assert!(TimeDelta::new(1, 2_000_000_000).is_none());
    let micro = TimeDelta::microseconds(5);
    assert_eq!(micro.num_nanoseconds(), Some(5000));
}
