//! The two internet timestamp grammars and the token-sequence format.

use zoned_time::datetime::DateTime;
use zoned_time::fmt_items::{Item, Numeric};
use zoned_time::offset::{FixedOffset, Utc};
use zoned_time::rfc3339::SecondsFormat;

#[test]
fn rfc3339_writes_the_standard_shape() {
    // 2014-07-24T12:34:06Z as seen from UTC
    let dt = DateTime::<Utc>::from_timestamp(1406205246, 0).unwrap();
    assert_eq!(dt.to_rfc3339(), "2014-07-24T12:34:06+00:00");
    assert_eq!(dt.to_rfc3339_opts(SecondsFormat::Secs, true), "2014-07-24T12:34:06Z");
    let east = dt.with_timezone(&FixedOffset::east(3660).unwrap());
    assert_eq!(east.to_rfc3339_opts(SecondsFormat::Secs, true), "2014-07-24T13:35:06+01:01");
    // an offset with stray seconds is rounded to the nearest minute
    let odd = dt.with_timezone(&FixedOffset::east(3650).unwrap());
    assert_eq!(odd.to_rfc3339_opts(SecondsFormat::Secs, true), "2014-07-24T13:34:56+01:01");
}

#[test]
fn rfc3339_subsecond_policies() {
    let dt = DateTime::<Utc>::from_timestamp(1516991409, 453_829_000).unwrap();
    assert_eq!(dt.to_rfc3339_opts(SecondsFormat::Millis, false), "2018-01-26T18:30:09.453+00:00");
    assert_eq!(dt.to_rfc3339_opts(SecondsFormat::Millis, true), "2018-01-26T18:30:09.453Z");
    assert_eq!(dt.to_rfc3339_opts(SecondsFormat::Secs, true), "2018-01-26T18:30:09Z");
    assert_eq!(dt.to_rfc3339_opts(SecondsFormat::Micros, true), "2018-01-26T18:30:09.453829Z");
    assert_eq!(dt.to_rfc3339_opts(SecondsFormat::Nanos, true), "2018-01-26T18:30:09.453829000Z");
    assert_eq!(dt.to_rfc3339_opts(SecondsFormat::AutoSi, true), "2018-01-26T18:30:09.453829Z");
}

#[test]
fn rfc3339_parse_and_round_trip() {
    let dt = DateTime::parse_from_rfc3339("2014-07-24T12:34:06Z").unwrap();
    assert_eq!(dt.timestamp(), 1406205246);
    assert_eq!(dt.offset().local_minus_utc(), 0);
    let shifted = DateTime::parse_from_rfc3339("2014-07-24T13:57:06+01:23").unwrap();
    assert_eq!(shifted.timestamp(), 1406205246);
    assert_eq!(shifted.offset().local_minus_utc(), 60 * 60 + 23 * 60);
    // lowercase and space variants
    assert_eq!(DateTime::parse_from_rfc3339("2014-07-24t12:34:06z").unwrap().timestamp(),
        1406205246);
    assert_eq!(DateTime::parse_from_rfc3339("2014-07-24 12:34:06Z").unwrap().timestamp(),
        1406205246);
    // fraction
    let frac = DateTime::parse_from_rfc3339("2014-07-24T12:34:06.25Z").unwrap();
    assert_eq!(frac.timestamp_subsec_nanos(), 250_000_000);
    // a full encode-decode round trip
    let original = DateTime::<Utc>::from_timestamp(419083754, 274_000_000)
        .unwrap()
        .with_timezone(&FixedOffset::west(8 * 3600).unwrap());
    let text = original.to_rfc3339();
    let back = DateTime::parse_from_rfc3339(&text).unwrap();
    assert_eq!(back.timestamp(), original.timestamp());
    assert_eq!(back.timestamp_subsec_nanos(), original.timestamp_subsec_nanos());
    assert_eq!(back.offset().local_minus_utc(), -8 * 3600);
}

#[test]
fn rfc3339_rejects_malformed_input() {
    // day 32 does not exist, for the fixed-offset and the UTC entry points
    assert!(DateTime::parse_from_rfc3339("2014-07-32T12:34:06Z").is_err());
    assert!(DateTime::<Utc>::parse_rfc3339_utc("2014-07-32T12:34:06Z").is_err());
    assert!(DateTime::parse_from_rfc3339("2014-13-01T00:00:00Z").is_err());
    assert!(DateTime::parse_from_rfc3339("2014-07-24T24:00:00Z").is_err());
    assert!(DateTime::parse_from_rfc3339("2014-07-24T12:34:06").is_err());
    assert!(DateTime::parse_from_rfc3339("2014-07-24T12:34:06Z extra").is_err());
    assert!(DateTime::parse_from_rfc3339("not a date").is_err());
    assert!(DateTime::parse_from_rfc3339("").is_err());
}

#[test]
fn rfc3339_leap_second() {
    let leap = DateTime::<Utc>::from_timestamp(1435708799, 1_500_000_000).unwrap();
    assert_eq!(leap.to_rfc3339_opts(SecondsFormat::Millis, true), "2015-06-30T23:59:60.500Z");
    let back = DateTime::parse_from_rfc3339("2015-06-30T23:59:60.500Z").unwrap();
    assert_eq!(back.timestamp(), 1435708799);
    assert_eq!(back.timestamp_subsec_nanos(), 1_500_000_000);
}

#[test]
fn rfc2822_writes_the_standard_shape() {
    // Tue, 1 Jul 2003 10:52:37 +0200
    let dt = DateTime::<Utc>::from_timestamp(1057049557, 0)
        .unwrap()
        .with_timezone(&FixedOffset::east(7200).unwrap());
    assert_eq!(dt.to_rfc2822(), "Tue, 1 Jul 2003 10:52:37 +0200");
    let utc = DateTime::<Utc>::from_timestamp(1424301369, 0).unwrap();
    assert_eq!(utc.to_rfc2822(), "Wed, 18 Feb 2015 23:16:09 +0000");
}

#[test]
fn rfc2822_parse_and_round_trip() {
    let dt = DateTime::parse_from_rfc2822("Wed, 18 Feb 2015 23:16:09 GMT").unwrap();
    assert_eq!(dt.timestamp(), 1424301369);
    assert_eq!(dt.offset().local_minus_utc(), 0);
    let text = dt.to_rfc2822();
    let back = DateTime::parse_from_rfc2822(&text).unwrap();
    assert_eq!(back.timestamp(), dt.timestamp());
    // numeric zones and missing day of week
    let num = DateTime::parse_from_rfc2822("18 Feb 2015 23:16:09 -0500").unwrap();
    assert_eq!(num.offset().local_minus_utc(), -5 * 3600);
    assert_eq!(num.timestamp(), 1424301369 + 5 * 3600);
    // seconds may be missing
    let nosec = DateTime::parse_from_rfc2822("Wed, 18 Feb 2015 23:16 +0000").unwrap();
    assert_eq!(nosec.timestamp(), 1424301369 - 9);
}

#[test]
fn rfc2822_two_digit_year_window() {
    // a two-digit year below fifty lands in the 2000s, from fifty on in
    // the 1900s
    let recent = DateTime::parse_from_rfc2822("18 Feb 15 23:16:09 GMT").unwrap();
    assert_eq!(recent.timestamp(), 1424301369);
    let old = DateTime::parse_from_rfc2822("18 Feb 55 23:16:09 GMT").unwrap();
    assert_eq!(old.timestamp(), -469154631);
}

#[test]
fn rfc2822_zone_designators() {
    // an unrecognized single letter reads as an unknown, zero offset
    let military = DateTime::parse_from_rfc2822("18 Feb 2015 23:16:09 J").unwrap();
    assert_eq!(military.offset().local_minus_utc(), 0);
    // the Zulu marker is a true zero
    let zulu = DateTime::parse_from_rfc2822("18 Feb 2015 23:16:09 Z").unwrap();
    assert_eq!(zulu.offset().local_minus_utc(), 0);
    // the North American names carry their standard shifts
    let est = DateTime::parse_from_rfc2822("18 Feb 2015 23:16:09 EST").unwrap();
    assert_eq!(est.offset().local_minus_utc(), -5 * 3600);
    let pdt = DateTime::parse_from_rfc2822("18 Feb 2015 23:16:09 PDT").unwrap();
    assert_eq!(pdt.offset().local_minus_utc(), -7 * 3600);
    // an unrecognized multi-letter designator also reads as zero
    let unknown = DateTime::parse_from_rfc2822("18 Feb 2015 23:16:09 XXX").unwrap();
    assert_eq!(unknown.offset().local_minus_utc(), 0);
}

#[test]
fn rfc2822_folding_whitespace_and_comments() {
    // doubled spaces and tabs between tokens are folded away
    let spaced = DateTime::parse_from_rfc2822("Wed,  18  Feb	2015  23:16:09  GMT").unwrap();
    assert_eq!(spaced.timestamp(), 1424301369);
    // embedded comments read as separators, nesting included
    let commented =
        DateTime::parse_from_rfc2822("Wed, 18 Feb 2015 (a (nested) comment) 23:16:09 GMT")
        .unwrap();
    assert_eq!(commented.timestamp(), 1424301369);
    // a trailing comment is tolerated too
    let trailing = DateTime::parse_from_rfc2822("18 Feb 2015 23:16:09 -0500 (EST)").unwrap();
    assert_eq!(trailing.offset().local_minus_utc(), -5 * 3600);
    // leading whitespace as well
    let leading = DateTime::parse_from_rfc2822("  Wed, 18 Feb 2015 23:16:09 GMT").unwrap();
    assert_eq!(leading.timestamp(), 1424301369);
}

#[test]
fn rfc2822_rejects_malformed_input() {
    assert!(DateTime::parse_from_rfc2822("Wed, 32 Feb 2015 23:16:09 GMT").is_err());
    assert!(DateTime::parse_from_rfc2822("Xyz, 18 Feb 2015 23:16:09 GMT").is_err());
    // a day of week that contradicts the date is impossible
    assert!(DateTime::parse_from_rfc2822("Mon, 18 Feb 2015 23:16:09 GMT").is_err());
    assert!(DateTime::parse_from_rfc2822("18 Xxx 2015 23:16:09 GMT").is_err());
    assert!(DateTime::parse_from_rfc2822("").is_err());
}

fn iso_like_items() -> Vec<Item> {
    vec![
        Item::Numeric(Numeric::Year),
        Item::Literal('-'),
        Item::Numeric(Numeric::Month),
        Item::Literal('-'),
        Item::Numeric(Numeric::Day),
        Item::Space,
        Item::Numeric(Numeric::Hour),
        Item::Literal(':'),
        Item::Numeric(Numeric::Minute),
        Item::Literal(':'),
        Item::Numeric(Numeric::Second),
        Item::Space,
        Item::OffsetColon,
    ]
}

#[test]
fn custom_format_round_trip() {
    let items = iso_like_items();
    let dt = DateTime::<Utc>::from_timestamp(1424301369, 0)
        .unwrap()
        .with_timezone(&FixedOffset::east(7200).unwrap());
    let text = dt.format_with_items(&items);
    assert_eq!(text, "2015-02-19 01:16:09 +02:00");
    assert_eq!(dt.format(&items), text);
    let back = DateTime::parse_from_str(&text, &items).unwrap();
    assert_eq!(back.timestamp(), dt.timestamp());
    assert_eq!(back.offset().local_minus_utc(), 7200);
}

#[test]
fn custom_format_requires_the_offset() {
    let mut items = iso_like_items();
    items.pop();  // drop the offset token
    items.pop();  // and the space before it
    assert!(DateTime::parse_from_str("2015-02-19 01:16:09", &items).is_err());
}

#[test]
fn custom_format_trailing_input() {
    let items = iso_like_items();
    // the full-parse entry point rejects trailing input
    assert!(DateTime::parse_from_str("2015-02-19 01:16:09 +02:00 tail", &items).is_err());
    // the sibling returns it instead
    let (dt, rest) = DateTime::parse_and_remainder("2015-02-19 01:16:09 +02:00 tail", &items)
        .unwrap();
    assert_eq!(dt.timestamp(), 1424301369);
    assert_eq!(rest, " tail");
}

#[test]
fn custom_format_conflicting_fields() {
    let items = vec![
        Item::Numeric(Numeric::Year),
        Item::Literal('/'),
        Item::Numeric(Numeric::Year),
        Item::Space,
        Item::Numeric(Numeric::Month),
        Item::Numeric(Numeric::Day),
        Item::Numeric(Numeric::Hour),
        Item::Numeric(Numeric::Minute),
        Item::Space,
        Item::OffsetColon,
    ];
    // the same field twice with equal text is consistent
    assert!(DateTime::parse_from_str("2015/2015 02190116 +00:00", &items).is_ok());
    // with different text it is impossible
    assert!(DateTime::parse_from_str("2015/2016 02190116 +00:00", &items).is_err());
}
