//! The message-timestamp grammar: reading and writing
//! `Tue, 1 Jul 2003 10:52:37 +0200`.
//!
//! The grammar keeps the standard's historical leniencies: the day of
//! week is optional, the day may have one or two digits, a two-digit
//! year maps into 1950-2049 and a three-digit year into the 1900s, the
//! seconds are optional, and the zone may be alphabetic, in which case
//! every designator other than a handful of North American names and the
//! Zulu marker means an unknown offset and reads as zero.

use vstd::prelude::*;
use crate::calendar::{
    days_from_ymd, days_in_month, days_in_month_x, lemma_civil_within_year,
    lemma_days_before_year_mono, ymd_to_days, MAX_SECS, MIN_SECS,
};
use crate::datetime::DateTime;
use crate::naive::{weekday_of_days, NaiveDateTime};
use crate::offset::{FixedOffset, TimeZone, Utc};
use crate::text::{
    count_digits, fixed_digits, is_digit, is_digit_char, lemma_fixed_digits_chars,
    lemma_fixed_digits_injective, lemma_fixed_digits_len, lemma_pow10_bound, pow10, pow10_x,
    push_digits, read_digits, str_to_chars, ParseError,
};

verus! {

/// The zone designator of a message timestamp.
pub enum Zone2822 {
    /// A signed four-digit numeric offset.
    Num { neg: bool, oh: int, om: int },
    /// An alphabetic designator.
    Alpha { name: Seq<char> },
}

/// The lexical choices of one message timestamp.
pub struct Rfc2822Parts {
    pub dow_present: bool,
    pub dow: int,
    pub dd2: bool,
    pub day: int,
    pub month: int,
    pub yd: nat,
    pub ytext: int,
    pub h: int,
    pub mi: int,
    pub sec_present: bool,
    pub sec: int,
    pub zone: Zone2822,
}

pub open spec fn weekday_name(w: int) -> Seq<char> {
    if w == 0 {
        seq!['M', 'o', 'n']
    } else if w == 1 {
        seq!['T', 'u', 'e']
    } else if w == 2 {
        seq!['W', 'e', 'd']
    } else if w == 3 {
        seq!['T', 'h', 'u']
    } else if w == 4 {
        seq!['F', 'r', 'i']
    } else if w == 5 {
        seq!['S', 'a', 't']
    } else {
        seq!['S', 'u', 'n']
    }
}

pub open spec fn month_name(m: int) -> Seq<char> {
    if m == 1 {
        seq!['J', 'a', 'n']
    } else if m == 2 {
        seq!['F', 'e', 'b']
    } else if m == 3 {
        seq!['M', 'a', 'r']
    } else if m == 4 {
        seq!['A', 'p', 'r']
    } else if m == 5 {
        seq!['M', 'a', 'y']
    } else if m == 6 {
        seq!['J', 'u', 'n']
    } else if m == 7 {
        seq!['J', 'u', 'l']
    } else if m == 8 {
        seq!['A', 'u', 'g']
    } else if m == 9 {
        seq!['S', 'e', 'p']
    } else if m == 10 {
        seq!['O', 'c', 't']
    } else if m == 11 {
        seq!['N', 'o', 'v']
    } else {
        seq!['D', 'e', 'c']
    }
}

pub open spec fn is_alpha_char(c: char) -> bool {
    ('A' <= c && c <= 'Z') || ('a' <= c && c <= 'z')
}

/// The shift denoted by an alphabetic zone designator.  The Zulu marker
/// and the legacy universal-time names mean zero; the North American
/// names mean their standard offsets; every other designator (military
/// single letters among them) means an unknown offset, read as zero.
pub open spec fn zone_alpha_offset(name: Seq<char>) -> int {
    if name == seq!['U', 'T'] || name == seq!['G', 'M', 'T'] || name == seq!['Z'] {
        0
    } else if name == seq!['E', 'S', 'T'] {
        -18000
    } else if name == seq!['E', 'D', 'T'] {
        -14400
    } else if name == seq!['C', 'S', 'T'] {
        -21600
    } else if name == seq!['C', 'D', 'T'] {
        -18000
    } else if name == seq!['M', 'S', 'T'] {
        -25200
    } else if name == seq!['M', 'D', 'T'] {
        -21600
    } else if name == seq!['P', 'S', 'T'] {
        -28800
    } else if name == seq!['P', 'D', 'T'] {
        -25200
    } else {
        0
    }
}

/// The year denoted by a 2-, 3- or 4-digit year text: two digits below
/// 50 mean the 2000s and from 50 on the 1900s; three digits count from
/// 1900; four digits stand alone.
pub open spec fn windowed_year(yd: nat, ytext: int) -> int {
    if yd == 2 {
        if ytext < 50 {
            2000 + ytext
        } else {
            1900 + ytext
        }
    } else if yd == 3 {
        1900 + ytext
    } else {
        ytext
    }
}

pub open spec fn rfc2822_year(p: Rfc2822Parts) -> int {
    windowed_year(p.yd, p.ytext)
}

/// The choices a valid message timestamp can be made of.
pub open spec fn rfc2822_parts_wf(p: Rfc2822Parts) -> bool {
    &&& 0 <= p.dow < 7
    &&& 1 <= p.month <= 12
    &&& 1 <= p.day <= days_in_month(rfc2822_year(p), p.month)
    &&& (!p.dd2 ==> p.day < 10)
    &&& 2 <= p.yd <= 4
    &&& 0 <= p.ytext < pow10(p.yd)
    &&& 0 <= rfc2822_year(p) <= 9999
    &&& 0 <= p.h <= 23
    &&& 0 <= p.mi <= 59
    &&& 0 <= p.sec <= 60
    &&& (!p.sec_present ==> p.sec == 0)
    &&& (p.dow_present ==> p.dow == weekday_of_days(
        days_from_ymd(rfc2822_year(p), p.month, p.day),
    ))
    &&& rfc2822_zone_wf(p.zone)
}

pub open spec fn rfc2822_zone_text(p: Rfc2822Parts) -> Seq<char> {
    match p.zone {
        Zone2822::Num { neg, oh, om } => seq![
            if neg {
                '-'
            } else {
                '+'
            },
        ] + fixed_digits(oh, 2) + fixed_digits(om, 2),
        Zone2822::Alpha { name } => name,
    }
}

/// The exact text of the timestamp, with single spaces between tokens.
pub open spec fn rfc2822_render(p: Rfc2822Parts) -> Seq<char> {
    (if p.dow_present {
        weekday_name(p.dow) + seq![',', ' ']
    } else {
        Seq::empty()
    }) + fixed_digits(
        p.day,
        if p.dd2 {
            2nat
        } else {
            1nat
        },
    ) + seq![' '] + month_name(p.month) + seq![' '] + fixed_digits(p.ytext, p.yd) + seq![' ']
        + fixed_digits(p.h, 2) + seq![':'] + fixed_digits(p.mi, 2) + (if p.sec_present {
        seq![':'] + fixed_digits(p.sec, 2)
    } else {
        Seq::empty()
    }) + seq![' '] + rfc2822_zone_text(p)
}

/// The shift a zone designator denotes.
pub open spec fn zone_off_secs(z: Zone2822) -> int {
    match z {
        Zone2822::Num { neg, oh, om } => if neg {
            -(oh * 3600 + om * 60)
        } else {
            oh * 3600 + om * 60
        },
        Zone2822::Alpha { name } => zone_alpha_offset(name),
    }
}

/// Validity of a zone designator.
pub open spec fn rfc2822_zone_wf(z: Zone2822) -> bool {
    match z {
        Zone2822::Num { neg, oh, om } => 0 <= oh <= 23 && 0 <= om <= 59,
        Zone2822::Alpha { name } => 1 <= name.len() <= 10 && forall|i: int|
            0 <= i < name.len() ==> is_alpha_char(#[trigger] name[i]),
    }
}

/// The zone designator `z` is written at position `a` and reaches the
/// end of the text.
pub open spec fn rfc2822_zone_at(t: Seq<char>, a: int, z: Zone2822) -> bool {
    match z {
        Zone2822::Num { neg, oh, om } => {
            &&& a + 5 == t.len()
            &&& t[a] == if neg {
                '-'
            } else {
                '+'
            }
            &&& t.subrange(a + 1, a + 3) == fixed_digits(oh, 2)
            &&& t.subrange(a + 3, a + 5) == fixed_digits(om, 2)
        },
        Zone2822::Alpha { name } => a + name.len() == t.len() && t.subrange(a, t.len() as int)
            == name,
    }
}

pub open spec fn rfc2822_off_secs(p: Rfc2822Parts) -> int {
    zone_off_secs(p.zone)
}

/// The instant's second count.
pub open spec fn rfc2822_secs(p: Rfc2822Parts) -> int {
    days_from_ymd(rfc2822_year(p), p.month, p.day) * 86400 + p.h * 3600 + p.mi * 60 + (if p.sec
        == 60 {
        59int
    } else {
        p.sec
    }) - rfc2822_off_secs(p)
}

/// The instant's nanosecond field; a leap second adds a whole second.
pub open spec fn rfc2822_nsecs(p: Rfc2822Parts) -> int {
    if p.sec == 60 {
        1000000000int
    } else {
        0int
    }
}

/// `p` is a valid bundle whose rendering is exactly `t`.
pub open spec fn rfc2822_match(p: Rfc2822Parts, t: Seq<char>) -> bool {
    rfc2822_parts_wf(p) && t == rfc2822_render(p)
}

/// The canonical shape, which the writer emits: day of week present,
/// day padded only when two digits are needed, four-digit year, seconds
/// present, numeric zone.
pub open spec fn rfc2822_canonical(p: Rfc2822Parts) -> bool {
    &&& p.dow_present
    &&& p.dd2 == (p.day >= 10)
    &&& p.yd == 4
    &&& p.sec_present
    &&& p.zone is Num
}

/// The instant of a valid timestamp is always representable.
pub proof fn lemma_rfc2822_secs_range(p: Rfc2822Parts)
    requires
        rfc2822_parts_wf(p),
    ensures
        MIN_SECS + 86400 <= rfc2822_secs(p) <= MAX_SECS - 86400,
        0 <= rfc2822_nsecs(p) < 2000000000,
{
    lemma_civil_within_year(rfc2822_year(p), p.month, p.day);
    lemma_days_before_year_mono(0, rfc2822_year(p));
    lemma_days_before_year_mono(rfc2822_year(p) + 1, 10000);
    assert(crate::calendar::days_before_year(0) == 0);
    assert(crate::calendar::days_before_year(10000) == 3652425);
}


/// Day-digit width of a bundle.
pub open spec fn rfc2822_dw(p: Rfc2822Parts) -> int {
    if p.dd2 {
        2
    } else {
        1
    }
}

/// Start of the day digits.
pub open spec fn rfc2822_pos_day(p: Rfc2822Parts) -> int {
    if p.dow_present {
        5
    } else {
        0
    }
}

/// Start of the month name.
pub open spec fn rfc2822_pos_month(p: Rfc2822Parts) -> int {
    rfc2822_pos_day(p) + rfc2822_dw(p) + 1
}

/// Start of the year digits.
pub open spec fn rfc2822_pos_year(p: Rfc2822Parts) -> int {
    rfc2822_pos_month(p) + 4
}

/// Start of the hour digits.
pub open spec fn rfc2822_pos_hour(p: Rfc2822Parts) -> int {
    rfc2822_pos_year(p) + p.yd + 1
}

/// Start of the zone designator.
pub open spec fn rfc2822_pos_zone(p: Rfc2822Parts) -> int {
    rfc2822_pos_hour(p) + 5 + (if p.sec_present {
        3int
    } else {
        0int
    }) + 1
}

/// Length of the zone designator's text.
pub open spec fn rfc2822_zone_len(p: Rfc2822Parts) -> int {
    match p.zone {
        Zone2822::Num { neg, oh, om } => 5,
        Zone2822::Alpha { name } => name.len() as int,
    }
}

/// Length of the whole rendering.
pub open spec fn rfc2822_len(p: Rfc2822Parts) -> int {
    rfc2822_pos_zone(p) + rfc2822_zone_len(p)
}

/// Where every piece of a rendered timestamp lies, for every shape the
/// grammar generates.
#[verifier::spinoff_prover]
#[verifier::rlimit(100)]
pub proof fn lemma_rfc2822_layout(p: Rfc2822Parts)
    requires
        rfc2822_parts_wf(p),
    ensures
        ({
            let s = rfc2822_render(p);
            let dw = rfc2822_dw(p);
            let pd = rfc2822_pos_day(p);
            let pm = rfc2822_pos_month(p);
            let py = rfc2822_pos_year(p);
            let ph = rfc2822_pos_hour(p);
            let pz = rfc2822_pos_zone(p);
            &&& s.len() == rfc2822_len(p)
            &&& (p.dow_present ==> s.subrange(0, 3) == weekday_name(p.dow) && s[3] == ',' && s[4]
                == ' ')
            &&& s.subrange(pd, pd + dw) == fixed_digits(
                p.day,
                if p.dd2 {
                    2nat
                } else {
                    1nat
                },
            )
            &&& s[pd + dw] == ' '
            &&& s.subrange(pm, pm + 3) == month_name(p.month)
            &&& s[pm + 3] == ' '
            &&& s.subrange(py, py + p.yd as int) == fixed_digits(p.ytext, p.yd)
            &&& s[py + p.yd as int] == ' '
            &&& s.subrange(ph, ph + 2) == fixed_digits(p.h, 2)
            &&& s[ph + 2] == ':'
            &&& s.subrange(ph + 3, ph + 5) == fixed_digits(p.mi, 2)
            &&& (p.sec_present ==> s[ph + 5] == ':' && s.subrange(ph + 6, ph + 8) == fixed_digits(
                p.sec,
                2,
            ))
            &&& s[pz - 1] == ' '
            &&& match p.zone {
                Zone2822::Num { neg, oh, om } => s[pz] == (if neg {
                    '-'
                } else {
                    '+'
                }) && s.subrange(pz + 1, pz + 3) == fixed_digits(oh, 2) && s.subrange(
                    pz + 3,
                    pz + 5,
                ) == fixed_digits(om, 2),
                Zone2822::Alpha { name } => s.subrange(pz, s.len() as int) == name,
            }
        }),
{
    lemma_fixed_digits_len(
        p.day,
        if p.dd2 {
            2nat
        } else {
            1nat
        },
    );
    lemma_fixed_digits_len(p.ytext, p.yd);
    lemma_fixed_digits_len(p.h, 2);
    lemma_fixed_digits_len(p.mi, 2);
    lemma_fixed_digits_len(p.sec, 2);
    let s = rfc2822_render(p);
    let dw = rfc2822_dw(p);
    let pd = rfc2822_pos_day(p);
    let pm = rfc2822_pos_month(p);
    let py = rfc2822_pos_year(p);
    let ph = rfc2822_pos_hour(p);
    let pz = rfc2822_pos_zone(p);
    match p.zone {
        Zone2822::Num { neg, oh, om } => {
            lemma_fixed_digits_len(oh, 2);
            lemma_fixed_digits_len(om, 2);
        },
        Zone2822::Alpha { name } => {
        },
    }
    if p.dow_present {
        assert(s.subrange(0, 3) =~= weekday_name(p.dow));
    }
    assert(s.subrange(pd, pd + dw) =~= fixed_digits(
        p.day,
        if p.dd2 {
            2nat
        } else {
            1nat
        },
    ));
    assert(s.subrange(pm, pm + 3) =~= month_name(p.month));
    assert(s.subrange(py, py + p.yd as int) =~= fixed_digits(p.ytext, p.yd));
    assert(s.subrange(ph, ph + 2) =~= fixed_digits(p.h, 2));
    assert(s.subrange(ph + 3, ph + 5) =~= fixed_digits(p.mi, 2));
    if p.sec_present {
        assert(s.subrange(ph + 6, ph + 8) =~= fixed_digits(p.sec, 2));
    }
    match p.zone {
        Zone2822::Num { neg, oh, om } => {
            assert(s.subrange(pz + 1, pz + 3) =~= fixed_digits(oh, 2));
            assert(s.subrange(pz + 3, pz + 5) =~= fixed_digits(om, 2));
        },
        Zone2822::Alpha { name } => {
            assert(s.subrange(pz, s.len() as int) =~= name);
        },
    }
}

/// Append a weekday name to a string.
fn push_weekday(out: &mut String, w: u32)
    requires
        w < 7,
    ensures
        final(out)@ == old(out)@ + weekday_name(w as int),
{
    let s: &str = if w == 0 {
        "Mon"
    } else if w == 1 {
        "Tue"
    } else if w == 2 {
        "Wed"
    } else if w == 3 {
        "Thu"
    } else if w == 4 {
        "Fri"
    } else if w == 5 {
        "Sat"
    } else {
        "Sun"
    };
    proof {
        reveal_strlit("Mon");
        reveal_strlit("Tue");
        reveal_strlit("Wed");
        reveal_strlit("Thu");
        reveal_strlit("Fri");
        reveal_strlit("Sat");
        reveal_strlit("Sun");
        assert(s@ =~= weekday_name(w as int));
    }
    out.append(s);
}

/// Append a month name to a string.
fn push_month(out: &mut String, m: u8)
    requires
        1 <= m <= 12,
    ensures
        final(out)@ == old(out)@ + month_name(m as int),
{
    let s: &str = if m == 1 {
        "Jan"
    } else if m == 2 {
        "Feb"
    } else if m == 3 {
        "Mar"
    } else if m == 4 {
        "Apr"
    } else if m == 5 {
        "May"
    } else if m == 6 {
        "Jun"
    } else if m == 7 {
        "Jul"
    } else if m == 8 {
        "Aug"
    } else if m == 9 {
        "Sep"
    } else if m == 10 {
        "Oct"
    } else if m == 11 {
        "Nov"
    } else {
        "Dec"
    };
    proof {
        reveal_strlit("Jan");
        reveal_strlit("Feb");
        reveal_strlit("Mar");
        reveal_strlit("Apr");
        reveal_strlit("May");
        reveal_strlit("Jun");
        reveal_strlit("Jul");
        reveal_strlit("Aug");
        reveal_strlit("Sep");
        reveal_strlit("Oct");
        reveal_strlit("Nov");
        reveal_strlit("Dec");
        assert(s@ =~= month_name(m as int));
    }
    out.append(s);
}

impl<Tz: TimeZone> DateTime<Tz> {
    /// The message-timestamp text of this instant, such as
    /// `Tue, 1 Jul 2003 10:52:37 +0200`: the canonical shape with the
    /// local weekday, an unpadded day, a four-digit year, seconds, and
    /// the shift rounded to whole minutes as a numeric zone.  The local
    /// year must have at most four digits and must not be negative.
    #[verifier::spinoff_prover]
    #[verifier::rlimit(100)]
    pub fn to_rfc2822(&self) -> (r: String)
        requires
            self.wf(),
            forall|y: int, m: int, d: int|
                crate::calendar::is_civil_of(
                    crate::naive::days_of_secs(self.local_secs()),
                    y,
                    m,
                    d,
                ) ==> 0 <= y <= 9999,
            -86369 <= self.offset.spec_shift(self.datetime.secs as int) <= 86369,
        ensures
            exists|p: Rfc2822Parts|
                {
                    let shift = self.offset.spec_shift(self.datetime.secs as int);
                    let ell = self.local_secs();
                    &&& #[trigger] rfc2822_match(p, r@)
                    &&& rfc2822_canonical(p)
                    &&& crate::calendar::is_civil_of(
                        crate::naive::days_of_secs(ell),
                        rfc2822_year(p),
                        p.month,
                        p.day,
                    )
                    &&& p.h == crate::naive::sod_of_secs(ell) / 3600
                    &&& p.mi == crate::naive::sod_of_secs(ell) % 3600 / 60
                    &&& p.sec == crate::naive::sod_of_secs(ell) % 60 + if self.datetime.nsecs
                        >= 1000000000 {
                        1int
                    } else {
                        0int
                    }
                    &&& rfc2822_off_secs(p) == crate::rfc3339::round_to_minute(shift)
                    &&& (p.zone matches Zone2822::Num { neg, oh, om } && neg == (shift < 0))
                },
    {
        let local = self.overflowing_naive_local();
        let (cy, cm, cd) = local.civil();
        let days = crate::calendar::div_floor(local.secs, crate::naive::SECS_PER_DAY);
        let sod = crate::calendar::rem_floor(local.secs, crate::naive::SECS_PER_DAY);
        let (h, mi, se) = crate::naive::split_sod(sod as u32);
        let leap = local.nsecs >= 1000000000;
        let sec = if leap {
            se + 1
        } else {
            se
        };
        let wd = crate::calendar::rem_floor(days + 3, 7);
        let off = self.offset.offset_at(&self.datetime);
        let shift = off.local_minus_utc;
        let a: u32 = if shift < 0 {
            (-shift) as u32
        } else {
            shift as u32
        };
        let tm = (a + 30) / 60;
        let oh = tm / 60;
        let om = tm % 60;
        let neg = shift < 0;
        proof {
            reveal_with_fuel(pow10, 11);
            vstd::arithmetic::div_mod::lemma_fundamental_div_mod((a + 30) as int, 60);
            vstd::arithmetic::div_mod::lemma_fundamental_div_mod(tm as int, 60);
            vstd::arithmetic::div_mod::lemma_mod_bound(tm as int, 60);
            vstd::arithmetic::div_mod::lemma_fundamental_div_mod(local.secs as int, 86400);
            reveal_strlit(", ");
            reveal_strlit(" ");
            reveal_strlit(":");
            reveal_strlit("-");
            reveal_strlit("+");
        }
        let mut out = String::new();
        push_weekday(&mut out, wd as u32);
        out.append(", ");
        if cd >= 10 {
            push_digits(&mut out, cd as u32, 2);
        } else {
            push_digits(&mut out, cd as u32, 1);
        }
        out.append(" ");
        push_month(&mut out, cm);
        out.append(" ");
        push_digits(&mut out, cy as u32, 4);
        out.append(" ");
        push_digits(&mut out, h, 2);
        out.append(":");
        push_digits(&mut out, mi, 2);
        out.append(":");
        push_digits(&mut out, sec, 2);
        out.append(" ");
        if neg {
            out.append("-");
        } else {
            out.append("+");
        }
        push_digits(&mut out, oh, 2);
        push_digits(&mut out, om, 2);
        proof {
            let ghost p = Rfc2822Parts {
                dow_present: true,
                dow: wd as int,
                dd2: (cd >= 10),
                day: cd as int,
                month: cm as int,
                yd: 4nat,
                ytext: cy as int,
                h: h as int,
                mi: mi as int,
                sec_present: true,
                sec: sec as int,
                zone: Zone2822::Num { neg: neg, oh: oh as int, om: om as int },
            };
            assert(", "@ =~= seq![',', ' ']);
            assert(" "@ =~= seq![' ']);
            assert(":"@ =~= seq![':']);
            assert("-"@ =~= seq!['-']);
            assert("+"@ =~= seq!['+']);
            assert(rfc2822_parts_wf(p));
            assert(out@ =~= rfc2822_render(p));
            assert(rfc2822_off_secs(p) == crate::rfc3339::round_to_minute(shift as int)) by {
                assert(oh * 3600 + om * 60 == tm * 60);
            }
            assert(rfc2822_match(p, out@));
        }
        out
    }
}


/// Match three characters against the weekday names.
fn weekday_from_chars(s: &Vec<char>, pos: usize) -> (r: Option<u32>)
    requires
        pos + 3 <= s@.len(),
    ensures
        match r {
            Some(w) => w < 7 && s@.subrange(pos as int, pos + 3) == weekday_name(w as int),
            None => forall|w: int| 0 <= w < 7 ==> s@.subrange(pos as int, pos + 3) != weekday_name(w),
        },
{
    let n = s.len();
    proof {
        assert(pos + 3 <= n);
    }
    let c0 = s[pos];
    let c1 = s[pos + 1];
    let c2 = s[pos + 2];
    proof {
        assert(s@.subrange(pos as int, pos + 3) =~= seq![c0, c1, c2]);
    }
    let r: Option<u32> = if c0 == 'M' && c1 == 'o' && c2 == 'n' {
        Some(0)
    } else if c0 == 'T' && c1 == 'u' && c2 == 'e' {
        Some(1)
    } else if c0 == 'W' && c1 == 'e' && c2 == 'd' {
        Some(2)
    } else if c0 == 'T' && c1 == 'h' && c2 == 'u' {
        Some(3)
    } else if c0 == 'F' && c1 == 'r' && c2 == 'i' {
        Some(4)
    } else if c0 == 'S' && c1 == 'a' && c2 == 't' {
        Some(5)
    } else if c0 == 'S' && c1 == 'u' && c2 == 'n' {
        Some(6)
    } else {
        None
    };
    proof {
        if r is None {
            assert forall|w: int| 0 <= w < 7 implies s@.subrange(pos as int, pos + 3)
                != weekday_name(w) by {
                if s@.subrange(pos as int, pos + 3) == weekday_name(w) {
                    assert(c0 == weekday_name(w)[0]);
                    assert(c1 == weekday_name(w)[1]);
                    assert(c2 == weekday_name(w)[2]);
                }
            }
        }
    }
    r
}

/// Match three characters against the month names.
fn month_from_chars(s: &Vec<char>, pos: usize) -> (r: Option<u8>)
    requires
        pos + 3 <= s@.len(),
    ensures
        match r {
            Some(m) => 1 <= m <= 12 && s@.subrange(pos as int, pos + 3) == month_name(m as int),
            None => forall|m: int| 1 <= m <= 12 ==> s@.subrange(pos as int, pos + 3) != month_name(m),
        },
{
    let n = s.len();
    proof {
        assert(pos + 3 <= n);
    }
    let c0 = s[pos];
    let c1 = s[pos + 1];
    let c2 = s[pos + 2];
    proof {
        assert(s@.subrange(pos as int, pos + 3) =~= seq![c0, c1, c2]);
    }
    let r: Option<u8> = if c0 == 'J' && c1 == 'a' && c2 == 'n' {
        Some(1)
    } else if c0 == 'F' && c1 == 'e' && c2 == 'b' {
        Some(2)
    } else if c0 == 'M' && c1 == 'a' && c2 == 'r' {
        Some(3)
    } else if c0 == 'A' && c1 == 'p' && c2 == 'r' {
        Some(4)
    } else if c0 == 'M' && c1 == 'a' && c2 == 'y' {
        Some(5)
    } else if c0 == 'J' && c1 == 'u' && c2 == 'n' {
        Some(6)
    } else if c0 == 'J' && c1 == 'u' && c2 == 'l' {
        Some(7)
    } else if c0 == 'A' && c1 == 'u' && c2 == 'g' {
        Some(8)
    } else if c0 == 'S' && c1 == 'e' && c2 == 'p' {
        Some(9)
    } else if c0 == 'O' && c1 == 'c' && c2 == 't' {
        Some(10)
    } else if c0 == 'N' && c1 == 'o' && c2 == 'v' {
        Some(11)
    } else if c0 == 'D' && c1 == 'e' && c2 == 'c' {
        Some(12)
    } else {
        None
    };
    proof {
        if r is None {
            assert forall|m: int| 1 <= m <= 12 implies s@.subrange(pos as int, pos + 3)
                != month_name(m) by {
                if s@.subrange(pos as int, pos + 3) == month_name(m) {
                    assert(c0 == month_name(m)[0]);
                    assert(c1 == month_name(m)[1]);
                    assert(c2 == month_name(m)[2]);
                }
            }
        }
    }
    r
}

fn is_alpha(c: char) -> (r: bool)
    ensures
        r == is_alpha_char(c),
{
    ('A' <= c && c <= 'Z') || ('a' <= c && c <= 'z')
}

/// The length of the alphabetic run starting at `pos`.
fn count_alpha(s: &Vec<char>, pos: usize) -> (r: usize)
    requires
        pos <= s@.len(),
    ensures
        pos + r <= s@.len(),
        forall|j: int| pos <= j < pos + r ==> is_alpha_char(#[trigger] s@[j]),
        pos + r == s@.len() || !is_alpha_char(s@[pos + r]),
{
    let n = s.len();
    let mut i = pos;
    while i < n
        invariant
            pos <= i <= n,
            n == s@.len(),
            forall|j: int| pos <= j < i ==> is_alpha_char(#[trigger] s@[j]),
        decreases n - i,
    {
        if !is_alpha(s[i]) {
            return i - pos;
        }
        i = i + 1;
    }
    n - pos
}

/// The shift of an alphabetic zone designator, mirroring
/// `zone_alpha_offset`.
fn alpha_offset(s: &Vec<char>, pos: usize, n: usize) -> (r: i32)
    requires
        pos + n <= s@.len(),
        1 <= n <= 10,
    ensures
        r == zone_alpha_offset(s@.subrange(pos as int, pos + n)),
        -86400 < r < 86400,
{
    let ghost name = s@.subrange(pos as int, pos + n);
    proof {
        assert(name.len() == n);
    }
    if n == 1 {
        proof {
            assert(name =~= seq![s@[pos as int]]);
        }
        return 0;
    }
    if n == 2 {
        proof {
            assert(name =~= seq![s@[pos as int], s@[pos + 1]]);
        }
        return 0;
    }
    if n == 3 {
        let sl = s.len();
        proof {
            assert(pos + 3 <= sl);
        }
        let c0 = s[pos];
        let c1 = s[pos + 1];
        let c2 = s[pos + 2];
        proof {
            assert(name =~= seq![c0, c1, c2]);
        }
        if c0 == 'E' && c1 == 'S' && c2 == 'T' {
            return -18000;
        }
        if c0 == 'E' && c1 == 'D' && c2 == 'T' {
            return -14400;
        }
        if c0 == 'C' && c1 == 'S' && c2 == 'T' {
            return -21600;
        }
        if c0 == 'C' && c1 == 'D' && c2 == 'T' {
            return -18000;
        }
        if c0 == 'M' && c1 == 'S' && c2 == 'T' {
            return -25200;
        }
        if c0 == 'M' && c1 == 'D' && c2 == 'T' {
            return -21600;
        }
        if c0 == 'P' && c1 == 'S' && c2 == 'T' {
            return -28800;
        }
        if c0 == 'P' && c1 == 'D' && c2 == 'T' {
            return -25200;
        }
        return 0;
    }
    proof {
        assert(name.len() > 3);
    }
    0
}

/// What the parser promises about its three return values: some valid
/// bundle renders exactly to the input and denotes them.
pub open spec fn rfc2822_result_ok(t: Seq<char>, secs: int, nsecs: int, off: int) -> bool {
    exists|p: Rfc2822Parts|
        #[trigger] rfc2822_match(p, t) && secs == rfc2822_secs(p) && nsecs == rfc2822_nsecs(p)
            && off == rfc2822_off_secs(p)
}

/// Parse the character form of a message timestamp into an instant and
/// its offset.  Sound and complete for the grammar generated by
/// `rfc2822_render`: an input is accepted exactly when it is the
/// rendering of a valid bundle — with all the grammar's leniencies: the
/// day of week optional, one or two day digits, two- to four-digit years
/// with the historical windowing, optional seconds, and alphabetic zone
/// designators — and then denotes that bundle's instant.
#[verifier::spinoff_prover]
#[verifier::rlimit(100)]
pub fn parse_rfc2822_fields(s: &Vec<char>) -> (r: Result<(i64, u32, i32), ParseError>)
    ensures
        match r {
            Ok(v) => {
                &&& rfc2822_result_ok(s@, v.0 as int, v.1 as int, v.2 as int)
                &&& MIN_SECS <= v.0 <= MAX_SECS
                &&& v.1 < 2000000000
                &&& -86400 < v.2 < 86400
            },
            Err(e) => true,
        },
        forall|p: Rfc2822Parts|
            #[trigger] rfc2822_match(p, s@) ==> (r matches Ok(v) && v.0 == rfc2822_secs(p) && v.1
                == rfc2822_nsecs(p) && v.2 == rfc2822_off_secs(p)),
{
    let len = s.len();
    proof {
        crate::text::lemma_pow10_bound(4);
        assert forall|p: Rfc2822Parts| #[trigger] rfc2822_match(p, s@) implies s@.len() > 0 && (
        p.dow_present ==> !is_digit_char(s@[0]) && s@.len() >= 5 && s@.subrange(0, 3)
            == weekday_name(p.dow) && s@[3] == ',' && s@[4] == ' ') && (!p.dow_present
            ==> is_digit_char(s@[0])) by {
            lemma_rfc2822_layout(p);
            if p.dow_present {
                assert(s@[0] == s@.subrange(0, 3)[0]);
            } else {
                lemma_fixed_digits_chars(
                    p.day,
                    if p.dd2 {
                        2nat
                    } else {
                        1nat
                    },
                );
                assert(s@[0] == s@.subrange(
                    rfc2822_pos_day(p),
                    rfc2822_pos_day(p) + rfc2822_dw(p),
                )[0]);
            }
        }
    }
    if len == 0 {
        return Err(ParseError::TooShort);
    }
    if is_digit(s[0]) {
        // no day of week
        return parse_rfc2822_rest(s, 0, None);
    }
    if len < 5 {
        return Err(ParseError::TooShort);
    }
    let w = match weekday_from_chars(s, 0) {
        Some(w) => w,
        None => {
            return Err(ParseError::Invalid);
        },
    };
    if s[3] != ',' || s[4] != ' ' {
        return Err(ParseError::Invalid);
    }
    proof {
        assert forall|p: Rfc2822Parts| #[trigger] rfc2822_match(p, s@) implies p.dow == w by {
            if p.dow != w {
                assert(weekday_name(p.dow)[0] == weekday_name(w as int)[0]);
                assert(weekday_name(p.dow)[1] == weekday_name(w as int)[1]);
                assert(weekday_name(p.dow)[2] == weekday_name(w as int)[2]);
            }
        }
    }
    parse_rfc2822_rest(s, 5, Some(w))
}

/// The windowed year of a message timestamp, starting at `q3`.
#[verifier::spinoff_prover]
#[verifier::rlimit(100)]
fn parse_rfc2822_year(s: &Vec<char>, q3: usize) -> (r: Result<(usize, u32, u32), ParseError>)
    requires
        q3 <= s@.len(),
        forall|p: Rfc2822Parts| #[trigger] rfc2822_match(p, s@) ==> rfc2822_pos_year(p) == q3,
    ensures
        match r {
            Ok(v) => {
                &&& 2 <= v.0 <= 4 && v.1 < pow10(v.0 as nat)
                &&& v.2 == windowed_year(v.0 as nat, v.1 as int) && v.2 <= 9999
                &&& q3 + v.0 < s@.len()
                &&& s@.subrange(q3 as int, q3 + v.0) == fixed_digits(v.1 as int, v.0 as nat)
                &&& s@[q3 + v.0] == ' '
                &&& forall|p: Rfc2822Parts|
                    #[trigger] rfc2822_match(p, s@) ==> p.yd == v.0 && p.ytext == v.1
                        && rfc2822_year(p) == v.2
            },
            Err(e) => forall|p: Rfc2822Parts| !rfc2822_match(p, s@),
        },
{
    let len = s.len();
    proof {
        crate::text::lemma_pow10_bound(4);
        reveal_with_fuel(pow10, 11);
    }
    // year: two to four digits, windowed
    let ycnt = count_digits(s, q3);
    proof {
        assert forall|p: Rfc2822Parts| #[trigger] rfc2822_match(p, s@) implies 2 <= ycnt <= 4
            && ycnt == p.yd by {
            lemma_rfc2822_layout(p);
            lemma_fixed_digits_chars(p.ytext, p.yd);
            lemma_fixed_digits_len(p.ytext, p.yd);
            let py = rfc2822_pos_year(p);
            assert forall|j: int| py <= j < py + p.yd implies is_digit_char(#[trigger] s@[j]) by {
                assert(s@[j] == s@.subrange(py, py + p.yd as int)[j - py]);
            }
            if ycnt < p.yd {
                assert(is_digit_char(s@[q3 + ycnt]));
            }
            if ycnt > p.yd {
                assert(is_digit_char(s@[py + p.yd as int]));
            }
        }
    }
    if ycnt < 2 || ycnt > 4 {
        return Err(ParseError::Invalid);
    }
    let ytext = match read_digits(s, q3, ycnt) {
        Some(v) => v,
        None => {
            proof {
                assert(false);
            }
            return Err(ParseError::Invalid);
        },
    };
    let year: u32 = if ycnt == 2 {
        if ytext < 50 {
            2000 + ytext
        } else {
            1900 + ytext
        }
    } else if ycnt == 3 {
        1900 + ytext
    } else {
        ytext
    };
    proof {
        assert forall|p: Rfc2822Parts| #[trigger] rfc2822_match(p, s@) implies p.ytext == ytext
            && rfc2822_year(p) == year by {
            lemma_rfc2822_layout(p);
            lemma_fixed_digits_injective(p.ytext, ytext as int, p.yd);
        }
    }
    let q4 = q3 + ycnt;
    if q4 >= len || s[q4] != ' ' {
        proof {
            assert forall|p: Rfc2822Parts| !rfc2822_match(p, s@) by {
                if rfc2822_match(p, s@) {
                    lemma_rfc2822_layout(p);
                }
            }
        }
        return Err(ParseError::Invalid);
    }
    Ok((ycnt, ytext, year))
}

/// The day, month name and windowed year of a message timestamp,
/// starting at `pos`; also certifies where each piece stands, so the
/// caller can assemble the whole-text witness.
#[verifier::spinoff_prover]
#[verifier::rlimit(100)]
fn parse_rfc2822_date(s: &Vec<char>, pos: usize) -> (r: Result<
    (u32, usize, u8, usize, u32, u32),
    ParseError,
>)
    requires
        pos <= s@.len(),
        forall|p: Rfc2822Parts| #[trigger] rfc2822_match(p, s@) ==> rfc2822_pos_day(p) == pos,
    ensures
        match r {
            Ok(v) => {
                &&& 1 <= v.1 <= 2 && v.0 < pow10(v.1 as nat) && 1 <= v.0 <= 99
                &&& 1 <= v.2 <= 12
                &&& 2 <= v.3 <= 4 && v.4 < pow10(v.3 as nat)
                &&& v.5 == windowed_year(v.3 as nat, v.4 as int) && v.5 <= 9999
                &&& pos + v.1 + 5 + v.3 < s@.len()
                &&& s@.subrange(pos as int, pos + v.1) == fixed_digits(v.0 as int, v.1 as nat)
                &&& s@[pos + v.1] == ' '
                &&& s@.subrange(pos + v.1 + 1, pos + v.1 + 4) == month_name(v.2 as int)
                &&& s@[pos + v.1 + 4] == ' '
                &&& s@.subrange(pos + v.1 + 5, pos + v.1 + 5 + v.3) == fixed_digits(
                    v.4 as int,
                    v.3 as nat,
                )
                &&& s@[pos + v.1 + 5 + v.3] == ' '
                &&& forall|p: Rfc2822Parts|
                    #[trigger] rfc2822_match(p, s@) ==> p.day == v.0 && rfc2822_dw(p) == v.1
                        && p.month == v.2 && p.yd == v.3 && p.ytext == v.4 && rfc2822_year(p)
                        == v.5 && rfc2822_pos_hour(p) == pos + v.1 + 5 + v.3 + 1 && s@.len()
                        == rfc2822_len(p)
            },
            Err(e) => forall|p: Rfc2822Parts| !rfc2822_match(p, s@),
        },
{
    let len = s.len();
    proof {
        crate::text::lemma_pow10_bound(4);
        reveal_with_fuel(pow10, 11);
    }
    // day: one or two digits
    let dcnt = count_digits(s, pos);
    proof {
        assert forall|p: Rfc2822Parts| #[trigger] rfc2822_match(p, s@) implies 1 <= dcnt <= 2
            && dcnt == rfc2822_dw(p) && s@.len() == rfc2822_len(p) by {
            lemma_rfc2822_layout(p);
            let dw = rfc2822_dw(p);
            let wd = if p.dd2 {
                2nat
            } else {
                1nat
            };
            lemma_fixed_digits_chars(p.day, wd);
            lemma_fixed_digits_len(p.day, wd);
            assert forall|j: int| pos <= j < pos + dw implies is_digit_char(#[trigger] s@[j]) by {
                assert(s@[j] == s@.subrange(pos as int, pos + dw)[j - pos]);
            }
            if dcnt < dw {
                assert(is_digit_char(s@[pos + dcnt]));
            }
            if dcnt > dw {
                assert(is_digit_char(s@[pos + dw]));
            }
        }
    }
    if dcnt < 1 || dcnt > 2 {
        return Err(ParseError::Invalid);
    }
    let day = match read_digits(s, pos, dcnt) {
        Some(v) => v,
        None => {
            proof {
                assert(false);
            }
            return Err(ParseError::Invalid);
        },
    };
    proof {
        assert forall|p: Rfc2822Parts| #[trigger] rfc2822_match(p, s@) implies p.day == day by {
            lemma_rfc2822_layout(p);
            let wd = if p.dd2 {
                2nat
            } else {
                1nat
            };
            lemma_fixed_digits_injective(p.day, day as int, wd);
        }
    }
    let q0 = pos + dcnt;
    if q0 >= len || s[q0] != ' ' {
        proof {
            assert forall|p: Rfc2822Parts| !rfc2822_match(p, s@) by {
                if rfc2822_match(p, s@) {
                    lemma_rfc2822_layout(p);
                }
            }
        }
        return Err(ParseError::Invalid);
    }
    let q1 = q0 + 1;
    // month name
    if len - q1 < 3 {
        proof {
            assert forall|p: Rfc2822Parts| !rfc2822_match(p, s@) by {
                if rfc2822_match(p, s@) {
                    lemma_rfc2822_layout(p);
                }
            }
        }
        return Err(ParseError::TooShort);
    }
    let month = match month_from_chars(s, q1) {
        Some(m) => m,
        None => {
            proof {
                assert forall|p: Rfc2822Parts| !rfc2822_match(p, s@) by {
                    if rfc2822_match(p, s@) {
                        lemma_rfc2822_layout(p);
                    }
                }
            }
            return Err(ParseError::Invalid);
        },
    };
    proof {
        assert forall|p: Rfc2822Parts| #[trigger] rfc2822_match(p, s@) implies p.month
            == month by {
            lemma_rfc2822_layout(p);
            if p.month != month {
                assert(month_name(p.month)[0] == month_name(month as int)[0]);
                assert(month_name(p.month)[1] == month_name(month as int)[1]);
                assert(month_name(p.month)[2] == month_name(month as int)[2]);
            }
        }
    }
    let q2 = q1 + 3;
    if q2 >= len || s[q2] != ' ' {
        proof {
            assert forall|p: Rfc2822Parts| !rfc2822_match(p, s@) by {
                if rfc2822_match(p, s@) {
                    lemma_rfc2822_layout(p);
                }
            }
        }
        return Err(ParseError::Invalid);
    }
    let q3 = q2 + 1;
    let (ycnt, ytext, year) = match parse_rfc2822_year(s, q3) {
        Ok(v) => v,
        Err(e) => {
            return Err(e);
        },
    };
    if day < 1 {
        proof {
            assert forall|p: Rfc2822Parts| !rfc2822_match(p, s@) by {
                if rfc2822_match(p, s@) {
                    lemma_rfc2822_layout(p);
                }
            }
        }
        return Err(ParseError::OutOfRange);
    }
    Ok((day, dcnt, month, ycnt, ytext, year))
}

/// The day-month-year-clock-zone tail of a message timestamp, starting
/// at `pos`; `dow` is the already-parsed day of week, to be checked
/// against the date.
#[verifier::spinoff_prover]
#[verifier::rlimit(100)]
fn parse_rfc2822_rest(s: &Vec<char>, pos: usize, dow: Option<u32>) -> (r: Result<
    (i64, u32, i32),
    ParseError,
>)
    requires
        pos <= s@.len(),
        pos == 0 || pos == 5,
        (pos == 5) == (dow is Some),
        dow matches Some(w) ==> w < 7,
        pos == 5 ==> s@.len() >= 5 && s@.subrange(0, 3) == weekday_name(dow->0 as int) && s@[3]
            == ',' && s@[4] == ' ',
        forall|p: Rfc2822Parts|
            #[trigger] rfc2822_match(p, s@) ==> rfc2822_pos_day(p) == pos && (p.dow_present ==> (
            dow matches Some(w) && p.dow == w)),
    ensures
        match r {
            Ok(v) => {
                &&& rfc2822_result_ok(s@, v.0 as int, v.1 as int, v.2 as int)
                &&& MIN_SECS <= v.0 <= MAX_SECS
                &&& v.1 < 2000000000
                &&& -86400 < v.2 < 86400
            },
            Err(e) => true,
        },
        forall|p: Rfc2822Parts|
            #[trigger] rfc2822_match(p, s@) ==> (r matches Ok(v) && v.0 == rfc2822_secs(p) && v.1
                == rfc2822_nsecs(p) && v.2 == rfc2822_off_secs(p)),
{
    let len = s.len();
    proof {
        crate::text::lemma_pow10_bound(4);
        reveal_with_fuel(pow10, 11);
    }
    let (day, dcnt, month, ycnt, ytext, year) = match parse_rfc2822_date(s, pos) {
        Ok(v) => v,
        Err(e) => {
            return Err(e);
        },
    };
    let q5 = pos + dcnt + 6 + ycnt;
    // clock
    if len - q5 < 5 {
        proof {
            assert forall|p: Rfc2822Parts| !rfc2822_match(p, s@) by {
                if rfc2822_match(p, s@) {
                    lemma_rfc2822_layout(p);
                }
            }
        }
        return Err(ParseError::TooShort);
    }
    let h = match read_digits(s, q5, 2) {
        Some(v) => v,
        None => {
            proof {
                assert forall|p: Rfc2822Parts| !rfc2822_match(p, s@) by {
                    if rfc2822_match(p, s@) {
                        lemma_rfc2822_layout(p);
                        lemma_digits_at(s@, rfc2822_pos_hour(p), p.h);
                    }
                }
            }
            return Err(ParseError::Invalid);
        },
    };
    if s[q5 + 2] != ':' {
        proof {
            assert forall|p: Rfc2822Parts| !rfc2822_match(p, s@) by {
                if rfc2822_match(p, s@) {
                    lemma_rfc2822_layout(p);
                }
            }
        }
        return Err(ParseError::Invalid);
    }
    let mi = match read_digits(s, q5 + 3, 2) {
        Some(v) => v,
        None => {
            proof {
                assert forall|p: Rfc2822Parts| !rfc2822_match(p, s@) by {
                    if rfc2822_match(p, s@) {
                        lemma_rfc2822_layout(p);
                        lemma_digits_at(s@, rfc2822_pos_hour(p) + 3, p.mi);
                    }
                }
            }
            return Err(ParseError::Invalid);
        },
    };
    proof {
        assert forall|p: Rfc2822Parts| #[trigger] rfc2822_match(p, s@) implies p.h == h && p.mi
            == mi by {
            lemma_rfc2822_layout(p);
            lemma_fixed_digits_injective(p.h, h as int, 2);
            lemma_fixed_digits_injective(p.mi, mi as int, 2);
        }
    }
    let mut q6 = q5 + 5;
    let mut sec: u32 = 0;
    let mut sec_present = false;
    if q6 < len && s[q6] == ':' {
        if len - q6 < 3 {
            proof {
                assert forall|p: Rfc2822Parts| !rfc2822_match(p, s@) by {
                    if rfc2822_match(p, s@) {
                        lemma_rfc2822_layout(p);
                    }
                }
            }
            return Err(ParseError::TooShort);
        }
        sec = match read_digits(s, q6 + 1, 2) {
            Some(v) => v,
            None => {
                proof {
                    assert forall|p: Rfc2822Parts| !rfc2822_match(p, s@) by {
                        if rfc2822_match(p, s@) {
                            lemma_rfc2822_layout(p);
                            if p.sec_present {
                                lemma_digits_at(s@, rfc2822_pos_hour(p) + 6, p.sec);
                            }
                        }
                    }
                }
                return Err(ParseError::Invalid);
            },
        };
        sec_present = true;
        q6 = q6 + 3;
        proof {
            assert forall|p: Rfc2822Parts| #[trigger] rfc2822_match(p, s@) implies p.sec_present
                && p.sec == sec && q6 == rfc2822_pos_zone(p) - 1 by {
                lemma_rfc2822_layout(p);
                if !p.sec_present {
                    assert(s@[rfc2822_pos_hour(p) + 5] == ' ');
                }
                lemma_fixed_digits_injective(p.sec, sec as int, 2);
            }
        }
    } else {
        proof {
            assert forall|p: Rfc2822Parts| #[trigger] rfc2822_match(p, s@) implies !p.sec_present
                && p.sec == 0 && q6 == rfc2822_pos_zone(p) - 1 by {
                lemma_rfc2822_layout(p);
                if p.sec_present {
                    assert(s@[rfc2822_pos_hour(p) + 5] == ':');
                }
            }
        }
    }
    if q6 >= len || s[q6] != ' ' {
        proof {
            assert forall|p: Rfc2822Parts| !rfc2822_match(p, s@) by {
                if rfc2822_match(p, s@) {
                    lemma_rfc2822_layout(p);
                }
            }
        }
        return Err(ParseError::Invalid);
    }
    let q7 = q6 + 1;
    // zone
    if q7 >= len {
        proof {
            assert forall|p: Rfc2822Parts| !rfc2822_match(p, s@) by {
                if rfc2822_match(p, s@) {
                    lemma_rfc2822_layout(p);
                }
            }
        }
        return Err(ParseError::TooShort);
    }
    let (off, gz) = match parse_rfc2822_zone(s, q7) {
        Ok(v) => v,
        Err(e) => {
            return Err(e);
        },
    };
    let ghost gzone = gz@;
    proof {
        assert forall|p: Rfc2822Parts| #[trigger] rfc2822_match(p, s@) implies p.zone == gzone
            && off == rfc2822_off_secs(p) by {
        }
    }
    // validation
    if month < 1 || month > 12 || h > 23 || mi > 59 || sec > 60 || year > 9999 {
        return Err(ParseError::OutOfRange);
    }
    let dim = days_in_month_x(year as i64, month);
    if day < 1 || day > dim as u32 {
        return Err(ParseError::OutOfRange);
    }
    let days = ymd_to_days(year as i64, month, day as u8);
    let wd = crate::calendar::rem_floor(days + 3, 7);
    if let Some(w) = dow {
        if wd as u32 != w {
            return Err(ParseError::Impossible);
        }
    }
    let out = crate::rfc3339::finish_rfc3339(year, month, day as u8, h, mi, sec, 0, off);
    proof {
        let ghost pw = Rfc2822Parts {
            dow_present: (pos == 5),
            dow: wd as int,
            dd2: (dcnt == 2),
            day: day as int,
            month: month as int,
            yd: ycnt as nat,
            ytext: ytext as int,
            h: h as int,
            mi: mi as int,
            sec_present: sec_present,
            sec: sec as int,
            zone: gzone,
        };
        assert(rfc2822_year(pw) == year);
        assert(rfc2822_parts_wf(pw));
        lemma_rfc2822_witness(s@, pw, pos as int, q6 as int);
        assert(rfc2822_result_ok(s@, out.0 as int, out.1 as int, off as int)) by {
            assert(rfc2822_match(pw, s@));
        }
    }
    Ok((out.0, out.1, off))
}

/// Read the zone designator at position `q7`, which must reach the end
/// of the input: a signed four-digit offset or an alphabetic name.
#[verifier::spinoff_prover]
#[verifier::rlimit(100)]
fn parse_rfc2822_zone(s: &Vec<char>, q7: usize) -> (r: Result<(i32, Ghost<Zone2822>), ParseError>)
    requires
        q7 < s@.len(),
        forall|p: Rfc2822Parts|
            #[trigger] rfc2822_match(p, s@) ==> rfc2822_pos_zone(p) == q7 && s@.len()
                == rfc2822_len(p),
    ensures
        match r {
            Ok(v) => {
                &&& -86400 < v.0 < 86400
                &&& rfc2822_zone_at(s@, q7 as int, v.1@)
                &&& rfc2822_zone_wf(v.1@)
                &&& v.0 == zone_off_secs(v.1@)
                &&& forall|p: Rfc2822Parts| #[trigger] rfc2822_match(p, s@) ==> p.zone == v.1@
            },
            Err(e) => forall|p: Rfc2822Parts| !rfc2822_match(p, s@),
        },
{
    let len = s.len();
    proof {
        reveal_with_fuel(pow10, 11);
    }
    let c = s[q7];
    if c == '+' || c == '-' {
        if len - q7 != 5 {
            proof {
                assert forall|p: Rfc2822Parts| !rfc2822_match(p, s@) by {
                    if rfc2822_match(p, s@) {
                        lemma_rfc2822_layout(p);
                        match p.zone {
                            Zone2822::Num { neg, oh: poh, om: pom } => {
                            },
                            Zone2822::Alpha { name } => {
                                assert(is_alpha_char(s@[rfc2822_pos_zone(p)]));
                            },
                        }
                    }
                }
            }
            return Err(
                if len - q7 < 5 {
                    ParseError::TooShort
                } else {
                    ParseError::TooLong
                },
            );
        }
        let oh = match read_digits(s, q7 + 1, 2) {
            Some(v) => v,
            None => {
                proof {
                    assert forall|p: Rfc2822Parts| !rfc2822_match(p, s@) by {
                        if rfc2822_match(p, s@) {
                            lemma_rfc2822_layout(p);
                            match p.zone {
                                Zone2822::Num { neg, oh: poh, om: pom } => {
                                    lemma_digits_at(s@, rfc2822_pos_zone(p) + 1, poh);
                                },
                                Zone2822::Alpha { name } => {
                                    assert(is_alpha_char(s@[rfc2822_pos_zone(p)]));
                                },
                            }
                        }
                    }
                }
                return Err(ParseError::Invalid);
            },
        };
        let om = match read_digits(s, q7 + 3, 2) {
            Some(v) => v,
            None => {
                proof {
                    assert forall|p: Rfc2822Parts| !rfc2822_match(p, s@) by {
                        if rfc2822_match(p, s@) {
                            lemma_rfc2822_layout(p);
                            match p.zone {
                                Zone2822::Num { neg, oh: poh, om: pom } => {
                                    lemma_digits_at(s@, rfc2822_pos_zone(p) + 3, pom);
                                },
                                Zone2822::Alpha { name } => {
                                    assert(is_alpha_char(s@[rfc2822_pos_zone(p)]));
                                },
                            }
                        }
                    }
                }
                return Err(ParseError::Invalid);
            },
        };
        proof {
            assert forall|p: Rfc2822Parts| #[trigger] rfc2822_match(p, s@) implies (
            p.zone matches Zone2822::Num { neg, oh: poh, om: pom } && poh == oh && pom == om && neg
                == (c == '-')) by {
                lemma_rfc2822_layout(p);
                match p.zone {
                    Zone2822::Num { neg, oh: poh, om: pom } => {
                        lemma_fixed_digits_injective(poh, oh as int, 2);
                        lemma_fixed_digits_injective(pom, om as int, 2);
                    },
                    Zone2822::Alpha { name } => {
                        assert(is_alpha_char(s@[rfc2822_pos_zone(p)]));
                    },
                }
            }
        }
        if oh > 23 || om > 59 {
            return Err(ParseError::OutOfRange);
        }
        let ghost gz = Zone2822::Num { neg: (c == '-'), oh: oh as int, om: om as int };
        let off: i32 = if c == '-' {
            -((oh * 3600 + om * 60) as i32)
        } else {
            (oh * 3600 + om * 60) as i32
        };
        Ok((off, Ghost(gz)))
    } else {
        let acnt = count_alpha(s, q7);
        proof {
            assert forall|p: Rfc2822Parts| #[trigger] rfc2822_match(p, s@) implies (
            p.zone matches Zone2822::Alpha { name } && name == s@.subrange(q7 as int, len as int)
                && acnt == name.len() && q7 + acnt == len) by {
                lemma_rfc2822_layout(p);
                match p.zone {
                    Zone2822::Num { neg, oh: poh, om: pom } => {
                        assert(s@[rfc2822_pos_zone(p)] == '+' || s@[rfc2822_pos_zone(p)] == '-');
                    },
                    Zone2822::Alpha { name } => {
                        assert forall|j: int| q7 <= j < len implies is_alpha_char(
                            #[trigger] s@[j],
                        ) by {
                            assert(s@[j] == s@.subrange(q7 as int, len as int)[j - q7]);
                        }
                        if acnt < name.len() {
                            assert(is_alpha_char(s@[q7 + acnt]));
                        }
                    },
                }
            }
        }
        if acnt < 1 || acnt > 10 {
            return Err(ParseError::Invalid);
        }
        if q7 + acnt != len {
            return Err(ParseError::TooLong);
        }
        let ghost gz = Zone2822::Alpha { name: s@.subrange(q7 as int, len as int) };
        let off = alpha_offset(s, q7, acnt);
        Ok((off, Ghost(gz)))
    }
}

/// All characters of the two-digit group at `a` are digits.
proof fn lemma_digits_at(s: Seq<char>, a: int, v: int)
    requires
        0 <= a,
        a + 2 <= s.len(),
        s.subrange(a, a + 2) == fixed_digits(v, 2),
        0 <= v,
    ensures
        forall|j: int| a <= j < a + 2 ==> is_digit_char(#[trigger] s[j]),
{
    lemma_fixed_digits_chars(v, 2);
    lemma_fixed_digits_len(v, 2);
    assert forall|j: int| a <= j < a + 2 implies is_digit_char(#[trigger] s[j]) by {
        assert(s[j] == s.subrange(a, a + 2)[j - a]);
    }
}

/// From the parser's certificates, the input is exactly the rendering of
/// the witness bundle.  `pd` is where the day digits start and `ps`
/// where the space before the zone stands.
#[verifier::spinoff_prover]
#[verifier::rlimit(100)]
proof fn lemma_rfc2822_witness(t: Seq<char>, pw: Rfc2822Parts, pd: int, ps: int)
    requires
        rfc2822_parts_wf(pw),
        pd == rfc2822_pos_day(pw),
        ps == rfc2822_pos_zone(pw) - 1,
        t.len() == rfc2822_len(pw),
        pw.dow_present ==> t.subrange(0, 3) == weekday_name(pw.dow) && t[3] == ',' && t[4] == ' ',
        t.subrange(pd, pd + rfc2822_dw(pw)) == fixed_digits(
            pw.day,
            if pw.dd2 {
                2nat
            } else {
                1nat
            },
        ),
        t[pd + rfc2822_dw(pw)] == ' ',
        t.subrange(rfc2822_pos_month(pw), rfc2822_pos_month(pw) + 3) == month_name(pw.month),
        t[rfc2822_pos_month(pw) + 3] == ' ',
        t.subrange(rfc2822_pos_year(pw), rfc2822_pos_year(pw) + pw.yd as int) == fixed_digits(
            pw.ytext,
            pw.yd,
        ),
        t[rfc2822_pos_year(pw) + pw.yd as int] == ' ',
        t.subrange(rfc2822_pos_hour(pw), rfc2822_pos_hour(pw) + 2) == fixed_digits(pw.h, 2),
        t[rfc2822_pos_hour(pw) + 2] == ':',
        t.subrange(rfc2822_pos_hour(pw) + 3, rfc2822_pos_hour(pw) + 5) == fixed_digits(pw.mi, 2),
        pw.sec_present ==> t[rfc2822_pos_hour(pw) + 5] == ':' && t.subrange(
            rfc2822_pos_hour(pw) + 6,
            rfc2822_pos_hour(pw) + 8,
        ) == fixed_digits(pw.sec, 2),
        t[ps] == ' ',
        rfc2822_zone_at(t, ps + 1, pw.zone),
    ensures
        rfc2822_match(pw, t),
{
    lemma_rfc2822_layout(pw);
    let r = rfc2822_render(pw);
    let dw = rfc2822_dw(pw);
    let pm = rfc2822_pos_month(pw);
    let py = rfc2822_pos_year(pw);
    let ph = rfc2822_pos_hour(pw);
    let pz = rfc2822_pos_zone(pw);
    assert forall|i: int| 0 <= i < t.len() implies t[i] == r[i] by {
        if pw.dow_present && 0 <= i < 3 {
            assert(t[i] == t.subrange(0, 3)[i]);
            assert(r[i] == r.subrange(0, 3)[i]);
        } else if pw.dow_present && (i == 3 || i == 4) {
        } else if pd <= i < pd + dw {
            assert(t[i] == t.subrange(pd, pd + dw)[i - pd]);
            assert(r[i] == r.subrange(pd, pd + dw)[i - pd]);
        } else if i == pd + dw {
        } else if pm <= i < pm + 3 {
            assert(t[i] == t.subrange(pm, pm + 3)[i - pm]);
            assert(r[i] == r.subrange(pm, pm + 3)[i - pm]);
        } else if i == pm + 3 {
        } else if py <= i < py + pw.yd {
            assert(t[i] == t.subrange(py, py + pw.yd as int)[i - py]);
            assert(r[i] == r.subrange(py, py + pw.yd as int)[i - py]);
        } else if i == py + pw.yd {
        } else if ph <= i < ph + 2 {
            assert(t[i] == t.subrange(ph, ph + 2)[i - ph]);
            assert(r[i] == r.subrange(ph, ph + 2)[i - ph]);
        } else if i == ph + 2 {
        } else if ph + 3 <= i < ph + 5 {
            assert(t[i] == t.subrange(ph + 3, ph + 5)[i - (ph + 3)]);
            assert(r[i] == r.subrange(ph + 3, ph + 5)[i - (ph + 3)]);
        } else if pw.sec_present && i == ph + 5 {
        } else if pw.sec_present && ph + 6 <= i < ph + 8 {
            assert(t[i] == t.subrange(ph + 6, ph + 8)[i - (ph + 6)]);
            assert(r[i] == r.subrange(ph + 6, ph + 8)[i - (ph + 6)]);
        } else if i == pz - 1 {
        } else {
            match pw.zone {
                Zone2822::Num { neg, oh, om } => {
                    if i == pz {
                    } else if pz + 1 <= i < pz + 3 {
                        assert(t[i] == t.subrange(pz + 1, pz + 3)[i - (pz + 1)]);
                        assert(r[i] == r.subrange(pz + 1, pz + 3)[i - (pz + 1)]);
                    } else if pz + 3 <= i < pz + 5 {
                        assert(t[i] == t.subrange(pz + 3, pz + 5)[i - (pz + 3)]);
                        assert(r[i] == r.subrange(pz + 3, pz + 5)[i - (pz + 3)]);
                    }
                },
                Zone2822::Alpha { name } => {
                    if pz <= i {
                        assert(t[i] == t.subrange(pz, t.len() as int)[i - pz]);
                        assert(r[i] == r.subrange(pz, r.len() as int)[i - pz]);
                    }
                },
            }
        }
    }
    assert(t =~= r);
}

/// A folding-whitespace character.
pub open spec fn is_sep_char(c: char) -> bool {
    c == ' ' || c == '\t'
}

/// One left-to-right pass over `t` that folds the grammar's comment and
/// whitespace tolerance away: runs of spaces, tabs and parenthesized
/// comments (nesting allowed) read as a single space between tokens and
/// as nothing at either end.  `depth` counts open comment parentheses,
/// `pend` says a separator run is open, `started` that a token has been
/// seen.
pub open spec fn collapse_go(t: Seq<char>, depth: int, pend: bool, started: bool) -> Seq<char>
    decreases t.len(),
{
    if t.len() == 0 {
        Seq::empty()
    } else {
        let c = t.first();
        let rest = t.drop_first();
        if depth > 0 {
            if c == ')' {
                collapse_go(rest, depth - 1, pend, started)
            } else if c == '(' {
                collapse_go(rest, depth + 1, pend, started)
            } else {
                collapse_go(rest, depth, pend, started)
            }
        } else if c == '(' {
            collapse_go(rest, 1, true, started)
        } else if is_sep_char(c) {
            collapse_go(rest, 0, true, started)
        } else if pend && started {
            seq![' ', c] + collapse_go(rest, 0, false, true)
        } else {
            seq![c] + collapse_go(rest, 0, false, true)
        }
    }
}

/// The comment-and-whitespace-collapsed reading of `t`.
pub open spec fn cfws_collapse(t: Seq<char>) -> Seq<char> {
    collapse_go(t, 0, false, false)
}

/// Collapse folding whitespace and comments, as executable code.
fn collapse_cfws(s: &Vec<char>) -> (r: Vec<char>)
    ensures
        r@ == cfws_collapse(s@),
{
    let len = s.len();
    let mut out: Vec<char> = Vec::new();
    let mut i: usize = 0;
    let mut depth: usize = 0;
    let mut pend = false;
    let mut started = false;
    proof {
        assert(s@.skip(0) =~= s@);
    }
    while i < len
        invariant
            i <= len,
            len == s@.len(),
            depth <= i,
            cfws_collapse(s@) == out@ + collapse_go(
                s@.skip(i as int),
                depth as int,
                pend,
                started,
            ),
        decreases len - i,
    {
        let c = s[i];
        proof {
            assert(s@.skip(i as int).first() == s@[i as int]);
            assert(s@.skip(i as int).drop_first() =~= s@.skip(i + 1));
        }
        if depth > 0 {
            if c == ')' {
                depth = depth - 1;
            } else if c == '(' {
                depth = depth + 1;
            }
        } else if c == '(' {
            depth = 1;
            pend = true;
        } else if c == ' ' || c == '\t' {
            pend = true;
        } else {
            if pend && started {
                out.push(' ');
            }
            out.push(c);
            pend = false;
            started = true;
        }
        i = i + 1;
        proof {
            assert(cfws_collapse(s@) =~= out@ + collapse_go(
                s@.skip(i as int),
                depth as int,
                pend,
                started,
            ));
        }
    }
    proof {
        assert(s@.skip(len as int) =~= Seq::<char>::empty());
        assert(cfws_collapse(s@) =~= out@);
    }
    out
}

impl DateTime<FixedOffset> {
    /// Parse a message timestamp; the returned value carries the parsed
    /// offset.  An input is accepted exactly when it is a valid
    /// timestamp of the grammar — either as written, or once its
    /// embedded comments and folding whitespace are collapsed — and
    /// then denotes that timestamp's instant.
    pub fn parse_from_rfc2822(s: &str) -> (r: Result<DateTime<FixedOffset>, ParseError>)
        ensures
            match r {
                Ok(dt) => dt.wf() && (rfc2822_result_ok(
                    s@,
                    dt.datetime.secs as int,
                    dt.datetime.nsecs as int,
                    dt.offset.local_minus_utc as int,
                ) || rfc2822_result_ok(
                    cfws_collapse(s@),
                    dt.datetime.secs as int,
                    dt.datetime.nsecs as int,
                    dt.offset.local_minus_utc as int,
                )),
                Err(e) => true,
            },
            forall|p: Rfc2822Parts|
                #[trigger] rfc2822_match(p, s@) ==> (r matches Ok(dt) && dt.datetime.secs
                    == rfc2822_secs(p) && dt.datetime.nsecs == rfc2822_nsecs(p)
                    && dt.offset.local_minus_utc == rfc2822_off_secs(p)),
            forall|p: Rfc2822Parts|
                #[trigger] rfc2822_match(p, cfws_collapse(s@)) && (forall|q: Rfc2822Parts|
                    !(#[trigger] rfc2822_match(q, s@))) ==> (r matches Ok(dt) && dt.datetime.secs
                    == rfc2822_secs(p) && dt.datetime.nsecs == rfc2822_nsecs(p)
                    && dt.offset.local_minus_utc == rfc2822_off_secs(p)),
    {
        let chars = str_to_chars(s);
        match parse_rfc2822_fields(&chars) {
            Ok((secs, nsecs, off)) => Ok(
                DateTime {
                    datetime: NaiveDateTime { secs, nsecs },
                    offset: FixedOffset { local_minus_utc: off },
                },
            ),
            Err(_) => {
                let collapsed = collapse_cfws(&chars);
                match parse_rfc2822_fields(&collapsed) {
                    Ok((secs, nsecs, off)) => Ok(
                        DateTime {
                            datetime: NaiveDateTime { secs, nsecs },
                            offset: FixedOffset { local_minus_utc: off },
                        },
                    ),
                    Err(e) => Err(e),
                }
            },
        }
    }
}

} // verus!
