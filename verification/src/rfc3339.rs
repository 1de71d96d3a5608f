//! The ISO-style combined date-time grammar: reading and writing
//! `1996-12-19T16:39:57-08:00` and its variants.
//!
//! The grammar is specified generatively: `rfc3339_render` maps a bundle
//! of lexical choices ([`Rfc3339Parts`]) to its exact text.  The parser
//! is proved sound (every accepted input is the rendering of the value
//! returned) and complete (every rendering is accepted, and maps to its
//! own instant).

use vstd::prelude::*;
use crate::calendar::{
    days_from_ymd, days_in_month, days_in_month_x, lemma_civil_within_year,
    lemma_days_before_year_mono, ymd_to_days, EPOCH_DAYS, MAX_SECS, MIN_SECS,
};
use crate::datetime::DateTime;
use crate::naive::NaiveDateTime;
use crate::offset::{FixedOffset, TimeZone, Utc};
use crate::text::{
    count_digits, fixed_digits, is_digit, is_digit_char, lemma_fixed_digits_chars,
    lemma_fixed_digits_injective, lemma_fixed_digits_len, lemma_pow10_bound, lemma_pow10_mono,
    pow10, pow10_x, push_digits, read_digits, str_to_chars, ParseError,
};

verus! {

/// The lexical choices of one ISO-style timestamp: the civil fields, the
/// displayed second (60 encodes a leap second), the fraction value and
/// its digit count, the separator, and the offset spelling.
pub struct Rfc3339Parts {
    pub y: int,
    pub m: int,
    pub d: int,
    pub h: int,
    pub mi: int,
    pub sec: int,
    pub nano: int,
    pub nd: nat,
    pub sep: char,
    pub zulu: bool,
    pub zlow: bool,
    pub neg: bool,
    pub oh: int,
    pub om: int,
}

/// The choices a valid timestamp can be made of.
pub open spec fn rfc3339_parts_wf(p: Rfc3339Parts) -> bool {
    &&& 0 <= p.y <= 9999
    &&& 1 <= p.m <= 12
    &&& 1 <= p.d <= days_in_month(p.y, p.m)
    &&& 0 <= p.h <= 23
    &&& 0 <= p.mi <= 59
    &&& 0 <= p.sec <= 60
    &&& 0 <= p.nano < 1000000000
    &&& p.nd <= 9
    &&& (p.nd == 0 ==> p.nano == 0)
    &&& (p.nd > 0 ==> p.nano % pow10((9 - p.nd) as nat) == 0)
    &&& (p.sep == 'T' || p.sep == 't' || p.sep == ' ')
    &&& (p.zulu ==> !p.neg && p.oh == 0 && p.om == 0)
    &&& 0 <= p.oh <= 23
    &&& 0 <= p.om <= 59
}

/// The fraction text: empty, or a point followed by the digits shown.
pub open spec fn rfc3339_frac(p: Rfc3339Parts) -> Seq<char> {
    if p.nd == 0 {
        Seq::empty()
    } else {
        seq!['.'] + fixed_digits(p.nano / pow10((9 - p.nd) as nat), p.nd)
    }
}

/// The offset text: a Zulu letter or a signed hour-minute pair.
pub open spec fn rfc3339_off_text(p: Rfc3339Parts) -> Seq<char> {
    if p.zulu {
        seq![
            if p.zlow {
                'z'
            } else {
                'Z'
            },
        ]
    } else {
        seq![
            if p.neg {
                '-'
            } else {
                '+'
            },
        ] + fixed_digits(p.oh, 2) + seq![':'] + fixed_digits(p.om, 2)
    }
}

/// The exact text of the timestamp.
pub open spec fn rfc3339_render(p: Rfc3339Parts) -> Seq<char> {
    fixed_digits(p.y, 4) + seq!['-'] + fixed_digits(p.m, 2) + seq!['-'] + fixed_digits(p.d, 2)
        + seq![p.sep] + fixed_digits(p.h, 2) + seq![':'] + fixed_digits(p.mi, 2) + seq![':']
        + fixed_digits(p.sec, 2) + rfc3339_frac(p) + rfc3339_off_text(p)
}

/// The shift east of UTC the offset text denotes, in seconds.
pub open spec fn rfc3339_off_secs(p: Rfc3339Parts) -> int {
    if p.zulu {
        0
    } else if p.neg {
        -(p.oh * 3600 + p.om * 60)
    } else {
        p.oh * 3600 + p.om * 60
    }
}

/// The instant's second count: the local civil reading shifted back by
/// the offset.  A displayed second of 60 is the leap second at the end
/// of second 59.
pub open spec fn rfc3339_secs(p: Rfc3339Parts) -> int {
    days_from_ymd(p.y, p.m, p.d) * 86400 + p.h * 3600 + p.mi * 60 + (if p.sec == 60 {
        59int
    } else {
        p.sec
    }) - rfc3339_off_secs(p)
}

/// The instant's nanosecond field; a leap second adds a whole second.
pub open spec fn rfc3339_nsecs(p: Rfc3339Parts) -> int {
    p.nano + if p.sec == 60 {
        1000000000int
    } else {
        0int
    }
}

/// Length of the fraction text.
pub open spec fn rfc3339_frac_len(p: Rfc3339Parts) -> int {
    if p.nd == 0 {
        0
    } else {
        p.nd + 1int
    }
}

/// Where every piece of a rendered timestamp lies.
pub proof fn lemma_rfc3339_layout(p: Rfc3339Parts)
    requires
        rfc3339_parts_wf(p),
    ensures
        ({
            let s = rfc3339_render(p);
            let fl = rfc3339_frac_len(p);
            &&& s.len() == 19 + fl + if p.zulu {
                1int
            } else {
                6int
            }
            &&& s.subrange(0, 4) == fixed_digits(p.y, 4)
            &&& s[4] == '-'
            &&& s.subrange(5, 7) == fixed_digits(p.m, 2)
            &&& s[7] == '-'
            &&& s.subrange(8, 10) == fixed_digits(p.d, 2)
            &&& s[10] == p.sep
            &&& s.subrange(11, 13) == fixed_digits(p.h, 2)
            &&& s[13] == ':'
            &&& s.subrange(14, 16) == fixed_digits(p.mi, 2)
            &&& s[16] == ':'
            &&& s.subrange(17, 19) == fixed_digits(p.sec, 2)
            &&& (p.nd > 0 ==> s[19] == '.' && s.subrange(20, 20 + p.nd as int) == fixed_digits(
                p.nano / pow10((9 - p.nd) as nat),
                p.nd,
            ))
            &&& (p.zulu ==> s[19 + fl] == if p.zlow {
                'z'
            } else {
                'Z'
            })
            &&& (!p.zulu ==> s[19 + fl] == (if p.neg {
                '-'
            } else {
                '+'
            }) && s.subrange(20 + fl, 22 + fl) == fixed_digits(p.oh, 2) && s[22 + fl] == ':'
                && s.subrange(23 + fl, 25 + fl) == fixed_digits(p.om, 2))
        }),
{
    lemma_fixed_digits_len(p.y, 4);
    lemma_fixed_digits_len(p.m, 2);
    lemma_fixed_digits_len(p.d, 2);
    lemma_fixed_digits_len(p.h, 2);
    lemma_fixed_digits_len(p.mi, 2);
    lemma_fixed_digits_len(p.sec, 2);
    lemma_fixed_digits_len(p.oh, 2);
    lemma_fixed_digits_len(p.om, 2);
    if p.nd > 0 {
        lemma_fixed_digits_len(p.nano / pow10((9 - p.nd) as nat), p.nd);
    }
    let s = rfc3339_render(p);
    let fl = rfc3339_frac_len(p);
    assert(s.subrange(0, 4) =~= fixed_digits(p.y, 4));
    assert(s.subrange(5, 7) =~= fixed_digits(p.m, 2));
    assert(s.subrange(8, 10) =~= fixed_digits(p.d, 2));
    assert(s.subrange(11, 13) =~= fixed_digits(p.h, 2));
    assert(s.subrange(14, 16) =~= fixed_digits(p.mi, 2));
    assert(s.subrange(17, 19) =~= fixed_digits(p.sec, 2));
    if p.nd > 0 {
        assert(s.subrange(20, 20 + p.nd as int) =~= fixed_digits(p.nano / pow10((9 - p.nd) as nat), p.nd));
    }
    if !p.zulu {
        assert(s.subrange(20 + fl, 22 + fl) =~= fixed_digits(p.oh, 2));
        assert(s.subrange(23 + fl, 25 + fl) =~= fixed_digits(p.om, 2));
    }
}

/// The instant of a valid timestamp is always representable.
pub proof fn lemma_rfc3339_secs_range(p: Rfc3339Parts)
    requires
        rfc3339_parts_wf(p),
    ensures
        MIN_SECS + 86400 <= rfc3339_secs(p) <= MAX_SECS - 86400,
        0 <= rfc3339_nsecs(p) < 2000000000,
{
    lemma_civil_within_year(p.y, p.m, p.d);
    lemma_days_before_year_mono(0, p.y);
    lemma_days_before_year_mono(p.y + 1, 10000);
    assert(crate::calendar::days_before_year(0) == 0);
    assert(crate::calendar::days_before_year(10000) == 3652425);
}


/// `p` is a valid bundle of choices whose rendering is exactly `t`.
pub open spec fn rfc3339_match(p: Rfc3339Parts, t: Seq<char>) -> bool {
    rfc3339_parts_wf(p) && t == rfc3339_render(p)
}

/// What the parser promises about its three return values, for input
/// text `t`.
pub open spec fn rfc3339_result_ok(t: Seq<char>, secs: int, nsecs: int, off: int) -> bool {
    exists|p: Rfc3339Parts|
        #[trigger] rfc3339_match(p, t) && secs == rfc3339_secs(p) && nsecs == rfc3339_nsecs(p)
            && off == rfc3339_off_secs(p)
}

/// All characters of a rendered digit group are digits.
proof fn lemma_digits_here(s: Seq<char>, a: int, n: nat, v: int)
    requires
        0 <= a,
        a + n <= s.len(),
        s.subrange(a, a + n) == fixed_digits(v, n),
        0 <= v,
    ensures
        forall|j: int| a <= j < a + n ==> is_digit_char(#[trigger] s[j]),
{
    lemma_fixed_digits_chars(v, n);
    lemma_fixed_digits_len(v, n);
    assert forall|j: int| a <= j < a + n implies is_digit_char(#[trigger] s[j]) by {
        assert(s[j] == s.subrange(a, a + n)[j - a]);
    }
}

/// Two digit groups at the same place hold the same value.
proof fn lemma_group_eq(s: Seq<char>, a: int, n: nat, v1: int, v2: int)
    requires
        0 <= a,
        a + n <= s.len(),
        n <= 9,
        s.subrange(a, a + n) == fixed_digits(v1, n),
        s.subrange(a, a + n) == fixed_digits(v2, n),
        0 <= v1 < pow10(n),
        0 <= v2 < pow10(n),
    ensures
        v1 == v2,
{
    lemma_fixed_digits_injective(v1, v2, n);
}

/// Parse the character form of an ISO-style timestamp into an instant
/// (seconds and nanoseconds since the epoch) and its offset.  Sound and
/// complete for the grammar generated by `rfc3339_render`.
#[verifier::spinoff_prover]
#[verifier::rlimit(100)]
/// The parser's knowledge after the fraction has been consumed: `pos`
/// stands at the offset text and `nano` agrees with the `nd` digits
/// shown (none, when `nd` is zero).
pub open spec fn frac_state(t: Seq<char>, nd: nat, pos: int, nano: int) -> bool {
    &&& pos == 19 + (if nd == 0 {
        0int
    } else {
        nd + 1int
    })
    &&& (nd == 0 ==> nano == 0)
    &&& (nd > 0 ==> nd <= 9 && 19 < t.len() && t[19] == '.' && t.subrange(20, 20 + nd as int)
        == fixed_digits(nano / pow10((9 - nd) as nat), nd) && nano % pow10((9 - nd) as nat) == 0)
    &&& 0 <= nano < 1000000000
}

/// From the parser's certificates, the input is exactly the rendering of
/// the witness bundle.
#[verifier::spinoff_prover]
#[verifier::rlimit(100)]
proof fn lemma_rfc3339_witness(t: Seq<char>, pw: Rfc3339Parts, pos: int)
    requires
        rfc3339_parts_wf(pw),
        pos == 19 + rfc3339_frac_len(pw),
        t.len() == pos + if pw.zulu {
            1int
        } else {
            6int
        },
        t.subrange(0, 4) == fixed_digits(pw.y, 4),
        t[4] == '-',
        t.subrange(5, 7) == fixed_digits(pw.m, 2),
        t[7] == '-',
        t.subrange(8, 10) == fixed_digits(pw.d, 2),
        t[10] == pw.sep,
        t.subrange(11, 13) == fixed_digits(pw.h, 2),
        t[13] == ':',
        t.subrange(14, 16) == fixed_digits(pw.mi, 2),
        t[16] == ':',
        t.subrange(17, 19) == fixed_digits(pw.sec, 2),
        pw.nd > 0 ==> t[19] == '.' && t.subrange(20, 20 + pw.nd as int) == fixed_digits(
            pw.nano / pow10((9 - pw.nd) as nat),
            pw.nd,
        ),
        pw.zulu ==> t[pos] == if pw.zlow {
            'z'
        } else {
            'Z'
        },
        !pw.zulu ==> t[pos] == (if pw.neg {
            '-'
        } else {
            '+'
        }) && t.subrange(pos + 1, pos + 3) == fixed_digits(pw.oh, 2) && t[pos + 3] == ':'
            && t.subrange(pos + 4, pos + 6) == fixed_digits(pw.om, 2),
    ensures
        rfc3339_match(pw, t),
{
    lemma_rfc3339_layout(pw);
    let r = rfc3339_render(pw);
    let fl = rfc3339_frac_len(pw);
    assert forall|i: int| 0 <= i < t.len() implies t[i] == r[i] by {
        if 0 <= i < 4 {
            assert(t[i] == t.subrange(0, 4)[i]);
            assert(r[i] == r.subrange(0, 4)[i]);
        } else if i == 4 || i == 7 || i == 10 || i == 13 || i == 16 {
        } else if 5 <= i < 7 {
            assert(t[i] == t.subrange(5, 7)[i - 5]);
            assert(r[i] == r.subrange(5, 7)[i - 5]);
        } else if 8 <= i < 10 {
            assert(t[i] == t.subrange(8, 10)[i - 8]);
            assert(r[i] == r.subrange(8, 10)[i - 8]);
        } else if 11 <= i < 13 {
            assert(t[i] == t.subrange(11, 13)[i - 11]);
            assert(r[i] == r.subrange(11, 13)[i - 11]);
        } else if 14 <= i < 16 {
            assert(t[i] == t.subrange(14, 16)[i - 14]);
            assert(r[i] == r.subrange(14, 16)[i - 14]);
        } else if 17 <= i < 19 {
            assert(t[i] == t.subrange(17, 19)[i - 17]);
            assert(r[i] == r.subrange(17, 19)[i - 17]);
        } else if i == 19 && pw.nd > 0 {
        } else if 20 <= i < 20 + pw.nd {
            assert(t[i] == t.subrange(20, 20 + pw.nd as int)[i - 20]);
            assert(r[i] == r.subrange(20, 20 + pw.nd as int)[i - 20]);
        } else if i == pos {
        } else if !pw.zulu && pos + 1 <= i < pos + 3 {
            assert(t[i] == t.subrange(pos + 1, pos + 3)[i - (pos + 1)]);
            assert(r[i] == r.subrange(20 + fl, 22 + fl)[i - (pos + 1)]);
        } else if !pw.zulu && i == pos + 3 {
        } else if !pw.zulu && pos + 4 <= i < pos + 6 {
            assert(t[i] == t.subrange(pos + 4, pos + 6)[i - (pos + 4)]);
            assert(r[i] == r.subrange(23 + fl, 25 + fl)[i - (pos + 4)]);
        }
    }
    assert(t =~= r);
}

/// Read and validate the fixed nineteen-character core
/// `YYYY-MM-DDsHH:MM:SS`.
#[verifier::spinoff_prover]
#[verifier::rlimit(100)]
fn parse_rfc3339_core(s: &Vec<char>) -> (r: Result<(u32, u32, u32, u32, u32, u32), ParseError>)
    ensures
        match r {
            Ok(v) => {
                &&& s@.len() >= 20
                &&& v.0 <= 9999 && 1 <= v.1 <= 12 && 1 <= v.2 <= days_in_month(
                    v.0 as int,
                    v.1 as int,
                )
                &&& v.3 <= 23 && v.4 <= 59 && v.5 <= 60
                &&& s@.subrange(0, 4) == fixed_digits(v.0 as int, 4)
                &&& s@.subrange(5, 7) == fixed_digits(v.1 as int, 2)
                &&& s@.subrange(8, 10) == fixed_digits(v.2 as int, 2)
                &&& s@.subrange(11, 13) == fixed_digits(v.3 as int, 2)
                &&& s@.subrange(14, 16) == fixed_digits(v.4 as int, 2)
                &&& s@.subrange(17, 19) == fixed_digits(v.5 as int, 2)
                &&& s@[4] == '-' && s@[7] == '-' && s@[13] == ':' && s@[16] == ':'
                &&& (s@[10] == 'T' || s@[10] == 't' || s@[10] == ' ')
            },
            Err(e) => forall|p: Rfc3339Parts| !rfc3339_match(p, s@),
        },
        forall|p: Rfc3339Parts|
            #[trigger] rfc3339_match(p, s@) ==> (r matches Ok(v) && p.y == v.0 && p.m == v.1 && p.d
                == v.2 && p.h == v.3 && p.mi == v.4 && p.sec == v.5),
{
    let len = s.len();
    proof {
        reveal_with_fuel(pow10, 11);
    }
    if len < 20 {
        proof {
            assert forall|p: Rfc3339Parts| !rfc3339_match(p, s@) by {
                if rfc3339_match(p, s@) {
                    lemma_rfc3339_layout(p);
                }
            }
        }
        return Err(ParseError::TooShort);
    }
    let oy = read_digits(s, 0, 4);
    let om_ = read_digits(s, 5, 2);
    let od = read_digits(s, 8, 2);
    let oh_ = read_digits(s, 11, 2);
    let omi = read_digits(s, 14, 2);
    let osec = read_digits(s, 17, 2);
    let sep_ok = s[10] == 'T' || s[10] == 't' || s[10] == ' ';
    let marks_ok = s[4] == '-' && s[7] == '-' && sep_ok && s[13] == ':' && s[16] == ':';
    match (oy, om_, od, oh_, omi, osec) {
        (Some(y), Some(m), Some(d), Some(h), Some(mi), Some(sec)) => {
            proof {
                assert forall|p: Rfc3339Parts| #[trigger] rfc3339_match(p, s@) implies p.y == y
                    && p.m == m && p.d == d && p.h == h && p.mi == mi && p.sec == sec
                    && marks_ok by {
                    lemma_rfc3339_layout(p);
                    lemma_group_eq(s@, 0, 4, p.y, y as int);
                    lemma_group_eq(s@, 5, 2, p.m, m as int);
                    lemma_group_eq(s@, 8, 2, p.d, d as int);
                    lemma_group_eq(s@, 11, 2, p.h, h as int);
                    lemma_group_eq(s@, 14, 2, p.mi, mi as int);
                    lemma_group_eq(s@, 17, 2, p.sec, sec as int);
                }
            }
            if !marks_ok {
                return Err(ParseError::Invalid);
            }
            if m < 1 || m > 12 || h > 23 || mi > 59 || sec > 60 {
                return Err(ParseError::OutOfRange);
            }
            let dim = days_in_month_x(y as i64, m as u8);
            if d < 1 || d > dim as u32 {
                return Err(ParseError::OutOfRange);
            }
            Ok((y, m, d, h, mi, sec))
        },
        _ => {
            proof {
                assert forall|p: Rfc3339Parts| !rfc3339_match(p, s@) by {
                    if rfc3339_match(p, s@) {
                        lemma_rfc3339_layout(p);
                        lemma_digits_here(s@, 0, 4, p.y);
                        lemma_digits_here(s@, 5, 2, p.m);
                        lemma_digits_here(s@, 8, 2, p.d);
                        lemma_digits_here(s@, 11, 2, p.h);
                        lemma_digits_here(s@, 14, 2, p.mi);
                        lemma_digits_here(s@, 17, 2, p.sec);
                    }
                }
            }
            Err(ParseError::Invalid)
        },
    }
}

/// Read the optional fraction starting at position 19; returns the
/// position of the offset text, the nanosecond value, and the digit
/// count shown.
#[verifier::spinoff_prover]
#[verifier::rlimit(100)]
fn parse_rfc3339_frac(s: &Vec<char>) -> (r: Result<(usize, u32, Ghost<nat>), ParseError>)
    requires
        s@.len() >= 20,
    ensures
        match r {
            Ok(v) => {
                &&& frac_state(s@, v.2@, v.0 as int, v.1 as int)
                &&& v.0 <= s@.len()
                &&& forall|p: Rfc3339Parts|
                    #[trigger] rfc3339_match(p, s@) ==> p.nano == v.1 && p.nd == v.2@ && 19
                        + rfc3339_frac_len(p) == v.0
            },
            Err(e) => forall|p: Rfc3339Parts| !rfc3339_match(p, s@),
        },
{
    let len = s.len();
    proof {
        reveal_with_fuel(pow10, 11);
    }
    if s[19] != '.' {
        proof {
            assert forall|p: Rfc3339Parts| #[trigger] rfc3339_match(p, s@) implies p.nano == 0
                && p.nd == 0nat && 19 + rfc3339_frac_len(p) == 19 by {
                lemma_rfc3339_layout(p);
                if p.nd > 0 {
                    assert(s@[19] == '.');
                }
            }
        }
        return Ok((19, 0, Ghost(0nat)));
    }
    let cnt = count_digits(s, 20);
    proof {
        assert forall|p: Rfc3339Parts| #[trigger] rfc3339_match(p, s@) implies p.nd == cnt
            && p.nd > 0 by {
            lemma_rfc3339_layout(p);
            if p.nd == 0 {
                assert(s@[19] != '.');
            } else {
                lemma_digits_here(s@, 20, p.nd, p.nano / pow10((9 - p.nd) as nat));
                if cnt < p.nd {
                    assert(is_digit_char(s@[20 + cnt]));
                }
                if cnt > p.nd {
                    assert(is_digit_char(s@[20 + p.nd as int]));
                    assert(s@[19 + rfc3339_frac_len(p)] == s@[20 + p.nd as int]);
                }
            }
        }
    }
    if cnt == 0 || cnt > 9 {
        proof {
            assert forall|p: Rfc3339Parts| !rfc3339_match(p, s@) by {
                if rfc3339_match(p, s@) {
                    assert(p.nd == cnt && 1 <= p.nd <= 9);
                }
            }
        }
        return Err(ParseError::Invalid);
    }
    let v = match read_digits(s, 20, cnt) {
        Some(v) => v,
        None => {
            proof {
                assert(false);
            }
            return Err(ParseError::Invalid);
        },
    };
    proof {
        lemma_pow10_bound(cnt as nat);
        lemma_pow10_mono(cnt as nat, 9);
        crate::text::lemma_pow10_pos((9 - cnt) as nat);
        lemma_pow10_split(cnt as nat, (9 - cnt) as nat);
        assert(v * pow10((9 - cnt) as nat) < pow10(cnt as nat) * pow10((9 - cnt) as nat))
            by (nonlinear_arith)
            requires
                v < pow10(cnt as nat),
                pow10((9 - cnt) as nat) >= 1,
        {}
    }
    let nano = v * pow10_x(9 - cnt);
    proof {
        vstd::arithmetic::div_mod::lemma_fundamental_div_mod_converse(
            nano as int,
            pow10((9 - cnt) as nat),
            v as int,
            0,
        );
        assert forall|p: Rfc3339Parts| #[trigger] rfc3339_match(p, s@) implies p.nano == nano && 19
            + rfc3339_frac_len(p) == 20 + cnt by {
            lemma_rfc3339_layout(p);
            crate::text::lemma_pow10_pos((9 - p.nd) as nat);
            lemma_pow10_split(p.nd, (9 - p.nd) as nat);
            vstd::arithmetic::div_mod::lemma_fundamental_div_mod(p.nano, pow10((9 - p.nd) as nat));
            vstd::arithmetic::div_mod::lemma_mod_bound(p.nano, pow10((9 - p.nd) as nat));
            vstd::arithmetic::div_mod::lemma_div_pos_is_pos(p.nano, pow10((9 - p.nd) as nat));
            let q = p.nano / pow10((9 - p.nd) as nat);
            assert(q < pow10(p.nd)) by (nonlinear_arith)
                requires
                    p.nano == pow10((9 - p.nd) as nat) * q + p.nano % pow10((9 - p.nd) as nat),
                    0 <= p.nano % pow10((9 - p.nd) as nat),
                    p.nano < pow10(p.nd) * pow10((9 - p.nd) as nat),
                    pow10((9 - p.nd) as nat) >= 1,
                    q >= 0,
            {
                if q >= pow10(p.nd) {
                    assert(pow10((9 - p.nd) as nat) * q >= pow10((9 - p.nd) as nat) * pow10(p.nd));
                }
            }
            lemma_group_eq(s@, 20, p.nd, q, v as int);
            assert(p.nano == pow10((9 - p.nd) as nat) * q);
            assert(pow10((9 - cnt) as nat) * (v as int) == (v as int) * pow10((9 - cnt) as nat))
                by (nonlinear_arith)
            {}
        }
        assert(frac_state(s@, cnt as nat, 20 + cnt, nano as int));
    }
    Ok((20 + cnt, nano, Ghost(cnt as nat)))
}

/// Parse the character form of an ISO-style timestamp into an instant
/// (seconds and nanoseconds since the epoch) and its offset.  Sound and
/// complete for the grammar generated by `rfc3339_render`: an input is
/// accepted exactly when it is the rendering of a valid choice bundle,
/// and then denotes that bundle's instant.
#[verifier::spinoff_prover]
#[verifier::rlimit(100)]
pub fn parse_rfc3339_fields(s: &Vec<char>) -> (r: Result<(i64, u32, i32), ParseError>)
    ensures
        match r {
            Ok(v) => {
                &&& rfc3339_result_ok(s@, v.0 as int, v.1 as int, v.2 as int)
                &&& MIN_SECS <= v.0 <= MAX_SECS
                &&& v.1 < 2000000000
                &&& -86400 < v.2 < 86400
            },
            Err(e) => true,
        },
        forall|p: Rfc3339Parts|
            #[trigger] rfc3339_match(p, s@) ==> (r matches Ok(v) && v.0 == rfc3339_secs(p) && v.1
                == rfc3339_nsecs(p) && v.2 == rfc3339_off_secs(p)),
{
    let len = s.len();
    proof {
        reveal_with_fuel(pow10, 11);
    }
    let (y, m, d, h, mi, sec) = match parse_rfc3339_core(s) {
        Ok(v) => v,
        Err(e) => {
            return Err(e);
        },
    };
    let (pos, nano, gnd) = match parse_rfc3339_frac(s) {
        Ok(v) => v,
        Err(e) => {
            return Err(e);
        },
    };
    if pos >= len {
        proof {
            assert forall|p: Rfc3339Parts| !rfc3339_match(p, s@) by {
                if rfc3339_match(p, s@) {
                    lemma_rfc3339_layout(p);
                }
            }
        }
        return Err(ParseError::TooShort);
    }
    let c = s[pos];
    if c == 'Z' || c == 'z' {
        if pos + 1 != len {
            proof {
                assert forall|p: Rfc3339Parts| !rfc3339_match(p, s@) by {
                    if rfc3339_match(p, s@) {
                        lemma_rfc3339_layout(p);
                    }
                }
            }
            return Err(ParseError::TooLong);
        }
        let out = finish_rfc3339(y, m as u8, d as u8, h, mi, sec, nano, 0);
        proof {
            assert forall|p: Rfc3339Parts| #[trigger] rfc3339_match(p, s@) implies out.0
                == rfc3339_secs(p) && out.1 == rfc3339_nsecs(p) && 0 == rfc3339_off_secs(p) by {
                lemma_rfc3339_layout(p);
                assert(p.zulu);
            }
            let ghost pw = Rfc3339Parts {
                y: y as int,
                m: m as int,
                d: d as int,
                h: h as int,
                mi: mi as int,
                sec: sec as int,
                nano: nano as int,
                nd: gnd@,
                sep: s@[10],
                zulu: true,
                zlow: (s@[pos as int] == 'z'),
                neg: false,
                oh: 0,
                om: 0,
            };
            lemma_rfc3339_witness(s@, pw, pos as int);
            assert(rfc3339_result_ok(s@, out.0 as int, out.1 as int, 0)) by {
                assert(rfc3339_match(pw, s@));
            }
        }
        return Ok((out.0, out.1, 0));
    }
    if c != '+' && c != '-' {
        proof {
            assert forall|p: Rfc3339Parts| !rfc3339_match(p, s@) by {
                if rfc3339_match(p, s@) {
                    lemma_rfc3339_layout(p);
                }
            }
        }
        return Err(ParseError::Invalid);
    }
    if pos + 6 != len {
        proof {
            assert forall|p: Rfc3339Parts| !rfc3339_match(p, s@) by {
                if rfc3339_match(p, s@) {
                    lemma_rfc3339_layout(p);
                }
            }
        }
        return Err(
            if pos + 6 > len {
                ParseError::TooShort
            } else {
                ParseError::TooLong
            },
        );
    }
    let oh = match read_digits(s, pos + 1, 2) {
        Some(v) => v,
        None => {
            proof {
                assert forall|p: Rfc3339Parts| !rfc3339_match(p, s@) by {
                    if rfc3339_match(p, s@) {
                        lemma_rfc3339_layout(p);
                        lemma_digits_here(s@, 20 + rfc3339_frac_len(p), 2, p.oh);
                    }
                }
            }
            return Err(ParseError::Invalid);
        },
    };
    let om = match read_digits(s, pos + 4, 2) {
        Some(v) => v,
        None => {
            proof {
                assert forall|p: Rfc3339Parts| !rfc3339_match(p, s@) by {
                    if rfc3339_match(p, s@) {
                        lemma_rfc3339_layout(p);
                        lemma_digits_here(s@, 23 + rfc3339_frac_len(p), 2, p.om);
                    }
                }
            }
            return Err(ParseError::Invalid);
        },
    };
    proof {
        assert forall|p: Rfc3339Parts| #[trigger] rfc3339_match(p, s@) implies !p.zulu && p.oh
            == oh && p.om == om && p.neg == (c == '-') by {
            lemma_rfc3339_layout(p);
            lemma_group_eq(s@, 20 + rfc3339_frac_len(p), 2, p.oh, oh as int);
            lemma_group_eq(s@, 23 + rfc3339_frac_len(p), 2, p.om, om as int);
        }
    }
    if s[pos + 3] != ':' || oh > 23 || om > 59 {
        proof {
            assert forall|p: Rfc3339Parts| !rfc3339_match(p, s@) by {
                if rfc3339_match(p, s@) {
                    lemma_rfc3339_layout(p);
                }
            }
        }
        return Err(ParseError::OutOfRange);
    }
    let off: i32 = if c == '-' {
        -((oh * 3600 + om * 60) as i32)
    } else {
        (oh * 3600 + om * 60) as i32
    };
    let out = finish_rfc3339(y, m as u8, d as u8, h, mi, sec, nano, off);
    proof {
        assert forall|p: Rfc3339Parts| #[trigger] rfc3339_match(p, s@) implies out.0
            == rfc3339_secs(p) && out.1 == rfc3339_nsecs(p) && off == rfc3339_off_secs(p) by {
            lemma_rfc3339_layout(p);
        }
        let ghost pw = Rfc3339Parts {
            y: y as int,
            m: m as int,
            d: d as int,
            h: h as int,
            mi: mi as int,
            sec: sec as int,
            nano: nano as int,
            nd: gnd@,
            sep: s@[10],
            zulu: false,
            zlow: false,
            neg: (c == '-'),
            oh: oh as int,
            om: om as int,
        };
        lemma_rfc3339_witness(s@, pw, pos as int);
        assert(rfc3339_result_ok(s@, out.0 as int, out.1 as int, off as int)) by {
            assert(rfc3339_match(pw, s@));
        }
    }
    Ok((out.0, out.1, off))
}


pub(crate) fn finish_rfc3339(y: u32, m: u8, d: u8, h: u32, mi: u32, sec: u32, nano: u32, off: i32) -> (r: (
    i64,
    u32,
))
    requires
        y <= 9999,
        1 <= m <= 12,
        1 <= d <= days_in_month(y as int, m as int),
        h <= 23,
        mi <= 59,
        sec <= 60,
        nano < 1000000000,
        -86400 < off < 86400,
    ensures
        r.0 == days_from_ymd(y as int, m as int, d as int) * 86400 + h * 3600 + mi * 60 + (
        if sec == 60 {
            59int
        } else {
            sec as int
        }) - off,
        r.1 == nano + if sec == 60 {
            1000000000int
        } else {
            0int
        },
        MIN_SECS <= r.0 <= MAX_SECS,
        r.1 < 2000000000,
{
    proof {
        lemma_civil_within_year(y as int, m as int, d as int);
        lemma_days_before_year_mono(0, y as int);
        lemma_days_before_year_mono(y as int + 1, 10000);
        assert(crate::calendar::days_before_year(0) == 0);
        assert(crate::calendar::days_before_year(10000) == 3652425);
    }
    let days = ymd_to_days(y as i64, m, d);
    let se: u32 = if sec == 60 {
        59
    } else {
        sec
    };
    let secs = days * 86400 + (h * 3600 + mi * 60 + se) as i64 - off as i64;
    let nsecs = nano + if sec == 60 {
        1000000000
    } else {
        0
    };
    (secs, nsecs)
}

/// Powers of ten multiply by adding exponents.
proof fn lemma_pow10_split(a: nat, b: nat)
    ensures
        pow10(a) * pow10(b) == pow10((a + b) as nat),
    decreases a,
{
    if a == 0 {
        assert(pow10(0) == 1);
    } else {
        lemma_pow10_split((a - 1) as nat, b);
        assert(pow10(a) == 10 * pow10((a - 1) as nat));
        assert(pow10(a) * pow10(b) == 10 * (pow10((a - 1) as nat) * pow10(b))) by (nonlinear_arith)
            requires
                pow10(a) == 10 * pow10((a - 1) as nat),
        {}
    }
}


/// How sub-second digits are rendered.
#[derive(Clone, Copy, PartialEq, Eq, Structural, Debug)]
pub enum SecondsFormat {
    /// No sub-second digits.
    Secs,
    /// Exactly three digits (the nanoseconds truncated to milliseconds).
    Millis,
    /// Exactly six digits (truncated to microseconds).
    Micros,
    /// All nine digits.
    Nanos,
    /// As many digits as SI prefixes need: none, three, six or nine.
    AutoSi,
}

/// The fraction a format policy displays for sub-second value `dn`:
/// the value kept and the digit count shown.
pub open spec fn frac_display(sf: SecondsFormat, dn: int) -> (int, nat) {
    match sf {
        SecondsFormat::Secs => (0int, 0nat),
        SecondsFormat::Millis => (dn / 1000000 * 1000000, 3nat),
        SecondsFormat::Micros => (dn / 1000 * 1000, 6nat),
        SecondsFormat::Nanos => (dn, 9nat),
        SecondsFormat::AutoSi => if dn == 0 {
            (0int, 0nat)
        } else if dn % 1000000 == 0 {
            (dn, 3nat)
        } else if dn % 1000 == 0 {
            (dn, 6nat)
        } else {
            (dn, 9nat)
        },
    }
}

/// An offset rounded to whole minutes, half away from zero.
pub open spec fn round_to_minute(off: int) -> int {
    if off >= 0 {
        (off + 30) / 60 * 60
    } else {
        -((-off + 30) / 60 * 60)
    }
}

/// Render a bundle of choices with an uppercase separator and Zulu
/// letter; the output is exactly the bundle's text.
#[verifier::spinoff_prover]
#[verifier::rlimit(100)]
fn render_rfc3339(
    y: u32,
    m: u8,
    d: u8,
    h: u32,
    mi: u32,
    sec: u32,
    nano: u32,
    nd: usize,
    zulu: bool,
    neg: bool,
    oh: u32,
    om: u32,
) -> (r: String)
    requires
        y <= 9999,
        1 <= m <= 12,
        d as int <= days_in_month(y as int, m as int),
        1 <= d,
        h <= 23,
        mi <= 59,
        sec <= 60,
        nano < 1000000000,
        nd <= 9,
        nd == 0 ==> nano == 0,
        nd > 0 ==> nano as int % pow10((9 - nd) as nat) == 0,
        zulu ==> !neg && oh == 0 && om == 0,
        oh <= 23,
        om <= 59,
    ensures
        ({
            let p = Rfc3339Parts {
                y: y as int,
                m: m as int,
                d: d as int,
                h: h as int,
                mi: mi as int,
                sec: sec as int,
                nano: nano as int,
                nd: nd as nat,
                sep: 'T',
                zulu: zulu,
                zlow: false,
                neg: neg,
                oh: oh as int,
                om: om as int,
            };
            rfc3339_match(p, r@)
        }),
{
    let ghost p = Rfc3339Parts {
        y: y as int,
        m: m as int,
        d: d as int,
        h: h as int,
        mi: mi as int,
        sec: sec as int,
        nano: nano as int,
        nd: nd as nat,
        sep: 'T',
        zulu: zulu,
        zlow: false,
        neg: neg,
        oh: oh as int,
        om: om as int,
    };
    proof {
        reveal_with_fuel(pow10, 11);
        reveal_strlit("-");
        reveal_strlit("T");
        reveal_strlit(":");
        reveal_strlit(".");
        reveal_strlit("Z");
        reveal_strlit("+");
    }
    let mut out = String::new();
    push_digits(&mut out, y, 4);
    out.append("-");
    push_digits(&mut out, m as u32, 2);
    out.append("-");
    push_digits(&mut out, d as u32, 2);
    out.append("T");
    push_digits(&mut out, h, 2);
    out.append(":");
    push_digits(&mut out, mi, 2);
    out.append(":");
    push_digits(&mut out, sec, 2);
    if nd > 0 {
        let scale = pow10_x(9 - nd);
        proof {
            crate::text::lemma_pow10_pos((9 - nd) as nat);
            lemma_pow10_split(nd as nat, (9 - nd) as nat);
            vstd::arithmetic::div_mod::lemma_fundamental_div_mod(
                nano as int,
                pow10((9 - nd) as nat),
            );
            vstd::arithmetic::div_mod::lemma_div_pos_is_pos(nano as int, pow10((9 - nd) as nat));
            let q = nano as int / pow10((9 - nd) as nat);
            assert(q < pow10(nd as nat)) by (nonlinear_arith)
                requires
                    nano as int == pow10((9 - nd) as nat) * q + nano as int % pow10(
                        (9 - nd) as nat,
                    ),
                    nano as int % pow10((9 - nd) as nat) == 0,
                    nano < pow10(nd as nat) * pow10((9 - nd) as nat),
                    pow10((9 - nd) as nat) >= 1,
                    q >= 0,
            {
                if q >= pow10(nd as nat) {
                    assert(pow10((9 - nd) as nat) * q >= pow10((9 - nd) as nat) * pow10(
                        nd as nat,
                    ));
                }
            }
        }
        let v = nano / scale;
        out.append(".");
        push_digits(&mut out, v, nd);
    }
    if zulu {
        out.append("Z");
    } else {
        if neg {
            out.append("-");
        } else {
            out.append("+");
        }
        push_digits(&mut out, oh, 2);
        out.append(":");
        push_digits(&mut out, om, 2);
    }
    proof {
        assert("-"@ =~= seq!['-']);
        assert("T"@ =~= seq!['T']);
        assert(":"@ =~= seq![':']);
        assert("."@ =~= seq!['.']);
        assert("Z"@ =~= seq!['Z']);
        assert("+"@ =~= seq!['+']);
        assert(out@ =~= rfc3339_render(p));
    }
    out
}

impl<Tz: TimeZone> DateTime<Tz> {
    /// The ISO-style text of this instant, with the given sub-second
    /// policy, and a Zulu marker instead of `+00:00` when `use_z` is set
    /// and the shift is zero.  The local year must have four digits, and
    /// the shift (which is rounded to whole minutes for display) must not
    /// round to a full day.
    #[verifier::spinoff_prover]
    #[verifier::rlimit(100)]
    pub fn to_rfc3339_opts(&self, secform: SecondsFormat, use_z: bool) -> (r: String)
        requires
            self.wf(),
            forall|y: int, m: int, d: int|
                crate::calendar::is_civil_of(
                    crate::naive::days_of_secs(self.local_secs()),
                    y,
                    m,
                    d,
                ) ==> 0 <= y <= 9999,
            -86369 <= self.offset.spec_shift(self.datetime.secs as int) <= 86369,
        ensures
            exists|p: Rfc3339Parts|
                {
                    let shift = self.offset.spec_shift(self.datetime.secs as int);
                    let ell = self.local_secs();
                    let dn = if self.datetime.nsecs >= 1000000000 {
                        self.datetime.nsecs - 1000000000
                    } else {
                        self.datetime.nsecs as int
                    };
                    &&& #[trigger] rfc3339_match(p, r@)
                    &&& crate::calendar::is_civil_of(
                        crate::naive::days_of_secs(ell),
                        p.y,
                        p.m,
                        p.d,
                    )
                    &&& p.h == crate::naive::sod_of_secs(ell) / 3600
                    &&& p.mi == crate::naive::sod_of_secs(ell) % 3600 / 60
                    &&& p.sec == crate::naive::sod_of_secs(ell) % 60 + if self.datetime.nsecs
                        >= 1000000000 {
                        1int
                    } else {
                        0int
                    }
                    &&& (p.nano, p.nd) == frac_display(secform, dn)
                    &&& p.sep == 'T'
                    &&& !p.zlow
                    &&& p.zulu == (use_z && shift == 0)
                    &&& rfc3339_off_secs(p) == round_to_minute(shift)
                    &&& p.neg == (shift < 0 && !p.zulu)
                },
    {
        let local = self.overflowing_naive_local();
        let (cy, cm, cd) = local.civil();
        let sod = crate::calendar::rem_floor(local.secs, crate::naive::SECS_PER_DAY);
        let (h, mi, se) = crate::naive::split_sod(sod as u32);
        let leap = local.nsecs >= 1000000000;
        let dn: u32 = if leap {
            local.nsecs - 1000000000
        } else {
            local.nsecs
        };
        let sec = if leap {
            se + 1
        } else {
            se
        };
        let (v, nd): (u32, usize) = match secform {
            SecondsFormat::Secs => (0, 0),
            SecondsFormat::Millis => {
                let q = dn / 1000000;
                proof {
                    vstd::arithmetic::div_mod::lemma_fundamental_div_mod(dn as int, 1000000);
                    vstd::arithmetic::div_mod::lemma_mod_bound(dn as int, 1000000);
                    vstd::arithmetic::div_mod::lemma_div_pos_is_pos(dn as int, 1000000);
                    vstd::arithmetic::div_mod::lemma_fundamental_div_mod_converse(
                        (q * 1000000) as int,
                        1000000,
                        q as int,
                        0,
                    );
                }
                (q * 1000000, 3)
            },
            SecondsFormat::Micros => {
                let q = dn / 1000;
                proof {
                    vstd::arithmetic::div_mod::lemma_fundamental_div_mod(dn as int, 1000);
                    vstd::arithmetic::div_mod::lemma_mod_bound(dn as int, 1000);
                    vstd::arithmetic::div_mod::lemma_div_pos_is_pos(dn as int, 1000);
                    vstd::arithmetic::div_mod::lemma_fundamental_div_mod_converse(
                        (q * 1000) as int,
                        1000,
                        q as int,
                        0,
                    );
                }
                (q * 1000, 6)
            },
            SecondsFormat::Nanos => {
                proof {
                    vstd::arithmetic::div_mod::lemma_mod_bound(dn as int, 1);
                }
                (dn, 9)
            },
            SecondsFormat::AutoSi => {
                proof {
                    vstd::arithmetic::div_mod::lemma_mod_bound(dn as int, 1);
                }
                if dn == 0 {
                    (0, 0)
                } else if dn % 1000000 == 0 {
                    (dn, 3)
                } else if dn % 1000 == 0 {
                    (dn, 6)
                } else {
                    (dn, 9)
                }
            },
        };
        let off = self.offset.offset_at(&self.datetime);
        let shift = off.local_minus_utc;
        let zulu = use_z && shift == 0;
        let a: u32 = if shift < 0 {
            (-shift) as u32
        } else {
            shift as u32
        };
        let tm = (a + 30) / 60;
        let (oh, om, neg): (u32, u32, bool) = if zulu {
            (0, 0, false)
        } else {
            (tm / 60, tm % 60, shift < 0)
        };
        proof {
            reveal_with_fuel(pow10, 11);
            vstd::arithmetic::div_mod::lemma_fundamental_div_mod((a + 30) as int, 60);
            vstd::arithmetic::div_mod::lemma_fundamental_div_mod(tm as int, 60);
            vstd::arithmetic::div_mod::lemma_mod_bound(tm as int, 60);
            vstd::arithmetic::div_mod::lemma_fundamental_div_mod(dn as int, 1000000);
            vstd::arithmetic::div_mod::lemma_fundamental_div_mod(dn as int, 1000);
            vstd::arithmetic::div_mod::lemma_mod_bound(dn as int, 1000000);
            vstd::arithmetic::div_mod::lemma_mod_bound(dn as int, 1000);
            vstd::arithmetic::div_mod::lemma_div_pos_is_pos(dn as int, 1000000);
            vstd::arithmetic::div_mod::lemma_div_pos_is_pos(dn as int, 1000);
        }
        let out = render_rfc3339(cy as u32, cm, cd, h, mi, sec, v, nd, zulu, neg, oh, om);
        proof {
            let ghost p = Rfc3339Parts {
                y: cy as int,
                m: cm as int,
                d: cd as int,
                h: h as int,
                mi: mi as int,
                sec: sec as int,
                nano: v as int,
                nd: nd as nat,
                sep: 'T',
                zulu: zulu,
                zlow: false,
                neg: neg,
                oh: oh as int,
                om: om as int,
            };
            assert(rfc3339_match(p, out@));
            assert(rfc3339_off_secs(p) == round_to_minute(shift as int)) by {
                if !zulu {
                    assert(oh * 3600 + om * 60 == tm * 60);
                }
            }
        }
        out
    }

    /// The ISO-style text with automatic sub-second digits and a numeric
    /// zero offset.
    pub fn to_rfc3339(&self) -> (r: String)
        requires
            self.wf(),
            forall|y: int, m: int, d: int|
                crate::calendar::is_civil_of(
                    crate::naive::days_of_secs(self.local_secs()),
                    y,
                    m,
                    d,
                ) ==> 0 <= y <= 9999,
            -86369 <= self.offset.spec_shift(self.datetime.secs as int) <= 86369,
        ensures
            exists|p: Rfc3339Parts|
                {
                    let shift = self.offset.spec_shift(self.datetime.secs as int);
                    let ell = self.local_secs();
                    let dn = if self.datetime.nsecs >= 1000000000 {
                        self.datetime.nsecs - 1000000000
                    } else {
                        self.datetime.nsecs as int
                    };
                    &&& #[trigger] rfc3339_match(p, r@)
                    &&& crate::calendar::is_civil_of(
                        crate::naive::days_of_secs(ell),
                        p.y,
                        p.m,
                        p.d,
                    )
                    &&& p.h == crate::naive::sod_of_secs(ell) / 3600
                    &&& p.mi == crate::naive::sod_of_secs(ell) % 3600 / 60
                    &&& p.sec == crate::naive::sod_of_secs(ell) % 60 + if self.datetime.nsecs
                        >= 1000000000 {
                        1int
                    } else {
                        0int
                    }
                    &&& (p.nano, p.nd) == frac_display(SecondsFormat::AutoSi, dn)
                    &&& p.sep == 'T'
                    &&& !p.zlow
                    &&& !p.zulu
                    &&& rfc3339_off_secs(p) == round_to_minute(shift)
                    &&& p.neg == (shift < 0)
                },
    {
        self.to_rfc3339_opts(SecondsFormat::AutoSi, false)
    }
}

impl DateTime<FixedOffset> {
    /// Parse an ISO-style timestamp; the returned value carries the
    /// parsed offset.  An input is accepted exactly when it is a valid
    /// timestamp of the grammar, and then denotes its instant.
    pub fn parse_from_rfc3339(s: &str) -> (r: Result<DateTime<FixedOffset>, ParseError>)
        ensures
            match r {
                Ok(dt) => dt.wf() && rfc3339_result_ok(
                    s@,
                    dt.datetime.secs as int,
                    dt.datetime.nsecs as int,
                    dt.offset.local_minus_utc as int,
                ),
                Err(e) => true,
            },
            forall|p: Rfc3339Parts|
                #[trigger] rfc3339_match(p, s@) ==> (r matches Ok(dt) && dt.datetime.secs
                    == rfc3339_secs(p) && dt.datetime.nsecs == rfc3339_nsecs(p)
                    && dt.offset.local_minus_utc == rfc3339_off_secs(p)),
    {
        let chars = str_to_chars(s);
        match parse_rfc3339_fields(&chars) {
            Ok((secs, nsecs, off)) => Ok(
                DateTime {
                    datetime: NaiveDateTime { secs, nsecs },
                    offset: FixedOffset { local_minus_utc: off },
                },
            ),
            Err(e) => Err(e),
        }
    }
}

impl DateTime<Utc> {
    /// Parse an ISO-style timestamp and read it as UTC: the same grammar
    /// as `parse_from_rfc3339`, with the offset applied and dropped.
    pub fn parse_rfc3339_utc(s: &str) -> (r: Result<DateTime<Utc>, ParseError>)
        ensures
            match r {
                Ok(dt) => dt.wf() && dt.offset == Utc && exists|p: Rfc3339Parts|
                    #[trigger] rfc3339_match(p, s@) && dt.datetime.secs == rfc3339_secs(p)
                        && dt.datetime.nsecs == rfc3339_nsecs(p),
                Err(e) => true,
            },
            forall|p: Rfc3339Parts|
                #[trigger] rfc3339_match(p, s@) ==> (r matches Ok(dt) && dt.datetime.secs
                    == rfc3339_secs(p) && dt.datetime.nsecs == rfc3339_nsecs(p)),
    {
        let chars = str_to_chars(s);
        match parse_rfc3339_fields(&chars) {
            Ok((secs, nsecs, off)) => Ok(
                DateTime { datetime: NaiveDateTime { secs, nsecs }, offset: Utc },
            ),
            Err(e) => Err(e),
        }
    }
}

} // verus!
