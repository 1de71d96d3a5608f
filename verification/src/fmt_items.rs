//! The user-supplied token-sequence format: a caller describes a layout
//! as a sequence of [`Item`] tokens, and the same sequence drives both
//! formatting and strict parsing.

use vstd::prelude::*;
use crate::calendar::{
    days_from_ymd, days_in_month, days_in_month_x, lemma_civil_within_year,
    lemma_days_before_year_mono, ymd_to_days, MAX_SECS, MIN_SECS,
};
use crate::datetime::DateTime;
use crate::naive::NaiveDateTime;
use crate::offset::{FixedOffset, TimeZone, Utc};
use crate::text::{
    count_digits, fixed_digits, is_digit, is_digit_char, lemma_fixed_digits_chars,
    lemma_fixed_digits_injective, lemma_fixed_digits_len, pow10, push_digits, read_digits,
    str_to_chars, ParseError,
};

verus! {

/// A numeric field, always rendered zero-padded: the year with four
/// digits, everything else with two.
#[derive(Clone, Copy, PartialEq, Eq, Structural, Debug)]
pub enum Numeric {
    Year,
    Month,
    Day,
    Hour,
    Minute,
    Second,
}

/// One token of a format description.
#[derive(Clone, Copy, PartialEq, Eq, Structural, Debug)]
pub enum Item {
    /// One fixed character.
    Literal(char),
    /// One space.
    Space,
    /// A zero-padded numeric field.
    Numeric(Numeric),
    /// The offset as `+hh:mm` or `-hh:mm`.
    OffsetColon,
}

/// The field values a format renders.
pub struct FmtFields {
    pub y: int,
    pub m: int,
    pub d: int,
    pub h: int,
    pub mi: int,
    pub sec: int,
    pub neg: bool,
    pub oh: int,
    pub om: int,
}

pub open spec fn fmt_fields_wf(f: FmtFields) -> bool {
    &&& 0 <= f.y <= 9999
    &&& 1 <= f.m <= 12
    &&& 1 <= f.d <= days_in_month(f.y, f.m)
    &&& 0 <= f.h <= 23
    &&& 0 <= f.mi <= 59
    &&& 0 <= f.sec <= 60
    &&& 0 <= f.oh <= 23
    &&& 0 <= f.om <= 59
}

/// The text one token renders to.
pub open spec fn item_text(it: Item, f: FmtFields) -> Seq<char> {
    match it {
        Item::Literal(c) => seq![c],
        Item::Space => seq![' '],
        Item::Numeric(Numeric::Year) => fixed_digits(f.y, 4),
        Item::Numeric(Numeric::Month) => fixed_digits(f.m, 2),
        Item::Numeric(Numeric::Day) => fixed_digits(f.d, 2),
        Item::Numeric(Numeric::Hour) => fixed_digits(f.h, 2),
        Item::Numeric(Numeric::Minute) => fixed_digits(f.mi, 2),
        Item::Numeric(Numeric::Second) => fixed_digits(f.sec, 2),
        Item::OffsetColon => seq![
            if f.neg {
                '-'
            } else {
                '+'
            },
        ] + fixed_digits(f.oh, 2) + seq![':'] + fixed_digits(f.om, 2),
    }
}

/// The text a whole token sequence renders to.
pub open spec fn items_text(items: Seq<Item>, f: FmtFields) -> Seq<char>
    decreases items.len(),
{
    if items.len() == 0 {
        Seq::empty()
    } else {
        item_text(items.first(), f) + items_text(items.drop_first(), f)
    }
}

/// Splitting the rendering at the last token.
pub proof fn lemma_items_snoc(items: Seq<Item>, f: FmtFields)
    requires
        items.len() > 0,
    ensures
        items_text(items, f) == items_text(items.drop_last(), f) + item_text(items.last(), f),
    decreases items.len(),
{
    if items.len() == 1 {
        assert(items.drop_first() =~= Seq::<Item>::empty());
        assert(items.drop_last() =~= Seq::<Item>::empty());
        assert(items_text(items, f) =~= items_text(items.drop_last(), f) + item_text(
            items.last(),
            f,
        ));
    } else {
        lemma_items_snoc(items.drop_first(), f);
        assert(items.drop_first().drop_last() =~= items.drop_last().drop_first());
        assert(items.drop_first().last() == items.last());
        assert(items.drop_last().first() == items.first());
        assert(items_text(items, f) =~= items_text(items.drop_last(), f) + item_text(
            items.last(),
            f,
        ));
    }
}

pub open spec fn has_item(items: Seq<Item>, it: Item) -> bool {
    exists|i: int| 0 <= i < items.len() && items[i] == it
}

/// A format from which an instant can be rebuilt: it must name the date,
/// the clock down to the minute, and the offset.
pub open spec fn fmt_complete(items: Seq<Item>) -> bool {
    &&& has_item(items, Item::Numeric(Numeric::Year))
    &&& has_item(items, Item::Numeric(Numeric::Month))
    &&& has_item(items, Item::Numeric(Numeric::Day))
    &&& has_item(items, Item::Numeric(Numeric::Hour))
    &&& has_item(items, Item::Numeric(Numeric::Minute))
    &&& has_item(items, Item::OffsetColon)
}

pub open spec fn fmt_off_secs(f: FmtFields) -> int {
    if f.neg {
        -(f.oh * 3600 + f.om * 60)
    } else {
        f.oh * 3600 + f.om * 60
    }
}

pub open spec fn fmt_secs(f: FmtFields) -> int {
    days_from_ymd(f.y, f.m, f.d) * 86400 + f.h * 3600 + f.mi * 60 + (if f.sec == 60 {
        59int
    } else {
        f.sec
    }) - fmt_off_secs(f)
}

pub open spec fn fmt_nsecs(f: FmtFields) -> int {
    if f.sec == 60 {
        1000000000int
    } else {
        0int
    }
}


/// Splitting the rendering at an arbitrary token boundary.
pub proof fn lemma_items_split(items: Seq<Item>, f: FmtFields, k: int)
    requires
        0 <= k <= items.len(),
    ensures
        items_text(items, f) == items_text(items.subrange(0, k), f) + items_text(
            items.skip(k),
            f,
        ),
    decreases k,
{
    if k == 0 {
        assert(items.subrange(0, 0) =~= Seq::<Item>::empty());
        assert(items.skip(0) =~= items);
        assert(items_text(items, f) =~= items_text(items.subrange(0, 0), f) + items_text(
            items.skip(0),
            f,
        ));
    } else {
        lemma_items_split(items, f, k - 1);
        lemma_items_snoc(items.subrange(0, k), f);
        assert(items.subrange(0, k).drop_last() =~= items.subrange(0, k - 1));
        assert(items.subrange(0, k).last() == items[k - 1]);
        // one head-unfold of the suffix at k-1
        assert(items.skip(k - 1).first() == items[k - 1]);
        assert(items.skip(k - 1).drop_first() =~= items.skip(k));
        assert(items_text(items.skip(k - 1), f) == item_text(items[k - 1], f) + items_text(
            items.skip(k),
            f,
        ));
        assert(items_text(items, f) =~= items_text(items.subrange(0, k), f) + items_text(
            items.skip(k),
            f,
        ));
    }
}

/// `f` is a valid assignment under which the rendering of `items` is a
/// prefix of `t`.
pub open spec fn items_prefix_match(items: Seq<Item>, t: Seq<char>, f: FmtFields) -> bool {
    &&& fmt_fields_wf(f)
    &&& items_text(items, f).len() <= t.len()
    &&& t.subrange(0, items_text(items, f).len() as int) == items_text(items, f)
}

/// Relies on `String::push`: appends exactly the one character.
#[verifier::external_body]
fn push_char(out: &mut String, c: char)
    ensures
        final(out)@ == old(out)@ + seq![c],
{
    out.push(c);
}

impl<Tz: TimeZone> DateTime<Tz> {
    /// Format this instant by a token sequence: each token renders its
    /// local field, zero-padded.  The local year must have four digits
    /// and must not be negative; the shift is rounded to whole minutes.
    #[verifier::spinoff_prover]
    #[verifier::rlimit(100)]
    #[verifier::loop_isolation(false)]
    pub fn format_with_items(&self, items: &Vec<Item>) -> (r: String)
        requires
            self.wf(),
            forall|y: int, m: int, d: int|
                crate::calendar::is_civil_of(
                    crate::naive::days_of_secs(self.local_secs()),
                    y,
                    m,
                    d,
                ) ==> 0 <= y <= 9999,
            -86369 <= self.offset.spec_shift(self.datetime.secs as int) <= 86369,
        ensures
            exists|f: FmtFields|
                {
                    let shift = self.offset.spec_shift(self.datetime.secs as int);
                    let ell = self.local_secs();
                    &&& fmt_fields_wf(f)
                    &&& r@ == #[trigger] items_text(items@, f)
                    &&& crate::calendar::is_civil_of(
                        crate::naive::days_of_secs(ell),
                        f.y,
                        f.m,
                        f.d,
                    )
                    &&& f.h == crate::naive::sod_of_secs(ell) / 3600
                    &&& f.mi == crate::naive::sod_of_secs(ell) % 3600 / 60
                    &&& f.sec == crate::naive::sod_of_secs(ell) % 60 + if self.datetime.nsecs
                        >= 1000000000 {
                        1int
                    } else {
                        0int
                    }
                    &&& fmt_off_secs(f) == crate::rfc3339::round_to_minute(shift)
                    &&& f.neg == (shift < 0)
                },
    {
        let local = self.overflowing_naive_local();
        let (cy, cm, cd) = local.civil();
        let sod = crate::calendar::rem_floor(local.secs, crate::naive::SECS_PER_DAY);
        let (h, mi, se) = crate::naive::split_sod(sod as u32);
        let leap = local.nsecs >= 1000000000;
        let sec = if leap {
            se + 1
        } else {
            se
        };
        let off = self.offset.offset_at(&self.datetime);
        let shift = off.local_minus_utc;
        let a: u32 = if shift < 0 {
            (-shift) as u32
        } else {
            shift as u32
        };
        let tm = (a + 30) / 60;
        let oh = tm / 60;
        let om = tm % 60;
        let neg = shift < 0;
        proof {
            reveal_with_fuel(pow10, 11);
            vstd::arithmetic::div_mod::lemma_fundamental_div_mod((a + 30) as int, 60);
            vstd::arithmetic::div_mod::lemma_fundamental_div_mod(tm as int, 60);
            vstd::arithmetic::div_mod::lemma_mod_bound(tm as int, 60);
        }
        let ghost f = FmtFields {
            y: cy as int,
            m: cm as int,
            d: cd as int,
            h: h as int,
            mi: mi as int,
            sec: sec as int,
            neg: neg,
            oh: oh as int,
            om: om as int,
        };
        let n = items.len();
        let mut out = String::new();
        let mut i: usize = 0;
        proof {
            assert(items@.subrange(0, 0) =~= Seq::<Item>::empty());
            reveal_strlit(":");
            reveal_strlit("-");
            reveal_strlit("+");
            reveal_strlit(" ");
        }
        while i < n
            invariant
                i <= n,
                n == items@.len(),
                fmt_fields_wf(f),
                out@ == items_text(items@.subrange(0, i as int), f),
            decreases n - i,
        {
            proof {
                lemma_items_snoc(items@.subrange(0, i + 1), f);
                assert(items@.subrange(0, i + 1).drop_last() =~= items@.subrange(0, i as int));
                assert(items@.subrange(0, i + 1).last() == items@[i as int]);
            }
            match items[i] {
                Item::Literal(c) => {
                    push_char(&mut out, c);
                },
                Item::Space => {
                    out.append(" ");
                    proof {
                        assert(" "@ =~= seq![' ']);
                    }
                },
                Item::Numeric(Numeric::Year) => {
                    push_digits(&mut out, cy as u32, 4);
                },
                Item::Numeric(Numeric::Month) => {
                    push_digits(&mut out, cm as u32, 2);
                },
                Item::Numeric(Numeric::Day) => {
                    push_digits(&mut out, cd as u32, 2);
                },
                Item::Numeric(Numeric::Hour) => {
                    push_digits(&mut out, h, 2);
                },
                Item::Numeric(Numeric::Minute) => {
                    push_digits(&mut out, mi, 2);
                },
                Item::Numeric(Numeric::Second) => {
                    push_digits(&mut out, sec, 2);
                },
                Item::OffsetColon => {
                    if neg {
                        out.append("-");
                    } else {
                        out.append("+");
                    }
                    push_digits(&mut out, oh, 2);
                    out.append(":");
                    push_digits(&mut out, om, 2);
                    proof {
                        assert("-"@ =~= seq!['-']);
                        assert("+"@ =~= seq!['+']);
                        assert(":"@ =~= seq![':']);
                    }
                },
            }
            proof {
                assert(out@ =~= items_text(items@.subrange(0, i + 1), f));
            }
            i = i + 1;
        }
        proof {
            assert(items@.subrange(0, n as int) =~= items@);
            assert(fmt_off_secs(f) == crate::rfc3339::round_to_minute(shift as int)) by {
                assert(oh * 3600 + om * 60 == tm * 60);
            }
        }
        out
    }

    /// `format_with_items`, under the name callers reach for first.
    pub fn format(&self, items: &Vec<Item>) -> (r: String)
        requires
            self.wf(),
            forall|y: int, m: int, d: int|
                crate::calendar::is_civil_of(
                    crate::naive::days_of_secs(self.local_secs()),
                    y,
                    m,
                    d,
                ) ==> 0 <= y <= 9999,
            -86369 <= self.offset.spec_shift(self.datetime.secs as int) <= 86369,
        ensures
            exists|f: FmtFields|
                {
                    let shift = self.offset.spec_shift(self.datetime.secs as int);
                    let ell = self.local_secs();
                    &&& fmt_fields_wf(f)
                    &&& r@ == #[trigger] items_text(items@, f)
                    &&& crate::calendar::is_civil_of(
                        crate::naive::days_of_secs(ell),
                        f.y,
                        f.m,
                        f.d,
                    )
                    &&& f.h == crate::naive::sod_of_secs(ell) / 3600
                    &&& f.mi == crate::naive::sod_of_secs(ell) % 3600 / 60
                    &&& f.sec == crate::naive::sod_of_secs(ell) % 60 + if self.datetime.nsecs
                        >= 1000000000 {
                        1int
                    } else {
                        0int
                    }
                    &&& fmt_off_secs(f) == crate::rfc3339::round_to_minute(shift)
                    &&& f.neg == (shift < 0)
                },
    {
        self.format_with_items(items)
    }
}

/// Parse `s` against a token sequence, starting at the beginning.
/// Returns the instant, its offset, and the position after the last
/// token.  Every text that renders from the tokens under a valid field
/// assignment (followed by anything) is accepted, with that assignment's
/// instant.
#[verifier::spinoff_prover]
#[verifier::rlimit(100)]
#[verifier::loop_isolation(false)]
fn parse_items_fields(s: &Vec<char>, items: &Vec<Item>) -> (r: Result<
    (i64, u32, i32, usize),
    ParseError,
>)
    ensures
        match r {
            Ok(v) => {
                &&& MIN_SECS <= v.0 <= MAX_SECS
                &&& v.1 < 2000000000
                &&& -86400 < v.2 < 86400
                &&& v.3 <= s@.len()
            },
            Err(e) => true,
        },
        fmt_complete(items@) ==> forall|f: FmtFields|
            #[trigger] items_prefix_match(items@, s@, f) && (has_item(
                items@,
                Item::Numeric(Numeric::Second),
            ) || f.sec == 0) ==> (r matches Ok(v) && v.0 == fmt_secs(f) && v.1 == fmt_nsecs(f)
                && v.2 == fmt_off_secs(f) && v.3 == items_text(items@, f).len()),
        !has_item(items@, Item::OffsetColon) ==> r is Err,
{
    let len = s.len();
    let n = items.len();
    let mut pos: usize = 0;
    let mut i: usize = 0;
    let mut oy: Option<u32> = None;
    let mut omo: Option<u32> = None;
    let mut od: Option<u32> = None;
    let mut ohh: Option<u32> = None;
    let mut omi: Option<u32> = None;
    let mut osec: Option<u32> = None;
    let mut ooff: Option<i32> = None;
    proof {
        reveal_with_fuel(pow10, 11);
        assert(items@.subrange(0, 0) =~= Seq::<Item>::empty());
    }
    while i < n
        invariant
            i <= n,
            pos <= len,
            n == items@.len(),
            len == s@.len(),
            oy matches Some(v) ==> v <= 9999,
            ohh matches Some(v) ==> v <= 99,
            omo matches Some(v) ==> v <= 99,
            od matches Some(v) ==> v <= 99,
            omi matches Some(v) ==> v <= 99,
            osec matches Some(v) ==> v <= 99,
            ooff matches Some(o) ==> -86400 < o < 86400,
            ooff is Some ==> has_item(items@.subrange(0, i as int), Item::OffsetColon),
            forall|f: FmtFields|
                #[trigger] items_prefix_match(items@, s@, f) ==> {
                    &&& pos == items_text(items@.subrange(0, i as int), f).len()
                    &&& (oy matches Some(v) ==> v == f.y)
                    &&& (has_item(items@.subrange(0, i as int), Item::Numeric(Numeric::Year))
                        ==> oy is Some)
                    &&& (omo matches Some(v) ==> v == f.m)
                    &&& (has_item(items@.subrange(0, i as int), Item::Numeric(Numeric::Month))
                        ==> omo is Some)
                    &&& (od matches Some(v) ==> v == f.d)
                    &&& (has_item(items@.subrange(0, i as int), Item::Numeric(Numeric::Day))
                        ==> od is Some)
                    &&& (ohh matches Some(v) ==> v == f.h)
                    &&& (has_item(items@.subrange(0, i as int), Item::Numeric(Numeric::Hour))
                        ==> ohh is Some)
                    &&& (omi matches Some(v) ==> v == f.mi)
                    &&& (has_item(items@.subrange(0, i as int), Item::Numeric(Numeric::Minute))
                        ==> omi is Some)
                    &&& (osec matches Some(v) ==> v == f.sec)
                    &&& (has_item(items@.subrange(0, i as int), Item::Numeric(Numeric::Second))
                        ==> osec is Some)
                    &&& (ooff matches Some(o) ==> o == fmt_off_secs(f))
                    &&& (has_item(items@.subrange(0, i as int), Item::OffsetColon)
                        ==> ooff is Some)
                },
        decreases n - i,
    {
        let ghost prevpos = pos as int;
        proof {
            assert forall|f: FmtFields| #[trigger] items_prefix_match(items@, s@, f) implies {
                &&& items_text(items@.subrange(0, i + 1), f) == items_text(
                    items@.subrange(0, i as int),
                    f,
                ) + item_text(items@[i as int], f)
                &&& items_text(items@.subrange(0, i + 1), f).len() <= s@.len()
                &&& s@.subrange(
                    prevpos,
                    items_text(items@.subrange(0, i + 1), f).len() as int,
                ) == item_text(items@[i as int], f)
            } by {
                lemma_items_snoc(items@.subrange(0, i + 1), f);
                assert(items@.subrange(0, i + 1).drop_last() =~= items@.subrange(0, i as int));
                assert(items@.subrange(0, i + 1).last() == items@[i as int]);
                lemma_items_split(items@, f, i + 1);
                crate::text::lemma_pow10_pos(4);
                let t1 = items_text(items@.subrange(0, i + 1), f);
                let whole = items_text(items@, f);
                assert(whole.subrange(0, t1.len() as int) =~= t1) by {
                    lemma_items_split(items@, f, i + 1);
                }
                assert forall|j: int| prevpos <= j < t1.len() implies s@[j] == item_text(
                    items@[i as int],
                    f,
                )[j - prevpos] by {
                    assert(s@[j] == s@.subrange(0, whole.len() as int)[j]);
                    assert(whole[j] == whole.subrange(0, t1.len() as int)[j]);
                }
                assert(s@.subrange(prevpos, t1.len() as int) =~= item_text(items@[i as int], f));
            }
        }
        match items[i] {
            Item::Literal(c) => {
                if pos >= len || s[pos] != c {
                    proof {
                        assert forall|f: FmtFields| !(#[trigger] items_prefix_match(
                            items@,
                            s@,
                            f,
                        )) by {
                            if items_prefix_match(items@, s@, f) {
                                assert(s@[prevpos] == s@.subrange(prevpos, prevpos + 1)[0]);
                            }
                        }
                    }
                    return Err(ParseError::Invalid);
                }
                pos = pos + 1;
            },
            Item::Space => {
                if pos >= len || s[pos] != ' ' {
                    proof {
                        assert forall|f: FmtFields| !(#[trigger] items_prefix_match(
                            items@,
                            s@,
                            f,
                        )) by {
                            if items_prefix_match(items@, s@, f) {
                                assert(s@[prevpos] == s@.subrange(prevpos, prevpos + 1)[0]);
                            }
                        }
                    }
                    return Err(ParseError::Invalid);
                }
                pos = pos + 1;
            },
            Item::Numeric(kind) => {
                let w: usize = match kind {
                    Numeric::Year => 4,
                    _ => 2,
                };
                if len - pos < w {
                    proof {
                        assert forall|f: FmtFields| !(#[trigger] items_prefix_match(
                            items@,
                            s@,
                            f,
                        )) by {
                            if items_prefix_match(items@, s@, f) {
                                lemma_fixed_digits_len(field_of(kind, f), w as nat);
                            }
                        }
                    }
                    return Err(ParseError::TooShort);
                }
                let v = match read_digits(s, pos, w) {
                    Some(v) => v,
                    None => {
                        proof {
                            assert forall|f: FmtFields| !(#[trigger] items_prefix_match(
                                items@,
                                s@,
                                f,
                            )) by {
                                if items_prefix_match(items@, s@, f) {
                                    lemma_fixed_digits_len(field_of(kind, f), w as nat);
                                    lemma_fixed_digits_chars(field_of(kind, f), w as nat);
                                    assert forall|j: int|
                                        prevpos <= j < prevpos + w implies is_digit_char(
                                        #[trigger] s@[j],
                                    ) by {
                                        assert(s@[j] == s@.subrange(
                                            prevpos,
                                            prevpos + w,
                                        )[j - prevpos]);
                                    }
                                }
                            }
                        }
                        return Err(ParseError::Invalid);
                    },
                };
                proof {
                    assert forall|f: FmtFields| #[trigger] items_prefix_match(items@, s@, f)
                        implies v == field_of(kind, f) by {
                        lemma_fixed_digits_len(field_of(kind, f), w as nat);
                        lemma_fixed_digits_injective(field_of(kind, f), v as int, w as nat);
                    }
                }
                let slot: &mut Option<u32> = match kind {
                    Numeric::Year => &mut oy,
                    Numeric::Month => &mut omo,
                    Numeric::Day => &mut od,
                    Numeric::Hour => &mut ohh,
                    Numeric::Minute => &mut omi,
                    Numeric::Second => &mut osec,
                };
                match *slot {
                    Some(v0) => {
                        if v0 != v {
                            return Err(ParseError::Impossible);
                        }
                    },
                    None => {
                        *slot = Some(v);
                    },
                }
                pos = pos + w;
            },
            Item::OffsetColon => {
                if len - pos < 6 {
                    proof {
                        assert forall|f: FmtFields| !(#[trigger] items_prefix_match(
                            items@,
                            s@,
                            f,
                        )) by {
                            if items_prefix_match(items@, s@, f) {
                                lemma_fixed_digits_len(f.oh, 2);
                                lemma_fixed_digits_len(f.om, 2);
                            }
                        }
                    }
                    return Err(ParseError::TooShort);
                }
                let c = s[pos];
                if c != '+' && c != '-' {
                    proof {
                        assert forall|f: FmtFields| !(#[trigger] items_prefix_match(
                            items@,
                            s@,
                            f,
                        )) by {
                            if items_prefix_match(items@, s@, f) {
                                lemma_fixed_digits_len(f.oh, 2);
                                lemma_fixed_digits_len(f.om, 2);
                                assert(s@[prevpos] == s@.subrange(prevpos, prevpos + 6)[0]);
                            }
                        }
                    }
                    return Err(ParseError::Invalid);
                }
                let oh = match read_digits(s, pos + 1, 2) {
                    Some(v) => v,
                    None => {
                        proof {
                            assert forall|f: FmtFields| !(#[trigger] items_prefix_match(
                                items@,
                                s@,
                                f,
                            )) by {
                                if items_prefix_match(items@, s@, f) {
                                    lemma_fixed_digits_len(f.oh, 2);
                                    lemma_fixed_digits_len(f.om, 2);
                                    lemma_offset_chunk(s@, prevpos, f);
                                }
                            }
                        }
                        return Err(ParseError::Invalid);
                    },
                };
                let om = match read_digits(s, pos + 4, 2) {
                    Some(v) => v,
                    None => {
                        proof {
                            assert forall|f: FmtFields| !(#[trigger] items_prefix_match(
                                items@,
                                s@,
                                f,
                            )) by {
                                if items_prefix_match(items@, s@, f) {
                                    lemma_fixed_digits_len(f.oh, 2);
                                    lemma_fixed_digits_len(f.om, 2);
                                    lemma_offset_chunk(s@, prevpos, f);
                                }
                            }
                        }
                        return Err(ParseError::Invalid);
                    },
                };
                if s[pos + 3] != ':' || oh > 23 || om > 59 {
                    proof {
                        assert forall|f: FmtFields| !(#[trigger] items_prefix_match(
                            items@,
                            s@,
                            f,
                        )) by {
                            if items_prefix_match(items@, s@, f) {
                                lemma_fixed_digits_len(f.oh, 2);
                                lemma_fixed_digits_len(f.om, 2);
                                lemma_offset_chunk(s@, prevpos, f);
                                lemma_fixed_digits_injective(f.oh, oh as int, 2);
                                lemma_fixed_digits_injective(f.om, om as int, 2);
                            }
                        }
                    }
                    return Err(ParseError::OutOfRange);
                }
                let off: i32 = if c == '-' {
                    -((oh * 3600 + om * 60) as i32)
                } else {
                    (oh * 3600 + om * 60) as i32
                };
                proof {
                    assert forall|f: FmtFields| #[trigger] items_prefix_match(items@, s@, f)
                        implies off == fmt_off_secs(f) && f.oh == oh && f.om == om by {
                        lemma_fixed_digits_len(f.oh, 2);
                        lemma_fixed_digits_len(f.om, 2);
                        lemma_offset_chunk(s@, prevpos, f);
                        lemma_fixed_digits_injective(f.oh, oh as int, 2);
                        lemma_fixed_digits_injective(f.om, om as int, 2);
                    }
                }
                match ooff {
                    Some(o0) => {
                        if o0 != off {
                            return Err(ParseError::Impossible);
                        }
                    },
                    None => {
                        ooff = Some(off);
                    },
                }
                proof {
                    assert(items@.subrange(0, i + 1)[i as int] == Item::OffsetColon);
                }
                pos = pos + 6;
            },
        }
        proof {
            assert forall|it: Item|
                has_item(items@.subrange(0, i + 1), it) implies has_item(
                items@.subrange(0, i as int),
                it,
            ) || items@[i as int] == it by {
                let j = choose|j: int|
                    0 <= j < items@.subrange(0, i + 1).len() && #[trigger] items@.subrange(
                        0,
                        i + 1,
                    )[j] == it;
                if j < i {
                    assert(items@.subrange(0, i as int)[j] == it);
                }
            }
            assert forall|it: Item|
                has_item(items@.subrange(0, i as int), it) implies has_item(
                items@.subrange(0, i + 1),
                it,
            ) by {
                let j = choose|j: int|
                    0 <= j < i && #[trigger] items@.subrange(0, i as int)[j] == it;
                assert(items@.subrange(0, i + 1)[j] == it);
            }
        }
        i = i + 1;
    }
    // every required field must have been supplied by some token
    let y = match oy {
        Some(v) => v,
        None => {
            proof {
                assert(items@.subrange(0, n as int) =~= items@);
            }
            return Err(ParseError::NotEnough);
        },
    };
    let month = match omo {
        Some(v) => v,
        None => {
            proof {
                assert(items@.subrange(0, n as int) =~= items@);
            }
            return Err(ParseError::NotEnough);
        },
    };
    let day = match od {
        Some(v) => v,
        None => {
            proof {
                assert(items@.subrange(0, n as int) =~= items@);
            }
            return Err(ParseError::NotEnough);
        },
    };
    let h = match ohh {
        Some(v) => v,
        None => {
            proof {
                assert(items@.subrange(0, n as int) =~= items@);
            }
            return Err(ParseError::NotEnough);
        },
    };
    let mi = match omi {
        Some(v) => v,
        None => {
            proof {
                assert(items@.subrange(0, n as int) =~= items@);
            }
            return Err(ParseError::NotEnough);
        },
    };
    let sec = match osec {
        Some(v) => v,
        None => 0,
    };
    let off = match ooff {
        Some(o) => o,
        None => {
            proof {
                assert(items@.subrange(0, n as int) =~= items@);
            }
            return Err(ParseError::NotEnough);
        },
    };
    if month < 1 || month > 12 || h > 23 || mi > 59 || sec > 60 {
        return Err(ParseError::OutOfRange);
    }
    let dim = days_in_month_x(y as i64, month as u8);
    if day < 1 || day > dim as u32 {
        return Err(ParseError::OutOfRange);
    }
    let out = crate::rfc3339::finish_rfc3339(y, month as u8, day as u8, h, mi, sec, 0, off);
    proof {
        assert(items@.subrange(0, n as int) =~= items@);
    }
    Ok((out.0, out.1, off, pos))
}

/// The numeric field a token kind reads.
pub open spec fn field_of(kind: Numeric, f: FmtFields) -> int {
    match kind {
        Numeric::Year => f.y,
        Numeric::Month => f.m,
        Numeric::Day => f.d,
        Numeric::Hour => f.h,
        Numeric::Minute => f.mi,
        Numeric::Second => f.sec,
    }
}

/// Where the pieces of an offset chunk at `a` lie.
proof fn lemma_offset_chunk(s: Seq<char>, a: int, f: FmtFields)
    requires
        0 <= a,
        a + 6 <= s.len(),
        0 <= f.oh,
        0 <= f.om,
        s.subrange(a, a + 6) == item_text(Item::OffsetColon, f),
    ensures
        s[a] == if f.neg {
            '-'
        } else {
            '+'
        },
        s.subrange(a + 1, a + 3) == fixed_digits(f.oh, 2),
        s[a + 3] == ':',
        s.subrange(a + 4, a + 6) == fixed_digits(f.om, 2),
        forall|j: int| a + 1 <= j < a + 3 ==> is_digit_char(#[trigger] s[j]),
        forall|j: int| a + 4 <= j < a + 6 ==> is_digit_char(#[trigger] s[j]),
{
    lemma_fixed_digits_len(f.oh, 2);
    lemma_fixed_digits_len(f.om, 2);
    assert(s.subrange(a + 1, a + 3) =~= fixed_digits(f.oh, 2)) by {
        assert forall|k: int| 0 <= k < 2 implies s.subrange(a + 1, a + 3)[k] == fixed_digits(
            f.oh,
            2,
        )[k] by {
            assert(s[a + 1 + k] == s.subrange(a, a + 6)[1 + k]);
        }
    }
    assert(s.subrange(a + 4, a + 6) =~= fixed_digits(f.om, 2)) by {
        assert forall|k: int| 0 <= k < 2 implies s.subrange(a + 4, a + 6)[k] == fixed_digits(
            f.om,
            2,
        )[k] by {
            assert(s[a + 4 + k] == s.subrange(a, a + 6)[4 + k]);
        }
    }
    assert(s[a] == s.subrange(a, a + 6)[0]);
    assert(s[a + 3] == s.subrange(a, a + 6)[3]);
    lemma_fixed_digits_chars(f.oh, 2);
    lemma_fixed_digits_chars(f.om, 2);
    assert forall|j: int| a + 1 <= j < a + 3 implies is_digit_char(#[trigger] s[j]) by {
        assert(s[j] == s.subrange(a + 1, a + 3)[j - (a + 1)]);
    }
    assert forall|j: int| a + 4 <= j < a + 6 implies is_digit_char(#[trigger] s[j]) by {
        assert(s[j] == s.subrange(a + 4, a + 6)[j - (a + 4)]);
    }
}


impl DateTime<FixedOffset> {
    /// Parse `s` against a token sequence, demanding that the whole
    /// input is consumed; the tokens must include the date, hour,
    /// minute and offset.  Every full rendering of the tokens under a
    /// valid field assignment is accepted, with that assignment's
    /// instant; trailing input reports failure.
    pub fn parse_from_str(s: &str, items: &Vec<Item>) -> (r: Result<
        DateTime<FixedOffset>,
        ParseError,
    >)
        ensures
            match r {
                Ok(dt) => dt.wf(),
                Err(e) => true,
            },
            fmt_complete(items@) ==> forall|f: FmtFields|
                (#[trigger] fmt_fields_wf(f) && s@ == items_text(items@, f) && (has_item(
                    items@,
                    Item::Numeric(Numeric::Second),
                ) || f.sec == 0)) ==> (r matches Ok(dt) && dt.datetime.secs == fmt_secs(f)
                    && dt.datetime.nsecs == fmt_nsecs(f) && dt.offset.local_minus_utc
                    == fmt_off_secs(f)),
            !has_item(items@, Item::OffsetColon) ==> r is Err,
    {
        let chars = str_to_chars(s);
        match parse_items_fields(&chars, items) {
            Ok((secs, nsecs, off, pos)) => {
                if pos != chars.len() {
                    proof {
                        assert forall|f: FmtFields|
                            fmt_fields_wf(f) && s@ == items_text(items@, f)
                            implies items_prefix_match(items@, chars@, f) by {
                            assert(chars@.subrange(0, items_text(items@, f).len() as int)
                                =~= chars@);
                        }
                    }
                    return Err(ParseError::TooLong);
                }
                proof {
                    assert forall|f: FmtFields|
                        fmt_fields_wf(f) && s@ == items_text(items@, f) implies items_prefix_match(
                        items@,
                        chars@,
                        f,
                    ) by {
                        assert(chars@.subrange(0, items_text(items@, f).len() as int) =~= chars@);
                    }
                }
                Ok(
                    DateTime {
                        datetime: NaiveDateTime { secs, nsecs },
                        offset: FixedOffset { local_minus_utc: off },
                    },
                )
            },
            Err(e) => {
                proof {
                    assert forall|f: FmtFields|
                        fmt_fields_wf(f) && s@ == items_text(items@, f) implies items_prefix_match(
                        items@,
                        chars@,
                        f,
                    ) by {
                        assert(chars@.subrange(0, items_text(items@, f).len() as int) =~= chars@);
                    }
                }
                Err(e)
            },
        }
    }

    /// Parse a prefix of `s` against a token sequence and return the
    /// unconsumed remainder alongside the value; trailing input is not
    /// an error here.
    pub fn parse_and_remainder<'a>(s: &'a str, items: &Vec<Item>) -> (r: Result<
        (DateTime<FixedOffset>, &'a str),
        ParseError,
    >)
        ensures
            match r {
                Ok(v) => v.0.wf() && exists|k: int|
                    0 <= k <= s@.len() && v.1@ == s@.subrange(k, s@.len() as int),
                Err(e) => true,
            },
            !has_item(items@, Item::OffsetColon) ==> r is Err,
            fmt_complete(items@) ==> forall|f: FmtFields|
                (#[trigger] fmt_fields_wf(f) && items_text(items@, f).len() <= s@.len()
                    && s@.subrange(0, items_text(items@, f).len() as int) == items_text(items@, f)
                    && (has_item(items@, Item::Numeric(Numeric::Second)) || f.sec == 0)) ==> (
                r matches Ok(v) && v.0.datetime.secs == fmt_secs(f) && v.0.datetime.nsecs
                    == fmt_nsecs(f) && v.0.offset.local_minus_utc == fmt_off_secs(f) && v.1@
                    == s@.subrange(items_text(items@, f).len() as int, s@.len() as int)),
    {
        let chars = str_to_chars(s);
        proof {
            assert forall|f: FmtFields|
                fmt_fields_wf(f) && items_text(items@, f).len() <= s@.len() && s@.subrange(
                    0,
                    items_text(items@, f).len() as int,
                ) == items_text(items@, f) implies items_prefix_match(items@, chars@, f) by {
                assert(chars@.subrange(0, items_text(items@, f).len() as int) == s@.subrange(
                    0,
                    items_text(items@, f).len() as int,
                ));
            }
        }
        match parse_items_fields(&chars, items) {
            Ok((secs, nsecs, off, pos)) => {
                let n = s.unicode_len();
                let rest = s.substring_char(pos, n);
                Ok(
                    (
                        DateTime {
                            datetime: NaiveDateTime { secs, nsecs },
                            offset: FixedOffset { local_minus_utc: off },
                        },
                        rest,
                    ),
                )
            },
            Err(e) => Err(e),
        }
    }
}

} // verus!
