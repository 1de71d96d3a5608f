//! Offset capabilities: how an instant is shifted into local civil time
//! and how a local civil reading maps back to instants.
//!
//! The [`TimeZone`] trait captures the two operations every capability
//! must provide: a fixed shift for a given instant, and resolution of a
//! local reading into zero, one or two candidate shifts.  Three
//! capabilities implement it: [`Utc`], [`FixedOffset`] and the
//! transition-table-backed [`TransitionZone`].

use vstd::prelude::*;
use crate::naive::NaiveDateTime;
use crate::calendar::{MAX_SECS, MIN_SECS};

verus! {

/// Slack around the representable second range inside which local
/// readings may still be resolved.
pub const RESOLVE_SLACK: i64 = 200000;

/// A fixed shift east of UTC, in seconds, strictly within one day.
#[derive(Clone, Copy, PartialEq, Eq, Structural, Debug, Hash)]
pub struct FixedOffset {
    pub local_minus_utc: i32,
}

impl FixedOffset {
    pub open spec fn wf(self) -> bool {
        -86400 < self.local_minus_utc < 86400
    }

    /// An offset east of UTC; fails beyond one day.
    pub fn east(secs: i32) -> (r: Option<FixedOffset>)
        ensures
            match r {
                Some(o) => o.wf() && o.local_minus_utc == secs,
                None => !(-86400 < secs < 86400),
            },
    {
        if -86400 < secs && secs < 86400 {
            Some(FixedOffset { local_minus_utc: secs })
        } else {
            None
        }
    }

    /// An offset west of UTC; fails beyond one day.
    pub fn west(secs: i32) -> (r: Option<FixedOffset>)
        ensures
            match r {
                Some(o) => o.wf() && o.local_minus_utc == -secs,
                None => !(-86400 < secs < 86400),
            },
    {
        if -86400 < secs && secs < 86400 {
            Some(FixedOffset { local_minus_utc: -secs })
        } else {
            None
        }
    }

    pub fn local_minus_utc(&self) -> (r: i32)
        ensures
            r == self.local_minus_utc,
    {
        self.local_minus_utc
    }

    pub fn utc_minus_local(&self) -> (r: i32)
        requires
            self.wf(),
        ensures
            r == -self.local_minus_utc,
    {
        -self.local_minus_utc
    }

    /// The fixed shift itself, as every capability exposes it.
    pub fn fix(&self) -> (r: FixedOffset)
        ensures
            r == *self,
    {
        FixedOffset { local_minus_utc: self.local_minus_utc }
    }
}

/// The outcome of resolving a local civil reading against a zone: the
/// reading may not exist (it falls in a spring-forward gap), may denote
/// a single instant, or may denote two (a fall-back overlap, earlier
/// candidate first).
#[derive(Clone, Copy, PartialEq, Eq, Debug)]
pub enum LocalResult<T> {
    Absent,
    Single(T),
    Ambiguous(T, T),
}

impl<T> LocalResult<T> {
    /// The unique result, if resolution produced exactly one.
    pub fn single(self) -> (r: Option<T>)
        ensures
            match self {
                LocalResult::Single(o) => r == Some(o),
                _ => r is None,
            },
    {
        match self {
            LocalResult::Single(o) => Some(o),
            _ => None,
        }
    }

    /// The earliest result, if any.
    pub fn earliest(self) -> (r: Option<T>)
        ensures
            match self {
                LocalResult::Single(o) => r == Some(o),
                LocalResult::Ambiguous(a, b) => r == Some(a),
                LocalResult::Absent => r is None,
            },
    {
        match self {
            LocalResult::Single(o) => Some(o),
            LocalResult::Ambiguous(a, b) => Some(a),
            LocalResult::Absent => None,
        }
    }

    /// The latest result, if any.
    pub fn latest(self) -> (r: Option<T>)
        ensures
            match self {
                LocalResult::Single(o) => r == Some(o),
                LocalResult::Ambiguous(a, b) => r == Some(b),
                LocalResult::Absent => r is None,
            },
    {
        match self {
            LocalResult::Single(o) => Some(o),
            LocalResult::Ambiguous(a, b) => Some(b),
            LocalResult::Absent => None,
        }
    }
}

/// Spec-level resolution outcome: shifts in seconds.
pub enum ResolvedShift {
    Absent,
    Single(int),
    Ambiguous(int, int),
}

/// An offset capability: a zone that can shift instants into local time
/// and resolve local readings back into instants.
pub trait TimeZone: Sized {
    /// Validity of the zone's own data.
    spec fn zone_wf(&self) -> bool;

    /// The shift east of UTC, in seconds, in force at the given instant.
    spec fn spec_shift(&self, utc_secs: int) -> int;

    /// The candidate shifts for a local civil reading: the shifts `o`
    /// for which `local - o` reads back as `local`.
    spec fn spec_resolve(&self, local_secs: int) -> ResolvedShift;

    /// Shifts stay strictly within one day.
    proof fn lemma_shift_bounded(&self, utc_secs: int)
        requires
            self.zone_wf(),
        ensures
            -86400 < self.spec_shift(utc_secs) < 86400,
    ;

    /// Every candidate returned by resolution is consistent: shifting
    /// the resolved instant reproduces the candidate.
    proof fn lemma_resolve_consistent(&self, l: int)
        requires
            self.zone_wf(),
        ensures
            match self.spec_resolve(l) {
                ResolvedShift::Absent => true,
                ResolvedShift::Single(o) => -86400 < o < 86400 && self.spec_shift(l - o) == o,
                ResolvedShift::Ambiguous(o1, o2) => {
                    &&& -86400 < o1 < 86400
                    &&& self.spec_shift(l - o1) == o1
                    &&& -86400 < o2 < 86400
                    &&& self.spec_shift(l - o2) == o2
                    &&& o1 != o2
                },
            },
    ;

    /// The shift in force at an instant.
    fn offset_at(&self, utc: &NaiveDateTime) -> (o: FixedOffset)
        requires
            self.zone_wf(),
            utc.wf(),
        ensures
            o.wf(),
            o.local_minus_utc == self.spec_shift(utc.secs as int),
    ;

    /// Resolve a local civil reading (as a second count) into candidate
    /// shifts.
    fn resolve_local_secs(&self, local_secs: i64) -> (r: LocalResult<FixedOffset>)
        requires
            self.zone_wf(),
            MIN_SECS - RESOLVE_SLACK <= local_secs <= MAX_SECS + RESOLVE_SLACK,
        ensures
            match self.spec_resolve(local_secs as int) {
                ResolvedShift::Absent => r is Absent,
                ResolvedShift::Single(o) => r matches LocalResult::Single(f) && f.local_minus_utc
                    == o && f.wf(),
                ResolvedShift::Ambiguous(o1, o2) => r matches LocalResult::Ambiguous(f1, f2)
                    && f1.local_minus_utc == o1 && f2.local_minus_utc == o2 && f1.wf() && f2.wf(),
            },
    ;

    /// A duplicate of the zone that behaves identically.
    fn clone_zone(&self) -> (r: Self)
        ensures
            r.zone_wf() == self.zone_wf(),
            forall|t: int| r.spec_shift(t) == self.spec_shift(t),
            forall|l: int| r.spec_resolve(l) == self.spec_resolve(l),
    ;
}

/// The UTC zone: zero shift, every reading resolves uniquely.
#[derive(Clone, Copy, PartialEq, Eq, Structural, Debug, Hash, Default)]
pub struct Utc;

impl TimeZone for Utc {
    open spec fn zone_wf(&self) -> bool {
        true
    }

    open spec fn spec_shift(&self, utc_secs: int) -> int {
        0
    }

    open spec fn spec_resolve(&self, local_secs: int) -> ResolvedShift {
        ResolvedShift::Single(0)
    }

    proof fn lemma_shift_bounded(&self, utc_secs: int) {
    }

    proof fn lemma_resolve_consistent(&self, l: int) {
    }

    fn offset_at(&self, utc: &NaiveDateTime) -> (o: FixedOffset) {
        FixedOffset { local_minus_utc: 0 }
    }

    fn resolve_local_secs(&self, local_secs: i64) -> (r: LocalResult<FixedOffset>) {
        LocalResult::Single(FixedOffset { local_minus_utc: 0 })
    }

    fn clone_zone(&self) -> (r: Self) {
        Utc
    }
}

impl TimeZone for FixedOffset {
    open spec fn zone_wf(&self) -> bool {
        self.wf()
    }

    open spec fn spec_shift(&self, utc_secs: int) -> int {
        self.local_minus_utc as int
    }

    open spec fn spec_resolve(&self, local_secs: int) -> ResolvedShift {
        ResolvedShift::Single(self.local_minus_utc as int)
    }

    proof fn lemma_shift_bounded(&self, utc_secs: int) {
    }

    proof fn lemma_resolve_consistent(&self, l: int) {
    }

    fn offset_at(&self, utc: &NaiveDateTime) -> (o: FixedOffset) {
        FixedOffset { local_minus_utc: self.local_minus_utc }
    }

    fn resolve_local_secs(&self, local_secs: i64) -> (r: LocalResult<FixedOffset>) {
        LocalResult::Single(FixedOffset { local_minus_utc: self.local_minus_utc })
    }

    fn clone_zone(&self) -> (r: Self) {
        FixedOffset { local_minus_utc: self.local_minus_utc }
    }
}

/// A zone described by a table of offset transitions: before the first
/// transition the shift is `initial`; from each transition instant on,
/// the shift is that transition's offset.  This is the capability with
/// daylight-saving gaps and overlaps.
#[derive(Debug)]
pub struct TransitionZone {
    /// Shift east of UTC before the first transition, in seconds.
    pub initial: i32,
    /// `(instant, shift)` pairs: from UTC second `instant` on, the shift
    /// is `shift`.  Instants are strictly increasing.
    pub transitions: Vec<(i64, i32)>,
}

/// The shift of a transition table at instant `t`: that of the last
/// transition at or before `t`, or the initial shift.
pub open spec fn table_shift(table: Seq<(i64, i32)>, initial: int, t: int) -> int
    decreases table.len(),
{
    if table.len() == 0 {
        initial
    } else {
        let last = table.last();
        if t >= last.0 {
            last.1 as int
        } else {
            table_shift(table.drop_last(), initial, t)
        }
    }
}

/// The candidate shifts of a transition zone for local reading `l`,
/// scanning the first `k` entries of the zone's shift list (the initial
/// shift followed by each transition's shift) and keeping the distinct
/// consistent ones in order.
pub open spec fn table_resolve(z: TransitionZone, l: int, k: nat) -> ResolvedShift
    decreases k,
{
    if k == 0 {
        ResolvedShift::Absent
    } else {
        let prev = table_resolve(z, l, (k - 1) as nat);
        let o = zone_shift_list(z)[k - 1];
        if table_shift(z.transitions@, z.initial as int, l - o) == o {
            match prev {
                ResolvedShift::Absent => ResolvedShift::Single(o),
                ResolvedShift::Single(o1) => if o1 == o {
                    ResolvedShift::Single(o1)
                } else {
                    ResolvedShift::Ambiguous(o1, o)
                },
                ResolvedShift::Ambiguous(o1, o2) => ResolvedShift::Ambiguous(o1, o2),
            }
        } else {
            prev
        }
    }
}

/// The shifts a transition zone can ever be in: the initial one, then
/// one per transition.
pub open spec fn zone_shift_list(z: TransitionZone) -> Seq<int> {
    seq![z.initial as int] + z.transitions@.map_values(|p: (i64, i32)| p.1 as int)
}

impl TransitionZone {
    /// A zone with no transitions: a fixed shift, as a table.
    pub fn fixed(initial: i32) -> (r: TransitionZone)
        requires
            -86400 < initial < 86400,
        ensures
            r.zone_wf(),
            r.initial == initial,
            r.transitions@.len() == 0,
    {
        TransitionZone { initial, transitions: Vec::new() }
    }

    /// A zone from its initial shift and transition table.
    pub fn new(initial: i32, transitions: Vec<(i64, i32)>) -> (r: Option<TransitionZone>)
        ensures
            match r {
                Some(z) => {
                    &&& z.zone_wf()
                    &&& z.initial == initial
                    &&& z.transitions@ == transitions@
                },
                None => !({
                    &&& -86400 < initial < 86400
                    &&& forall|j: int|
                        0 <= j < transitions@.len() ==> -86400 < (#[trigger] transitions@[j]).1
                            < 86400
                    &&& forall|j: int|
                        0 < j < transitions@.len() ==> (#[trigger] transitions@[j]).0
                            > transitions@[j - 1].0
                }),
            },
    {
        if initial <= -86400 || initial >= 86400 {
            return None;
        }
        let n = transitions.len();
        let mut i: usize = 0;
        while i < n
            invariant
                i <= n,
                n == transitions@.len(),
                forall|j: int|
                    0 <= j < i ==> -86400 < (#[trigger] transitions@[j]).1 < 86400,
                forall|j: int| 0 < j < i ==> (#[trigger] transitions@[j]).0 > transitions@[j
                    - 1].0,
            decreases n - i,
        {
            let (t, o) = transitions[i];
            if o <= -86400 || o >= 86400 {
                proof {
                    assert(!(-86400 < (transitions@[i as int]).1 < 86400));
                }
                return None;
            }
            if i > 0 {
                let (tp, _) = transitions[i - 1];
                if t <= tp {
                    proof {
                        assert(!((transitions@[i as int]).0 > transitions@[i as int - 1].0));
                    }
                    return None;
                }
            }
            i = i + 1;
        }
        Some(TransitionZone { initial, transitions })
    }
}

impl TimeZone for TransitionZone {
    open spec fn zone_wf(&self) -> bool {
        &&& -86400 < self.initial < 86400
        &&& forall|j: int|
            0 <= j < self.transitions@.len() ==> -86400 < (#[trigger] self.transitions@[j]).1
                < 86400
        &&& forall|j: int|
            0 < j < self.transitions@.len() ==> (#[trigger] self.transitions@[j]).0
                > self.transitions@[j - 1].0
    }

    open spec fn spec_shift(&self, utc_secs: int) -> int {
        table_shift(self.transitions@, self.initial as int, utc_secs)
    }

    open spec fn spec_resolve(&self, local_secs: int) -> ResolvedShift {
        table_resolve(*self, local_secs, zone_shift_list(*self).len())
    }

    proof fn lemma_shift_bounded(&self, utc_secs: int) {
        lemma_table_shift_bounded(self.transitions@, self.initial as int, utc_secs);
    }

    proof fn lemma_resolve_consistent(&self, l: int) {
        lemma_table_resolve_consistent(*self, l, zone_shift_list(*self).len());
    }

    fn offset_at(&self, utc: &NaiveDateTime) -> (o: FixedOffset) {
        let s = self.shift_at_secs(utc.timestamp());
        FixedOffset { local_minus_utc: s }
    }

    fn resolve_local_secs(&self, local_secs: i64) -> (r: LocalResult<FixedOffset>) {
        let n = self.transitions.len();
        proof {
            assert(zone_shift_list(*self).len() == n + 1);
            assert(table_resolve(*self, local_secs as int, 0) is Absent);
            assert(zone_shift_list(*self)[0] == self.initial as int);
        }
        let back0 = self.shift_at_secs(local_secs - self.initial as i64);
        let mut acc: LocalResult<FixedOffset> = if back0 == self.initial {
            LocalResult::Single(FixedOffset { local_minus_utc: self.initial })
        } else {
            LocalResult::Absent
        };
        let mut j: usize = 0;
        while j < n
            invariant
                self.zone_wf(),
                j <= n,
                n == self.transitions@.len(),
                MIN_SECS - RESOLVE_SLACK <= local_secs <= MAX_SECS + RESOLVE_SLACK,
                match table_resolve(*self, local_secs as int, (j + 1) as nat) {
                    ResolvedShift::Absent => acc is Absent,
                    ResolvedShift::Single(o) => acc matches LocalResult::Single(f)
                        && f.local_minus_utc == o && f.wf(),
                    ResolvedShift::Ambiguous(o1, o2) => acc matches LocalResult::Ambiguous(f1, f2)
                        && f1.local_minus_utc == o1 && f2.local_minus_utc == o2 && f1.wf()
                        && f2.wf(),
                },
            decreases n - j,
        {
            let o: i32 = self.transitions[j].1;
            proof {
                assert(zone_shift_list(*self)[j + 1] == o as int);
            }
            let back = self.shift_at_secs(local_secs - o as i64);
            if back == o {
                acc = match acc {
                    LocalResult::Absent => LocalResult::Single(
                        FixedOffset { local_minus_utc: o },
                    ),
                    LocalResult::Single(f1) => {
                        if f1.local_minus_utc == o {
                            LocalResult::Single(f1)
                        } else {
                            LocalResult::Ambiguous(f1, FixedOffset { local_minus_utc: o })
                        }
                    },
                    LocalResult::Ambiguous(f1, f2) => LocalResult::Ambiguous(f1, f2),
                };
            }
            j = j + 1;
        }
        acc
    }

    fn clone_zone(&self) -> (r: Self) {
        let n = self.transitions.len();
        let mut v: Vec<(i64, i32)> = Vec::new();
        let mut i: usize = 0;
        while i < n
            invariant
                i <= n,
                n == self.transitions@.len(),
                v@ == self.transitions@.subrange(0, i as int),
            decreases n - i,
        {
            v.push(self.transitions[i]);
            proof {
                assert(v@ =~= self.transitions@.subrange(0, i + 1));
            }
            i = i + 1;
        }
        proof {
            assert(v@ =~= self.transitions@);
        }
        let r = TransitionZone { initial: self.initial, transitions: v };
        proof {
            assert(r.transitions@ == self.transitions@);
            assert(zone_shift_list(r) =~= zone_shift_list(*self));
            lemma_table_resolve_congruent(r, *self);
        }
        r
    }
}

impl TransitionZone {
    /// The shift in force at UTC second `t`.
    pub fn shift_at_secs(&self, t: i64) -> (r: i32)
        requires
            self.zone_wf(),
        ensures
            r as int == table_shift(self.transitions@, self.initial as int, t as int),
            -86400 < r < 86400,
    {
        proof {
            lemma_table_shift_bounded(self.transitions@, self.initial as int, t as int);
        }
        let n = self.transitions.len();
        let mut i = n;
        proof {
            assert(self.transitions@.subrange(0, n as int) =~= self.transitions@);
        }
        while i > 0
            invariant
                i <= n,
                n == self.transitions@.len(),
                self.zone_wf(),
                table_shift(self.transitions@, self.initial as int, t as int) == table_shift(
                    self.transitions@.subrange(0, i as int),
                    self.initial as int,
                    t as int,
                ),
            decreases i,
        {
            let (tt, oo) = self.transitions[i - 1];
            if t >= tt {
                proof {
                    assert(self.transitions@.subrange(0, i as int).last() == (tt, oo));
                }
                return oo;
            }
            proof {
                assert(self.transitions@.subrange(0, i as int).drop_last()
                    =~= self.transitions@.subrange(0, i - 1));
            }
            i = i - 1;
        }
        proof {
            assert(self.transitions@.subrange(0, 0) =~= Seq::<(i64, i32)>::empty());
        }
        self.initial
    }
}

/// Every shift a transition table can produce is one of its entries or
/// the initial shift, hence bounded when the zone is well-formed.
proof fn lemma_table_shift_bounded(table: Seq<(i64, i32)>, initial: int, t: int)
    requires
        -86400 < initial < 86400,
        forall|j: int| 0 <= j < table.len() ==> -86400 < (#[trigger] table[j]).1 < 86400,
    ensures
        -86400 < table_shift(table, initial, t) < 86400,
    decreases table.len(),
{
    if table.len() > 0 {
        if t >= table.last().0 {
        } else {
            lemma_table_shift_bounded(table.drop_last(), initial, t);
        }
    }
}

/// Every candidate kept by the resolution scan passed the consistency
/// test, and an ambiguous pair is genuinely two different shifts.
proof fn lemma_table_resolve_consistent(z: TransitionZone, l: int, k: nat)
    requires
        z.zone_wf(),
        k <= zone_shift_list(z).len(),
    ensures
        match table_resolve(z, l, k) {
            ResolvedShift::Absent => true,
            ResolvedShift::Single(o) => -86400 < o < 86400 && table_shift(
                z.transitions@,
                z.initial as int,
                l - o,
            ) == o,
            ResolvedShift::Ambiguous(o1, o2) => {
                &&& -86400 < o1 < 86400
                &&& table_shift(z.transitions@, z.initial as int, l - o1) == o1
                &&& -86400 < o2 < 86400
                &&& table_shift(z.transitions@, z.initial as int, l - o2) == o2
                &&& o1 != o2
            },
        },
    decreases k,
{
    if k > 0 {
        lemma_table_resolve_consistent(z, l, (k - 1) as nat);
        let o = zone_shift_list(z)[k - 1];
        if table_shift(z.transitions@, z.initial as int, l - o) == o {
            assert(-86400 < o < 86400) by {
                if k - 1 == 0 {
                } else {
                    assert(zone_shift_list(z)[k - 1] == z.transitions@[k - 2].1 as int);
                }
            }
        }
    }
}

/// Two zones with the same table and initial shift resolve identically.
proof fn lemma_table_resolve_congruent(a: TransitionZone, b: TransitionZone)
    requires
        a.transitions@ == b.transitions@,
        a.initial == b.initial,
    ensures
        forall|l: int| a.spec_resolve(l) == b.spec_resolve(l),
        forall|t: int| a.spec_shift(t) == b.spec_shift(t),
{
    assert(zone_shift_list(a) =~= zone_shift_list(b));
    assert forall|l: int| a.spec_resolve(l) == b.spec_resolve(l) by {
        lemma_table_resolve_eq(a, b, l, zone_shift_list(a).len());
    }
}

proof fn lemma_table_resolve_eq(a: TransitionZone, b: TransitionZone, l: int, k: nat)
    requires
        a.transitions@ == b.transitions@,
        a.initial == b.initial,
    ensures
        table_resolve(a, l, k) == table_resolve(b, l, k),
    decreases k,
{
    assert(zone_shift_list(a) =~= zone_shift_list(b));
    if k > 0 {
        lemma_table_resolve_eq(a, b, l, (k - 1) as nat);
    }
}

} // verus!
