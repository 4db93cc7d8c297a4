//! The business calendar: a weekday pattern plus a holiday set, with the
//! queries and date adjustments built on them.
//!
//! A date is a business day when its day of the week is enabled in the
//! weekday pattern and it is not a holiday.  Everything else — the walks to
//! the next and previous business day, the roll conventions, the month
//! helpers and the range count — is specified through that predicate and the
//! linear day count of `crate::date`.

use vstd::prelude::*;

verus! {

use vstd::arithmetic::div_mod::{lemma_add_mod_noop_right, lemma_mod_bound, lemma_small_mod};
use crate::codec::Error;
use crate::date::{
    Date, days_in_month, lemma_date_for_day_num, lemma_day_num_injective, lemma_day_num_mono,
    lemma_day_num_range, lemma_month_convex, lex_lt, max_day_num, min_day_num, month_first,
    month_last, same_month,
};

pub open spec fn int_max(a: int, b: int) -> int {
    if a >= b {
        a
    } else {
        b
    }
}

pub open spec fn int_min(a: int, b: int) -> int {
    if a <= b {
        a
    } else {
        b
    }
}

/// How a non-business date is rolled to a business date.
#[derive(Clone, Copy, PartialEq, Eq, Structural, Debug)]
pub enum BusdayConvention {
    Following,
    Preceding,
    ModifiedFollowing,
    ModifiedPreceding,
    Unadjusted,
}

/// A 7-character weekday pattern, Monday first: character `i` says whether
/// weekday `i` is a business day.
pub open spec fn valid_mask_chars(s: Seq<char>) -> bool {
    &&& s.len() == 7
    &&& forall|i: int| 0 <= i < 7 ==> (s[i] == '1' || s[i] == '0')
    &&& exists|i: int| 0 <= i < 7 && s[i] == '1'
}

pub open spec fn mask_of_chars(s: Seq<char>) -> Seq<bool> {
    Seq::new(s.len(), |i: int| s[i] == '1')
}

pub open spec fn mask_chars(m: Seq<bool>) -> Seq<char> {
    Seq::new(
        m.len(),
        |i: int|
            if m[i] {
                '1'
            } else {
                '0'
            },
    )
}

/// Largest holiday day number, or the bottom of the supported range when
/// there are no holidays.
pub open spec fn seq_day_max(s: Seq<Date>) -> int
    decreases s.len(),
{
    if s.len() == 0 {
        min_day_num()
    } else if s.last().day_num() >= seq_day_max(s.drop_last()) {
        s.last().day_num()
    } else {
        seq_day_max(s.drop_last())
    }
}

/// Smallest holiday day number, or the top of the supported range when
/// there are no holidays.
pub open spec fn seq_day_min(s: Seq<Date>) -> int
    decreases s.len(),
{
    if s.len() == 0 {
        max_day_num()
    } else if s.last().day_num() <= seq_day_min(s.drop_last()) {
        s.last().day_num()
    } else {
        seq_day_min(s.drop_last())
    }
}

proof fn lemma_seq_day_max(s: Seq<Date>)
    ensures
        forall|i: int| 0 <= i < s.len() ==> (#[trigger] s[i]).day_num() <= seq_day_max(s),
    decreases s.len(),
{
    if s.len() > 0 {
        lemma_seq_day_max(s.drop_last());
        assert forall|i: int| 0 <= i < s.len() implies (#[trigger] s[i]).day_num() <= seq_day_max(
            s,
        ) by {
            if i < s.len() - 1 {
                assert(s[i] == s.drop_last()[i]);
            } else {
                assert(s[i] == s.last());
            }
        }
    }
}

proof fn lemma_seq_day_min(s: Seq<Date>)
    ensures
        forall|i: int| 0 <= i < s.len() ==> (#[trigger] s[i]).day_num() >= seq_day_min(s),
    decreases s.len(),
{
    if s.len() > 0 {
        lemma_seq_day_min(s.drop_last());
        assert forall|i: int| 0 <= i < s.len() implies (#[trigger] s[i]).day_num() >= seq_day_min(
            s,
        ) by {
            if i < s.len() - 1 {
                assert(s[i] == s.drop_last()[i]);
            } else {
                assert(s[i] == s.last());
            }
        }
    }
}

proof fn lemma_seq_day_max_le(s: Seq<Date>, bound: int)
    requires
        bound >= min_day_num(),
        forall|i: int| 0 <= i < s.len() ==> (#[trigger] s[i]).day_num() <= bound,
    ensures
        seq_day_max(s) <= bound,
    decreases s.len(),
{
    if s.len() > 0 {
        assert forall|i: int| 0 <= i < s.drop_last().len() implies (#[trigger] s.drop_last()[
            i
        ]).day_num() <= bound by {
            assert(s.drop_last()[i] == s[i]);
        }
        lemma_seq_day_max_le(s.drop_last(), bound);
        assert(s.last() == s[s.len() - 1]);
    }
}

proof fn lemma_seq_day_min_ge(s: Seq<Date>, bound: int)
    requires
        bound <= max_day_num(),
        forall|i: int| 0 <= i < s.len() ==> (#[trigger] s[i]).day_num() >= bound,
    ensures
        seq_day_min(s) >= bound,
    decreases s.len(),
{
    if s.len() > 0 {
        assert forall|i: int| 0 <= i < s.drop_last().len() implies (#[trigger] s.drop_last()[
            i
        ]).day_num() >= bound by {
            assert(s.drop_last()[i] == s[i]);
        }
        lemma_seq_day_min_ge(s.drop_last(), bound);
        assert(s.last() == s[s.len() - 1]);
    }
}

/// An immutable calendar: which weekdays are business days, and which dates
/// are holidays.  `wf()` is the intended invariant; the constructors
/// (`new`, `from_parts`, the interchange reader) establish it, and no
/// operation mutates a calendar.
#[derive(Debug)]
pub struct BusinessCalendar {
    pub holidays: Vec<Date>,
    pub weekmask: Vec<bool>,
}

fn date_in(v: &Vec<Date>, d: Date) -> (r: bool)
    ensures
        r == v@.contains(d),
{
    let mut i: usize = 0;
    while i < v.len()
        invariant
            i <= v@.len(),
            forall|j: int| 0 <= j < i ==> v@[j] != d,
        decreases v@.len() - i,
    {
        if v[i] == d {
            return true;
        }
        i += 1;
    }
    false
}

impl BusinessCalendar {
    pub open spec fn spec_weekmask(self) -> Seq<bool> {
        self.weekmask@
    }

    pub open spec fn spec_holidays(self) -> Seq<Date> {
        self.holidays@
    }

    /// The weekday pattern admits `d`'s day of the week.
    pub open spec fn spec_is_weekday(self, d: Date) -> bool {
        self.spec_weekmask()[d.weekday_index()]
    }

    pub open spec fn spec_is_holiday(self, d: Date) -> bool {
        self.spec_holidays().contains(d)
    }

    /// The single source of truth for "valid business day".
    pub open spec fn spec_is_busday(self, d: Date) -> bool {
        self.spec_is_weekday(d) && !self.spec_is_holiday(d)
    }

    /// Business-day-ness of a bare day number.
    pub open spec fn busy_num(self, n: int) -> bool {
        self.spec_weekmask()[(n + 2) % 7] && !self.holiday_num(n)
    }

    pub open spec fn holiday_num(self, n: int) -> bool {
        exists|i: int|
            0 <= i < self.spec_holidays().len() && (#[trigger] self.spec_holidays()[i]).day_num()
                == n
    }

    /// Well-formedness: a 7-entry weekday pattern with at least one business
    /// weekday, and a duplicate-free collection of valid holiday dates.
    pub open spec fn wf(self) -> bool {
        &&& self.spec_weekmask().len() == 7
        &&& exists|w: int| 0 <= w < 7 && self.spec_weekmask()[w]
        &&& forall|i: int|
            0 <= i < self.spec_holidays().len() ==> (#[trigger] self.spec_holidays()[i]).valid()
        &&& forall|i: int, j: int|
            0 <= i < j < self.spec_holidays().len() ==> self.spec_holidays()[i]
                != self.spec_holidays()[j]
    }

    /// All holidays sit at least a week inside the supported date range, so
    /// the walks below never run off its ends.
    pub open spec fn holidays_in_range(self) -> bool {
        forall|i: int|
            0 <= i < self.spec_holidays().len() ==> min_day_num() + 7
                <= (#[trigger] self.spec_holidays()[i]).day_num() <= max_day_num() - 7
    }

    pub open spec fn hmax(self) -> int {
        seq_day_max(self.spec_holidays())
    }

    pub open spec fn hmin(self) -> int {
        seq_day_min(self.spec_holidays())
    }

    /// `r` is the first business day strictly after `d`.
    pub open spec fn next_busday_rel(self, d: Date, r: Date) -> bool {
        &&& r.valid()
        &&& self.spec_is_busday(r)
        &&& d.day_num() < r.day_num()
        &&& forall|e: Date|
            e.valid() && d.day_num() < #[trigger] e.day_num() < r.day_num()
                ==> !self.spec_is_busday(e)
    }

    /// `r` is the last business day strictly before `d`.
    pub open spec fn prev_busday_rel(self, d: Date, r: Date) -> bool {
        &&& r.valid()
        &&& self.spec_is_busday(r)
        &&& r.day_num() < d.day_num()
        &&& forall|e: Date|
            e.valid() && r.day_num() < #[trigger] e.day_num() < d.day_num()
                ==> !self.spec_is_busday(e)
    }

    /// `r` is the first business day at or after `d`.
    pub open spec fn foll_rel(self, d: Date, r: Date) -> bool {
        &&& r.valid()
        &&& self.spec_is_busday(r)
        &&& d.day_num() <= r.day_num()
        &&& forall|e: Date|
            e.valid() && d.day_num() <= #[trigger] e.day_num() < r.day_num()
                ==> !self.spec_is_busday(e)
    }

    /// `r` is the last business day at or before `d`.
    pub open spec fn prec_rel(self, d: Date, r: Date) -> bool {
        &&& r.valid()
        &&& self.spec_is_busday(r)
        &&& r.day_num() <= d.day_num()
        &&& forall|e: Date|
            e.valid() && r.day_num() < #[trigger] e.day_num() <= d.day_num()
                ==> !self.spec_is_busday(e)
    }

    /// Rolling `d` forward would stay inside `d`'s month.
    pub open spec fn foll_stays_in_month(self, d: Date) -> bool {
        exists|f: Date| #[trigger] self.foll_rel(d, f) && same_month(f, d)
    }

    /// Rolling `d` backward would stay inside `d`'s month.
    pub open spec fn prec_stays_in_month(self, d: Date) -> bool {
        exists|p: Date| #[trigger] self.prec_rel(d, p) && same_month(p, d)
    }

    /// Some business day falls in `d`'s month.
    pub open spec fn has_busday_in_month(self, d: Date) -> bool {
        exists|b: Date| b.valid() && #[trigger] self.spec_is_busday(b) && same_month(b, d)
    }

    /// What `adjust` returns for each convention.
    pub open spec fn adjusted(self, d: Date, conv: BusdayConvention, r: Date) -> bool {
        match conv {
            BusdayConvention::Following => self.foll_rel(d, r),
            BusdayConvention::Preceding => self.prec_rel(d, r),
            BusdayConvention::ModifiedFollowing => if self.foll_stays_in_month(d) {
                self.foll_rel(d, r) && same_month(r, d)
            } else {
                self.prec_rel(d, r)
            },
            BusdayConvention::ModifiedPreceding => if self.prec_stays_in_month(d) {
                self.prec_rel(d, r) && same_month(r, d)
            } else {
                self.foll_rel(d, r)
            },
            BusdayConvention::Unadjusted => r == d,
        }
    }

    /// Head-room the walks behind each convention need inside the supported
    /// date range.
    pub open spec fn adjust_room(self, d: Date, conv: BusdayConvention) -> bool {
        match conv {
            BusdayConvention::Following => self.holidays_in_range() && d.day_num() + 7
                <= max_day_num(),
            BusdayConvention::Preceding => self.holidays_in_range() && min_day_num()
                <= d.day_num() - 7,
            BusdayConvention::ModifiedFollowing => self.holidays_in_range() && d.day_num() + 7
                <= max_day_num() && min_day_num() <= d.day_num() - 7,
            BusdayConvention::ModifiedPreceding => self.holidays_in_range() && d.day_num() + 7
                <= max_day_num() && min_day_num() <= d.day_num() - 7,
            BusdayConvention::Unadjusted => true,
        }
    }

    /// Number of business days with day number in the half-open range
    /// `[lo, hi)`.
    pub open spec fn busdays_between(self, lo: int, hi: int) -> int
        decreases hi - lo,
    {
        if hi <= lo {
            0
        } else {
            self.busdays_between(lo, hi - 1) + if self.busy_num(hi - 1) {
                1int
            } else {
                0int
            }
        }
    }

    /// Counting business days over a range splits at any point inside it.
    pub proof fn lemma_busdays_split(self, lo: int, mid: int, hi: int)
        requires
            lo <= mid <= hi,
        ensures
            self.busdays_between(lo, hi) == self.busdays_between(lo, mid) + self.busdays_between(
                mid,
                hi,
            ),
        decreases hi - mid,
    {
        if hi > mid {
            self.lemma_busdays_split(lo, mid, hi - 1);
        }
    }

    /// A range without business days counts zero.
    pub proof fn lemma_busdays_none(self, lo: int, hi: int)
        requires
            forall|m: int| lo <= m < hi ==> !self.busy_num(m),
        ensures
            self.busdays_between(lo, hi) == 0,
        decreases hi - lo,
    {
        if hi > lo {
            self.lemma_busdays_none(lo, hi - 1);
        }
    }

    /// A count of business days is never negative and never exceeds the
    /// width of the range.
    pub proof fn lemma_busdays_nonneg(self, lo: int, hi: int)
        ensures
            0 <= self.busdays_between(lo, hi) <= (if hi >= lo {
                hi - lo
            } else {
                0int
            }),
        decreases hi - lo,
    {
        if hi > lo {
            self.lemma_busdays_nonneg(lo, hi - 1);
        }
    }

    /// A single day counts one exactly when it is a business day.
    pub proof fn lemma_busdays_single(self, n: int)
        ensures
            self.busdays_between(n, n + 1) == (if self.busy_num(n) {
                1int
            } else {
                0int
            }),
    {
        self.lemma_busdays_none(n, n);
    }

    /// Of two dates counted from the same start, the one with more business
    /// days in between lies strictly later.  With the counting clause of
    /// `add_busdays` this says that adding business days is strictly
    /// increasing in the day count.
    pub proof fn lemma_count_monotonic(self, a: Date, r1: Date, r2: Date, n1: int, n2: int)
        requires
            a.day_num() <= r1.day_num(),
            a.day_num() <= r2.day_num(),
            self.busdays_between(a.day_num() + 1, r1.day_num() + 1) == n1,
            self.busdays_between(a.day_num() + 1, r2.day_num() + 1) == n2,
            n1 < n2,
        ensures
            r1.day_num() < r2.day_num(),
    {
        if r1.day_num() >= r2.day_num() {
            self.lemma_busdays_split(a.day_num() + 1, r2.day_num() + 1, r1.day_num() + 1);
            self.lemma_busdays_nonneg(r2.day_num() + 1, r1.day_num() + 1);
        }
    }

    /// A business day `a` with `n` business days in `(a, r]` is the one and
    /// only business day with `n` business days in `[_, r)`.  With the
    /// counting clauses of `add_busdays` and `sub_busdays` this says that
    /// subtracting as many business days as were added returns to the
    /// adjusted start.
    pub proof fn lemma_count_inverse(self, a: Date, r: Date, b: Date, n: int)
        requires
            a.valid(),
            b.valid(),
            self.busy_num(a.day_num()),
            self.busy_num(b.day_num()),
            self.busy_num(r.day_num()),
            a.day_num() <= r.day_num(),
            b.day_num() <= r.day_num(),
            self.busdays_between(a.day_num() + 1, r.day_num() + 1) == n,
            self.busdays_between(b.day_num(), r.day_num()) == n,
        ensures
            b == a,
    {
        let an = a.day_num();
        let bn = b.day_num();
        let rn = r.day_num();
        self.lemma_busdays_single(an);
        self.lemma_busdays_single(bn);
        self.lemma_busdays_single(rn);
        if bn < an {
            self.lemma_busdays_split(bn, bn + 1, rn);
            self.lemma_busdays_nonneg(bn + 1, rn);
            if an == rn {
                assert(false);
            } else {
                self.lemma_busdays_split(bn + 1, an + 1, rn);
                self.lemma_busdays_split(bn + 1, an, an + 1);
                self.lemma_busdays_nonneg(bn + 1, an);
                self.lemma_busdays_split(an + 1, rn, rn + 1);
                assert(false);
            }
        } else if bn > an {
            self.lemma_busdays_split(an + 1, bn, rn + 1);
            self.lemma_busdays_split(bn, rn, rn + 1);
            self.lemma_busdays_nonneg(an + 1, bn);
            assert(false);
        } else {
            lemma_day_num_injective(a, b);
        }
    }

    /// Between a date and the business day right after it there is no
    /// business day number at all.
    proof fn lemma_no_busy_between(self, d1: Date, d2: Date)
        requires
            self.wf(),
            d1.valid(),
            self.next_busday_rel(d1, d2),
        ensures
            forall|m: int| d1.day_num() < m < d2.day_num() ==> !self.busy_num(m),
    {
        assert forall|m: int| d1.day_num() < m < d2.day_num() implies !self.busy_num(m) by {
            lemma_day_num_range(d1);
            lemma_day_num_range(d2);
            lemma_date_for_day_num(m);
            let e = choose|e: Date| e.valid() && #[trigger] e.day_num() == m;
            self.lemma_busday_chars(e);
        }
    }

    /// The mirror image: between the business day right before a date and
    /// the date itself there is no business day number.
    proof fn lemma_no_busy_between_down(self, d1: Date, d2: Date)
        requires
            self.wf(),
            d1.valid(),
            self.prev_busday_rel(d1, d2),
        ensures
            forall|m: int| d2.day_num() < m < d1.day_num() ==> !self.busy_num(m),
    {
        assert forall|m: int| d2.day_num() < m < d1.day_num() implies !self.busy_num(m) by {
            lemma_day_num_range(d1);
            lemma_day_num_range(d2);
            lemma_date_for_day_num(m);
            let e = choose|e: Date| e.valid() && #[trigger] e.day_num() == m;
            self.lemma_busday_chars(e);
        }
    }

    /// On valid dates, the date-level business-day predicate and the
    /// day-number-level one agree.
    pub proof fn lemma_busday_chars(self, d: Date)
        requires
            self.wf(),
            d.valid(),
        ensures
            self.spec_is_busday(d) == self.busy_num(d.day_num()),
    {
        if self.holiday_num(d.day_num()) {
            let i = choose|i: int|
                0 <= i < self.spec_holidays().len() && (#[trigger] self.spec_holidays()[
                    i
                ]).day_num() == d.day_num();
            lemma_day_num_injective(self.spec_holidays()[i], d);
            assert(self.spec_holidays().contains(d));
        }
        if self.spec_is_holiday(d) {
            let i = choose|i: int|
                0 <= i < self.spec_holidays().len() && self.spec_holidays()[i] == d;
            assert((self.spec_holidays()[i]).day_num() == d.day_num());
            assert(self.holiday_num(d.day_num()));
        }
    }

    /// Some business day number lies in the week after `max(lo, hmax)`.
    proof fn lemma_busy_above(self, lo: int)
        requires
            self.wf(),
            self.holidays_in_range(),
            lo + 7 <= max_day_num(),
        ensures
            exists|n: int| lo < n <= int_max(lo, self.hmax()) + 7 && #[trigger] self.busy_num(n),
    {
        let big = int_max(lo, self.hmax());
        lemma_seq_day_max(self.spec_holidays());
        lemma_seq_day_max_le(self.spec_holidays(), max_day_num() - 7);
        let w = choose|w: int| 0 <= w < 7 && self.spec_weekmask()[w];
        let t = (w - (big + 3)) % 7;
        lemma_mod_bound(w - (big + 3), 7);
        let n = big + 1 + t;
        lemma_add_mod_noop_right(big + 3, w - (big + 3), 7);
        lemma_small_mod(w as nat, 7nat);
        assert((n + 2) % 7 == w);
        assert(!self.holiday_num(n));
        assert(self.busy_num(n));
        assert(lo < n <= big + 7);
    }

    /// Some business day number lies in the week before `min(lo, hmin)`.
    proof fn lemma_busy_below(self, lo: int)
        requires
            self.wf(),
            self.holidays_in_range(),
            min_day_num() <= lo - 7,
        ensures
            exists|n: int| int_min(lo, self.hmin()) - 7 <= n < lo && #[trigger] self.busy_num(n),
    {
        let small = int_min(lo, self.hmin());
        lemma_seq_day_min(self.spec_holidays());
        lemma_seq_day_min_ge(self.spec_holidays(), min_day_num() + 7);
        let w = choose|w: int| 0 <= w < 7 && self.spec_weekmask()[w];
        let t = (w - (small - 5)) % 7;
        lemma_mod_bound(w - (small - 5), 7);
        let n = small - 7 + t;
        lemma_add_mod_noop_right(small - 5, w - (small - 5), 7);
        lemma_small_mod(w as nat, 7nat);
        assert((n + 2) % 7 == w);
        assert(!self.holiday_num(n));
        assert(self.busy_num(n));
        assert(small - 7 <= n < lo);
    }

    /// A least business day number above `lo` exists once any exists up to
    /// `hi`.
    proof fn lemma_first_busy_above(self, lo: int, hi: int)
        requires
            exists|n: int| lo < n <= hi && #[trigger] self.busy_num(n),
        ensures
            exists|n: int|
                lo < n <= hi && #[trigger] self.busy_num(n) && (forall|m: int|
                    lo < m < n ==> !self.busy_num(m)),
        decreases hi - lo,
    {
        if self.busy_num(lo + 1) {
            assert(lo < lo + 1 <= hi && self.busy_num(lo + 1) && (forall|m: int|
                lo < m < lo + 1 ==> !self.busy_num(m)));
        } else {
            let n0 = choose|n: int| lo < n <= hi && #[trigger] self.busy_num(n);
            assert(lo + 1 < n0 <= hi);
            self.lemma_first_busy_above(lo + 1, hi);
            let n1 = choose|n: int|
                lo + 1 < n <= hi && #[trigger] self.busy_num(n) && (forall|m: int|
                    lo + 1 < m < n ==> !self.busy_num(m));
            assert forall|m: int| lo < m < n1 implies !self.busy_num(m) by {
                if m != lo + 1 {
                    assert(!self.busy_num(m));
                }
            }
            assert(lo < n1 <= hi && self.busy_num(n1) && (forall|m: int|
                lo < m < n1 ==> !self.busy_num(m)));
        }
    }

    /// A greatest business day number below `lo` exists once any exists down
    /// to `lo2`.
    proof fn lemma_first_busy_below(self, lo: int, lo2: int)
        requires
            exists|n: int| lo2 <= n < lo && #[trigger] self.busy_num(n),
        ensures
            exists|n: int|
                lo2 <= n < lo && #[trigger] self.busy_num(n) && (forall|m: int|
                    n < m < lo ==> !self.busy_num(m)),
        decreases lo - lo2,
    {
        if self.busy_num(lo - 1) {
            assert(lo2 <= lo - 1 < lo && self.busy_num(lo - 1) && (forall|m: int|
                lo - 1 < m < lo ==> !self.busy_num(m)));
        } else {
            let n0 = choose|n: int| lo2 <= n < lo && #[trigger] self.busy_num(n);
            assert(lo2 <= n0 < lo - 1);
            self.lemma_first_busy_below(lo - 1, lo2);
            let n1 = choose|n: int|
                lo2 <= n < lo - 1 && #[trigger] self.busy_num(n) && (forall|m: int|
                    n < m < lo - 1 ==> !self.busy_num(m));
            assert forall|m: int| n1 < m < lo implies !self.busy_num(m) by {
                if m != lo - 1 {
                    assert(!self.busy_num(m));
                }
            }
            assert(lo2 <= n1 < lo && self.busy_num(n1) && (forall|m: int|
                n1 < m < lo ==> !self.busy_num(m)));
        }
    }

    /// The first business day at or after a date is unique.
    pub proof fn lemma_foll_unique(self, d: Date, r1: Date, r2: Date)
        requires
            self.foll_rel(d, r1),
            self.foll_rel(d, r2),
        ensures
            r1 == r2,
    {
        if r1.day_num() < r2.day_num() {
            assert(!self.spec_is_busday(r1));
        } else if r2.day_num() < r1.day_num() {
            assert(!self.spec_is_busday(r2));
        } else {
            lemma_day_num_injective(r1, r2);
        }
    }

    /// The last business day at or before a date is unique.
    pub proof fn lemma_prec_unique(self, d: Date, r1: Date, r2: Date)
        requires
            self.prec_rel(d, r1),
            self.prec_rel(d, r2),
        ensures
            r1 == r2,
    {
        if r1.day_num() < r2.day_num() {
            assert(!self.spec_is_busday(r1));
        } else if r2.day_num() < r1.day_num() {
            assert(!self.spec_is_busday(r2));
        } else {
            lemma_day_num_injective(r1, r2);
        }
    }

    /// For every convention, the adjusted date is unique; together with the
    /// `days == 0` clause of `add_busdays` and `sub_busdays` this says that
    /// adding or subtracting zero business days is exactly `adjust`.
    pub proof fn lemma_adjusted_unique(self, d: Date, conv: BusdayConvention, r1: Date, r2: Date)
        requires
            self.adjusted(d, conv, r1),
            self.adjusted(d, conv, r2),
        ensures
            r1 == r2,
    {
        match conv {
            BusdayConvention::Following => self.lemma_foll_unique(d, r1, r2),
            BusdayConvention::Preceding => self.lemma_prec_unique(d, r1, r2),
            BusdayConvention::ModifiedFollowing => {
                if self.foll_stays_in_month(d) {
                    self.lemma_foll_unique(d, r1, r2);
                } else {
                    self.lemma_prec_unique(d, r1, r2);
                }
            },
            BusdayConvention::ModifiedPreceding => {
                if self.prec_stays_in_month(d) {
                    self.lemma_prec_unique(d, r1, r2);
                } else {
                    self.lemma_foll_unique(d, r1, r2);
                }
            },
            BusdayConvention::Unadjusted => {},
        }
    }

    /// Whether `dt`'s day of the week is a business weekday.
    pub fn is_weekday(&self, dt: Date) -> (r: bool)
        requires
            self.wf(),
            dt.valid(),
        ensures
            r == self.spec_is_weekday(dt),
    {
        let w = dt.weekday();
        self.weekmask[w as usize]
    }

    /// Whether `dt` falls on a non-business day of the week; the logical
    /// negation of `is_weekday`.
    pub fn is_weekend(&self, dt: Date) -> (r: bool)
        requires
            self.wf(),
            dt.valid(),
        ensures
            r == !self.spec_is_weekday(dt),
    {
        !self.is_weekday(dt)
    }

    /// Whether `dt` is a holiday.
    pub fn is_holiday(&self, dt: Date) -> (r: bool)
        ensures
            r == self.spec_is_holiday(dt),
    {
        let mut i: usize = 0;
        while i < self.holidays.len()
            invariant
                i <= self.holidays@.len(),
                forall|j: int| 0 <= j < i ==> self.holidays@[j] != dt,
            decreases self.holidays@.len() - i,
        {
            if self.holidays[i] == dt {
                return true;
            }
            i += 1;
        }
        assert(!self.spec_holidays().contains(dt));
        false
    }

    /// Whether `dt` is a valid business day: a business weekday that is not
    /// a holiday.
    pub fn is_busday(&self, dt: Date) -> (r: bool)
        requires
            self.wf(),
            dt.valid(),
        ensures
            r == self.spec_is_busday(dt),
            r == (self.spec_is_weekday(dt) && !self.spec_is_holiday(dt)),
    {
        self.is_weekday(dt) && !self.is_holiday(dt)
    }

    /// The first business day strictly after `dt`.
    pub fn succ(&self, dt: Date) -> (r: Date)
        requires
            self.wf(),
            self.holidays_in_range(),
            dt.valid(),
            dt.day_num() + 7 <= max_day_num(),
        ensures
            self.next_busday_rel(dt, r),
            r.day_num() <= int_max(dt.day_num(), self.hmax()) + 7,
    {
        proof {
            lemma_seq_day_max(self.spec_holidays());
            lemma_seq_day_max_le(self.spec_holidays(), max_day_num() - 7);
            self.lemma_busy_above(dt.day_num());
            self.lemma_first_busy_above(dt.day_num(), int_max(dt.day_num(), self.hmax()) + 7);
        }
        let ghost nstar: int = choose|n: int|
            dt.day_num() < n <= int_max(dt.day_num(), self.hmax()) + 7 && #[trigger] self.busy_num(
                n,
            ) && (forall|m: int| dt.day_num() < m < n ==> !self.busy_num(m));
        let mut cur = dt.next_day();
        let mut done = self.is_busday(cur);
        proof {
            self.lemma_busday_chars(cur);
        }
        while !done
            invariant
                self.wf(),
                self.holidays_in_range(),
                dt.valid(),
                cur.valid(),
                dt.day_num() < cur.day_num() <= nstar,
                nstar <= int_max(dt.day_num(), self.hmax()) + 7,
                int_max(dt.day_num(), self.hmax()) + 7 <= max_day_num(),
                self.busy_num(nstar),
                forall|m: int| dt.day_num() < m < nstar ==> !self.busy_num(m),
                done == self.spec_is_busday(cur),
                done == self.busy_num(cur.day_num()),
            decreases nstar - cur.day_num(),
        {
            cur = cur.next_day();
            done = self.is_busday(cur);
            proof {
                self.lemma_busday_chars(cur);
            }
        }
        proof {
            assert(cur.day_num() == nstar);
            assert forall|e: Date|
                e.valid() && dt.day_num() < #[trigger] e.day_num()
                    < cur.day_num() implies !self.spec_is_busday(e) by {
                self.lemma_busday_chars(e);
            }
        }
        cur
    }

    /// The last business day strictly before `dt`.
    pub fn pred(&self, dt: Date) -> (r: Date)
        requires
            self.wf(),
            self.holidays_in_range(),
            dt.valid(),
            min_day_num() <= dt.day_num() - 7,
        ensures
            self.prev_busday_rel(dt, r),
            r.day_num() >= int_min(dt.day_num(), self.hmin()) - 7,
    {
        proof {
            lemma_seq_day_min(self.spec_holidays());
            lemma_seq_day_min_ge(self.spec_holidays(), min_day_num() + 7);
            self.lemma_busy_below(dt.day_num());
            self.lemma_first_busy_below(dt.day_num(), int_min(dt.day_num(), self.hmin()) - 7);
        }
        let ghost nstar: int = choose|n: int|
            int_min(dt.day_num(), self.hmin()) - 7 <= n < dt.day_num() && #[trigger] self.busy_num(
                n,
            ) && (forall|m: int| n < m < dt.day_num() ==> !self.busy_num(m));
        let mut cur = dt.prev_day();
        let mut done = self.is_busday(cur);
        proof {
            self.lemma_busday_chars(cur);
        }
        while !done
            invariant
                self.wf(),
                self.holidays_in_range(),
                dt.valid(),
                cur.valid(),
                nstar <= cur.day_num() < dt.day_num(),
                int_min(dt.day_num(), self.hmin()) - 7 <= nstar,
                min_day_num() <= int_min(dt.day_num(), self.hmin()) - 7,
                self.busy_num(nstar),
                forall|m: int| nstar < m < dt.day_num() ==> !self.busy_num(m),
                done == self.spec_is_busday(cur),
                done == self.busy_num(cur.day_num()),
            decreases cur.day_num() - nstar,
        {
            cur = cur.prev_day();
            done = self.is_busday(cur);
            proof {
                self.lemma_busday_chars(cur);
            }
        }
        proof {
            assert(cur.day_num() == nstar);
            assert forall|e: Date|
                e.valid() && cur.day_num() < #[trigger] e.day_num()
                    < dt.day_num() implies !self.spec_is_busday(e) by {
                self.lemma_busday_chars(e);
            }
        }
        cur
    }

    /// `dt` itself when it is a business day, else the next one.
    fn foll(&self, dt: Date) -> (r: Date)
        requires
            self.wf(),
            self.holidays_in_range(),
            dt.valid(),
            dt.day_num() + 7 <= max_day_num(),
        ensures
            self.foll_rel(dt, r),
            r.day_num() <= int_max(dt.day_num(), self.hmax()) + 7,
    {
        if self.is_busday(dt) {
            dt
        } else {
            let r = self.succ(dt);
            proof {
                assert forall|e: Date|
                    e.valid() && dt.day_num() <= #[trigger] e.day_num()
                        < r.day_num() implies !self.spec_is_busday(e) by {
                    if e.day_num() == dt.day_num() {
                        lemma_day_num_injective(e, dt);
                    }
                }
            }
            r
        }
    }

    /// `dt` itself when it is a business day, else the previous one.
    fn prec(&self, dt: Date) -> (r: Date)
        requires
            self.wf(),
            self.holidays_in_range(),
            dt.valid(),
            min_day_num() <= dt.day_num() - 7,
        ensures
            self.prec_rel(dt, r),
            r.day_num() >= int_min(dt.day_num(), self.hmin()) - 7,
    {
        if self.is_busday(dt) {
            dt
        } else {
            let r = self.pred(dt);
            proof {
                assert forall|e: Date|
                    e.valid() && r.day_num() < #[trigger] e.day_num()
                        <= dt.day_num() implies !self.spec_is_busday(e) by {
                    if e.day_num() == dt.day_num() {
                        lemma_day_num_injective(e, dt);
                    }
                }
            }
            r
        }
    }

    /// Roll forward, unless that leaves the month; then roll backward.
    #[verifier::rlimit(60)]
    fn modfoll(&self, dt: Date) -> (r: Date)
        requires
            self.wf(),
            self.holidays_in_range(),
            dt.valid(),
            dt.day_num() + 7 <= max_day_num(),
            min_day_num() <= dt.day_num() - 7,
        ensures
            self.adjusted(dt, BusdayConvention::ModifiedFollowing, r),
            self.has_busday_in_month(dt) ==> same_month(r, dt),
            int_min(dt.day_num(), self.hmin()) - 7 <= r.day_num() <= int_max(
                dt.day_num(),
                self.hmax(),
            ) + 7,
    {
        let f = self.foll(dt);
        if f.year == dt.year && f.month == dt.month {
            proof {
                assert(self.foll_rel(dt, f) && same_month(f, dt));
                assert(self.foll_stays_in_month(dt));
            }
            f
        } else {
            let p = self.prec(dt);
            proof {
                if self.foll_stays_in_month(dt) {
                    let f2 = choose|f2: Date| #[trigger]
                        self.foll_rel(dt, f2) && same_month(f2, dt);
                    self.lemma_foll_unique(dt, f2, f);
                    assert(false);
                }
                if self.has_busday_in_month(dt) {
                    let b = choose|b: Date|
                        b.valid() && #[trigger] self.spec_is_busday(b) && same_month(b, dt);
                    if b.day_num() > dt.day_num() {
                        if b.day_num() < f.day_num() {
                            assert(false);
                        }
                        lemma_month_convex(dt, b, f);
                        assert(false);
                    } else if b.day_num() == dt.day_num() {
                        lemma_day_num_injective(b, dt);
                        assert(false);
                    } else {
                        assert(b.day_num() <= p.day_num());
                        lemma_month_convex(b, dt, p);
                    }
                }
            }
            p
        }
    }

    /// Roll backward, unless that leaves the month; then roll forward.
    #[verifier::rlimit(60)]
    fn modprec(&self, dt: Date) -> (r: Date)
        requires
            self.wf(),
            self.holidays_in_range(),
            dt.valid(),
            dt.day_num() + 7 <= max_day_num(),
            min_day_num() <= dt.day_num() - 7,
        ensures
            self.adjusted(dt, BusdayConvention::ModifiedPreceding, r),
            self.has_busday_in_month(dt) ==> same_month(r, dt),
            int_min(dt.day_num(), self.hmin()) - 7 <= r.day_num() <= int_max(
                dt.day_num(),
                self.hmax(),
            ) + 7,
    {
        let p = self.prec(dt);
        if p.year == dt.year && p.month == dt.month {
            proof {
                assert(self.prec_rel(dt, p) && same_month(p, dt));
                assert(self.prec_stays_in_month(dt));
            }
            p
        } else {
            let f = self.foll(dt);
            proof {
                if self.prec_stays_in_month(dt) {
                    let p2 = choose|p2: Date| #[trigger]
                        self.prec_rel(dt, p2) && same_month(p2, dt);
                    self.lemma_prec_unique(dt, p2, p);
                    assert(false);
                }
                if self.has_busday_in_month(dt) {
                    let b = choose|b: Date|
                        b.valid() && #[trigger] self.spec_is_busday(b) && same_month(b, dt);
                    if b.day_num() < dt.day_num() {
                        if b.day_num() > p.day_num() {
                            assert(false);
                        }
                        lemma_month_convex(b, dt, p);
                        assert(false);
                    } else if b.day_num() == dt.day_num() {
                        lemma_day_num_injective(b, dt);
                        assert(false);
                    } else {
                        assert(f.day_num() <= b.day_num());
                        lemma_month_convex(dt, b, f);
                    }
                }
            }
            f
        }
    }

    /// Roll `dt` to a business day according to `conv`; with `Unadjusted`
    /// the date is returned unchanged.  With a modified convention the
    /// result stays in `dt`'s month whenever the month has a business day.
    pub fn adjust(&self, dt: Date, conv: BusdayConvention) -> (r: Date)
        requires
            self.wf(),
            dt.valid(),
            self.adjust_room(dt, conv),
        ensures
            r.valid(),
            self.adjusted(dt, conv, r),
            (conv == BusdayConvention::ModifiedFollowing || conv
                == BusdayConvention::ModifiedPreceding) && self.has_busday_in_month(dt)
                ==> same_month(r, dt),
            int_min(dt.day_num(), self.hmin()) - 7 <= r.day_num() <= int_max(
                dt.day_num(),
                self.hmax(),
            ) + 7,
    {
        match conv {
            BusdayConvention::Following => self.foll(dt),
            BusdayConvention::Preceding => self.prec(dt),
            BusdayConvention::ModifiedFollowing => self.modfoll(dt),
            BusdayConvention::ModifiedPreceding => self.modprec(dt),
            BusdayConvention::Unadjusted => dt,
        }
    }

    /// Adjust `dt` by `conv`, then step forward `days` business days.
    pub fn add_busdays(&self, dt: Date, days: u32, conv: BusdayConvention) -> (r: Date)
        requires
            self.wf(),
            self.holidays_in_range(),
            dt.valid(),
            self.adjust_room(dt, conv),
            int_max(dt.day_num(), self.hmax()) + 7 * (days as int + 1) <= max_day_num(),
        ensures
            r.valid(),
            exists|a: Date| #[trigger]
                self.adjusted(dt, conv, a) && a.day_num() <= r.day_num()
                && self.busdays_between(a.day_num() + 1, r.day_num() + 1) == days,
            days == 0 ==> self.adjusted(dt, conv, r),
            days > 0 ==> self.spec_is_busday(r),
    {
        let a = self.adjust(dt, conv);
        let mut cur = a;
        let mut cntr: u32 = 0;
        while cntr < days
            invariant
                self.wf(),
                self.holidays_in_range(),
                dt.valid(),
                cur.valid(),
                cntr <= days,
                self.adjusted(dt, conv, a),
                cntr == 0 ==> cur == a,
                a.day_num() <= cur.day_num(),
                self.busdays_between(a.day_num() + 1, cur.day_num() + 1) == cntr,
                cur.day_num() <= int_max(dt.day_num(), self.hmax()) + 7 * (cntr as int + 1),
                int_max(dt.day_num(), self.hmax()) + 7 * (days as int + 1) <= max_day_num(),
                cntr > 0 ==> self.spec_is_busday(cur),
            decreases days - cntr,
        {
            let ghost prev = cur;
            cur = self.succ(cur);
            cntr = cntr + 1;
            proof {
                self.lemma_no_busy_between(prev, cur);
                self.lemma_busday_chars(cur);
                self.lemma_busdays_none(prev.day_num() + 1, cur.day_num());
                self.lemma_busdays_split(
                    a.day_num() + 1,
                    prev.day_num() + 1,
                    cur.day_num() + 1,
                );
                self.lemma_busdays_split(
                    prev.day_num() + 1,
                    cur.day_num(),
                    cur.day_num() + 1,
                );
                self.lemma_busdays_none(cur.day_num(), cur.day_num());
                assert(self.busdays_between(cur.day_num(), cur.day_num() + 1) == 1);
            }
        }
        proof {
            assert(self.adjusted(dt, conv, a) && a.day_num() <= cur.day_num()
                && self.busdays_between(a.day_num() + 1, cur.day_num() + 1) == days);
        }
        cur
    }

    /// Adjust `dt` by `conv`, then step backward `days` business days.
    pub fn sub_busdays(&self, dt: Date, days: u32, conv: BusdayConvention) -> (r: Date)
        requires
            self.wf(),
            self.holidays_in_range(),
            dt.valid(),
            self.adjust_room(dt, conv),
            int_min(dt.day_num(), self.hmin()) - 7 * (days as int + 1) >= min_day_num(),
        ensures
            r.valid(),
            exists|a: Date| #[trigger]
                self.adjusted(dt, conv, a) && r.day_num() <= a.day_num()
                && self.busdays_between(r.day_num(), a.day_num()) == days,
            days == 0 ==> self.adjusted(dt, conv, r),
            days > 0 ==> self.spec_is_busday(r),
    {
        let a = self.adjust(dt, conv);
        let mut cur = a;
        let mut cntr: u32 = 0;
        while cntr < days
            invariant
                self.wf(),
                self.holidays_in_range(),
                dt.valid(),
                cur.valid(),
                cntr <= days,
                self.adjusted(dt, conv, a),
                cntr == 0 ==> cur == a,
                cur.day_num() <= a.day_num(),
                self.busdays_between(cur.day_num(), a.day_num()) == cntr,
                cur.day_num() >= int_min(dt.day_num(), self.hmin()) - 7 * (cntr as int + 1),
                int_min(dt.day_num(), self.hmin()) - 7 * (days as int + 1) >= min_day_num(),
                cntr > 0 ==> self.spec_is_busday(cur),
            decreases days - cntr,
        {
            let ghost prev = cur;
            cur = self.pred(cur);
            cntr = cntr + 1;
            proof {
                self.lemma_no_busy_between_down(prev, cur);
                self.lemma_busday_chars(cur);
                self.lemma_busdays_none(cur.day_num() + 1, prev.day_num());
                self.lemma_busdays_split(cur.day_num(), prev.day_num(), a.day_num());
                self.lemma_busdays_split(
                    cur.day_num(),
                    cur.day_num() + 1,
                    prev.day_num(),
                );
                self.lemma_busdays_none(cur.day_num(), cur.day_num());
                assert(self.busdays_between(cur.day_num(), cur.day_num() + 1) == 1);
            }
        }
        proof {
            assert(self.adjusted(dt, conv, a) && cur.day_num() <= a.day_num()
                && self.busdays_between(cur.day_num(), a.day_num()) == days);
        }
        cur
    }

    /// The first business day of `dt`'s month.
    pub fn bom_bus(&self, dt: Date) -> (r: Date)
        requires
            self.wf(),
            self.holidays_in_range(),
            dt.valid(),
            dt.day_num() + 7 <= max_day_num(),
        ensures
            self.foll_rel(month_first(dt), r),
    {
        let first = Date { year: dt.year, month: dt.month, day: 1 };
        proof {
            assert(first.valid());
            assert(first == month_first(dt));
            if lex_lt(first, dt) {
                lemma_day_num_mono(first, dt);
            }
            assert(first == dt || lex_lt(first, dt));
        }
        self.adjust(first, BusdayConvention::Following)
    }

    /// The last business day of `dt`'s month.
    pub fn eom_bus(&self, dt: Date) -> (r: Date)
        requires
            self.wf(),
            self.holidays_in_range(),
            dt.valid(),
            min_day_num() <= dt.day_num() - 7,
        ensures
            self.prec_rel(month_last(dt), r),
    {
        let dim = days_in_month(dt.year, dt.month);
        let lastd = Date { year: dt.year, month: dt.month, day: dim };
        proof {
            assert(lastd.valid());
            assert(lastd == month_last(dt));
            if lex_lt(dt, lastd) {
                lemma_day_num_mono(dt, lastd);
            }
            assert(lastd == dt || lex_lt(dt, lastd));
        }
        self.adjust(lastd, BusdayConvention::Preceding)
    }

    /// Number of business days in the half-open date range `[start, end)`;
    /// zero when `start` is not before `end`.
    pub fn busday_count(&self, start: Date, end: Date) -> (n: u32)
        requires
            self.wf(),
            start.valid(),
            end.valid(),
        ensures
            n == self.busdays_between(start.day_num(), end.day_num()),
    {
        let e: u64 = end.day_number();
        let mut cur = start;
        let mut cn: u64 = start.day_number();
        let mut n: u32 = 0;
        proof {
            lemma_day_num_range(end);
        }
        while cn < e
            invariant
                self.wf(),
                start.valid(),
                end.valid(),
                cur.valid(),
                e == end.day_num(),
                cn == cur.day_num(),
                start.day_num() <= cn,
                cn <= e || cn == start.day_num(),
                n == self.busdays_between(start.day_num(), cur.day_num()),
                n <= cn - start.day_num(),
                end.day_num() <= max_day_num(),
            decreases e - cn,
        {
            let b = self.is_busday(cur);
            proof {
                self.lemma_busday_chars(cur);
            }
            if b {
                n = n + 1;
            }
            cur = cur.next_day();
            cn = cn + 1;
            proof {
                assert(self.busdays_between(start.day_num(), cur.day_num())
                    == self.busdays_between(start.day_num(), cur.day_num() - 1)
                    + if self.busy_num(cur.day_num() - 1) {
                    1int
                } else {
                    0int
                });
            }
        }
        proof {
            if end.day_num() <= start.day_num() {
                assert(self.busdays_between(start.day_num(), end.day_num()) == 0);
                assert(n == 0);
            } else {
                assert(cn == e);
            }
        }
        n
    }

    /// Build a calendar from an optional holiday list and a 7-character
    /// weekday pattern (`'1'` business, `'0'` not, Monday first).  Fails
    /// with `InvalidWeekmask` when the pattern is malformed or admits no
    /// business weekday at all; duplicate holidays are dropped.
    pub fn new(holidays: Option<Vec<Date>>, weekmask: &str) -> (r: Result<
        BusinessCalendar,
        Error,
    >)
        requires
            match holidays {
                Some(v) => forall|i: int| 0 <= i < v@.len() ==> (#[trigger] v@[i]).valid(),
                None => true,
            },
        ensures
            match r {
                Ok(c) => {
                    &&& valid_mask_chars(weekmask@)
                    &&& c.wf()
                    &&& c.spec_weekmask() == mask_of_chars(weekmask@)
                    &&& forall|d: Date|
                        #[trigger] c.spec_holidays().contains(d) <==> match holidays {
                            Some(v) => v@.contains(d),
                            None => false,
                        }
                },
                Err(e) => e == Error::InvalidWeekmask && !valid_mask_chars(weekmask@),
            },
    {
        if weekmask.unicode_len() != 7 {
            return Err(Error::InvalidWeekmask);
        }
        let mut bits: Vec<bool> = Vec::new();
        let mut any = false;
        let mut i: usize = 0;
        while i < 7
            invariant
                weekmask@.len() == 7,
                i <= 7,
                bits@.len() == i,
                forall|j: int| 0 <= j < i ==> (weekmask@[j] == '1' || weekmask@[j] == '0'),
                forall|j: int| 0 <= j < i ==> bits@[j] == (weekmask@[j] == '1'),
                any == exists|j: int| 0 <= j < i && weekmask@[j] == '1',
            decreases 7 - i,
        {
            let c = weekmask.get_char(i);
            if c == '1' {
                bits.push(true);
                any = true;
                proof {
                    assert(weekmask@[i as int] == '1');
                }
            } else if c == '0' {
                bits.push(false);
            } else {
                proof {
                    assert(!(weekmask@[i as int] == '1' || weekmask@[i as int] == '0'));
                }
                return Err(Error::InvalidWeekmask);
            }
            i += 1;
        }
        if !any {
            return Err(Error::InvalidWeekmask);
        }
        proof {
            assert(valid_mask_chars(weekmask@));
            assert(bits@ =~= mask_of_chars(weekmask@));
            let j = choose|j: int| 0 <= j < 7 && weekmask@[j] == '1';
            assert(bits@[j]);
        }
        let hvec: Vec<Date> = match holidays {
            Some(v) => v,
            None => Vec::new(),
        };
        Ok(Self::from_parts(hvec, bits))
    }

    /// Build a calendar from parts that are already known to be sound:
    /// valid holiday dates and a 7-entry pattern with some business weekday.
    /// Duplicate holidays are dropped.
    pub(crate) fn from_parts(hvec: Vec<Date>, bits: Vec<bool>) -> (cal: BusinessCalendar)
        requires
            bits@.len() == 7,
            exists|j: int| 0 <= j < 7 && bits@[j],
            forall|j: int| 0 <= j < hvec@.len() ==> (#[trigger] hvec@[j]).valid(),
        ensures
            cal.wf(),
            cal.spec_weekmask() == bits@,
            forall|d: Date| #[trigger] cal.spec_holidays().contains(d) <==> hvec@.contains(d),
    {
        let mut uniq: Vec<Date> = Vec::new();
        let mut k: usize = 0;
        while k < hvec.len()
            invariant
                k <= hvec@.len(),
                bits@.len() == 7,
                exists|j: int| 0 <= j < 7 && bits@[j],
                forall|j: int| 0 <= j < hvec@.len() ==> (#[trigger] hvec@[j]).valid(),
                forall|j: int, l: int| 0 <= j < l < uniq@.len() ==> uniq@[j] != uniq@[l],
                forall|j: int| 0 <= j < uniq@.len() ==> (#[trigger] uniq@[j]).valid(),
                forall|j: int| 0 <= j < k ==> uniq@.contains(#[trigger] hvec@[j]),
                forall|j: int| 0 <= j < uniq@.len() ==> hvec@.contains(#[trigger] uniq@[j]),
            decreases hvec@.len() - k,
        {
            let d = hvec[k];
            let present = date_in(&uniq, d);
            let ghost olduniq = uniq@;
            if !present {
                uniq.push(d);
            }
            proof {
                assert forall|j: int| 0 <= j < olduniq.len() implies uniq@.contains(
                    #[trigger] olduniq[j],
                ) by {
                    assert(uniq@[j] == olduniq[j]);
                }
                if !present {
                    assert(uniq@[uniq@.len() - 1] == d);
                    assert(uniq@.contains(d));
                    assert(hvec@.contains(hvec@[k as int]));
                }
                assert forall|j: int| 0 <= j < k + 1 implies uniq@.contains(
                    #[trigger] hvec@[j],
                ) by {
                    if j < k {
                        assert(olduniq.contains(hvec@[j]));
                        let l = choose|l: int| 0 <= l < olduniq.len() && olduniq[l] == hvec@[j];
                        assert(uniq@[l] == hvec@[j]);
                    } else {
                        if present {
                            assert(olduniq.contains(d));
                            let l = choose|l: int| 0 <= l < olduniq.len() && olduniq[l] == d;
                            assert(uniq@[l] == d);
                        }
                    }
                }
            }
            k += 1;
        }
        let cal = BusinessCalendar { holidays: uniq, weekmask: bits };
        proof {
            assert(cal.spec_weekmask() == bits@ && cal.spec_holidays() == uniq@);
            assert(cal.spec_weekmask().len() == 7);
            assert(exists|w: int| 0 <= w < 7 && cal.spec_weekmask()[w]);
            assert(forall|i: int|
                0 <= i < cal.spec_holidays().len() ==> (#[trigger] cal.spec_holidays()[
                    i
                ]).valid());
            assert(forall|i: int, j: int|
                0 <= i < j < cal.spec_holidays().len() ==> cal.spec_holidays()[i]
                    != cal.spec_holidays()[j]);
            assert(cal.wf());
            assert forall|d: Date| #[trigger]
                cal.spec_holidays().contains(d) implies hvec@.contains(d) by {
                let j = choose|j: int| 0 <= j < uniq@.len() && uniq@[j] == d;
                assert(hvec@.contains(uniq@[j]));
            }
            assert forall|d: Date| hvec@.contains(d) implies #[trigger]
                cal.spec_holidays().contains(d) by {
                let j = choose|j: int| 0 <= j < hvec@.len() && hvec@[j] == d;
                assert(uniq@.contains(hvec@[j]));
            }
        }
        cal
    }

    /// The holiday dates, in stored order.
    pub fn holidays(&self) -> (r: Vec<Date>)
        ensures
            r@ == self.spec_holidays(),
    {
        let mut r: Vec<Date> = Vec::new();
        let mut i: usize = 0;
        while i < self.holidays.len()
            invariant
                i <= self.holidays@.len(),
                r@ =~= self.holidays@.take(i as int),
            decreases self.holidays@.len() - i,
        {
            r.push(self.holidays[i]);
            proof {
                assert(r@ =~= self.holidays@.take(i as int + 1));
            }
            i += 1;
        }
        proof {
            assert(r@ =~= self.holidays@);
        }
        r
    }

    /// The weekday pattern in its 7-character string form, Monday first.
    pub fn weekmask(&self) -> (r: String)
        requires
            self.wf(),
        ensures
            r@ == mask_chars(self.spec_weekmask()),
    {
        let mut r = String::new();
        let mut i: usize = 0;
        while i < 7
            invariant
                self.wf(),
                i <= 7,
                r@.len() == i,
                forall|j: int|
                    0 <= j < i ==> r@[j] == (if self.spec_weekmask()[j] {
                        '1'
                    } else {
                        '0'
                    }),
            decreases 7 - i,
        {
            proof {
                reveal_strlit("1");
                reveal_strlit("0");
            }
            if self.weekmask[i] {
                r.append("1");
            } else {
                r.append("0");
            }
            i += 1;
        }
        proof {
            assert(r@ =~= mask_chars(self.spec_weekmask()));
        }
        r
    }
}

} // verus!
