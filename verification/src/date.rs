//! Calendar dates in the proleptic Gregorian calendar, years 1 through 9999.
//!
//! Every date has a day number: its position in the linear sequence of
//! calendar days.  The day number is the mathematical model that the rest of
//! the crate reasons over: consecutive dates have consecutive day numbers,
//! the day number respects the year/month/day ordering, and the day of the
//! week is the day number taken modulo 7.

use vstd::prelude::*;

verus! {

use vstd::arithmetic::div_mod::{
    lemma_fundamental_div_mod, lemma_fundamental_div_mod_converse, lemma_mod_bound,
    lemma_mod_multiples_basic,
};

/// Day number of the smallest supported date, January 1 of year 1.
pub open spec fn min_day_num() -> int {
    306
}

/// Day number of the largest supported date, December 31 of year 9999.
pub open spec fn max_day_num() -> int {
    3652364
}

pub open spec fn is_leap_year(y: int) -> bool {
    (y % 4 == 0 && y % 100 != 0) || y % 400 == 0
}

pub open spec fn days_in_month_of(y: int, m: int) -> int {
    if m == 2 {
        if is_leap_year(y) {
            29
        } else {
            28
        }
    } else if m == 4 || m == 6 || m == 9 || m == 11 {
        30
    } else {
        31
    }
}

/// Days from the start of a March-based year to the start of month `m`:
/// March opens the shifted year, so January and February sit at its end and
/// the leap day falls on its last position.
pub open spec fn month_offset(m: int) -> int {
    if m == 3 {
        0
    } else if m == 4 {
        31
    } else if m == 5 {
        61
    } else if m == 6 {
        92
    } else if m == 7 {
        122
    } else if m == 8 {
        153
    } else if m == 9 {
        184
    } else if m == 10 {
        214
    } else if m == 11 {
        245
    } else if m == 12 {
        275
    } else if m == 1 {
        306
    } else {
        337
    }
}

/// Total number of days in all March-based years before shifted year `yp`.
pub open spec fn days_before_shifted_year(yp: int) -> int {
    365 * yp + yp / 4 - yp / 100 + yp / 400
}

/// A calendar date.  `valid()` is the intended invariant; `Date::new` is the
/// validating constructor and every function of the crate that consumes a
/// date requires validity.
#[derive(Clone, Copy, PartialEq, Eq, Structural, Debug, Hash)]
pub struct Date {
    pub year: i32,
    pub month: u8,
    pub day: u8,
}

pub open spec fn same_month(a: Date, b: Date) -> bool {
    a.year == b.year && a.month == b.month
}

/// The first calendar day of `d`'s month.
pub open spec fn month_first(d: Date) -> Date {
    Date { year: d.year, month: d.month, day: 1 }
}

/// The last calendar day of `d`'s month.
pub open spec fn month_last(d: Date) -> Date {
    Date { year: d.year, month: d.month, day: days_in_month_of(d.year as int, d.month as int) as u8 }
}

/// Strict lexicographic order on (year, month, day).
pub open spec fn lex_lt(a: Date, b: Date) -> bool {
    ||| a.year < b.year
    ||| (a.year == b.year && a.month < b.month)
    ||| (a.year == b.year && a.month == b.month && a.day < b.day)
}

impl Date {
    pub open spec fn valid(self) -> bool {
        &&& 1 <= self.year <= 9999
        &&& 1 <= self.month <= 12
        &&& 1 <= self.day <= days_in_month_of(self.year as int, self.month as int)
    }

    /// The March-based year this date belongs to.
    pub open spec fn shifted_year(self) -> int {
        if self.month <= 2 {
            self.year - 1
        } else {
            self.year as int
        }
    }

    /// Position of the date in the linear day count.
    pub open spec fn day_num(self) -> int {
        days_before_shifted_year(self.shifted_year()) + month_offset(self.month as int)
            + self.day - 1
    }

    /// Day of the week: Monday = 0 through Sunday = 6.
    pub open spec fn weekday_index(self) -> int {
        (self.day_num() + 2) % 7
    }

    /// The next calendar day.
    pub open spec fn spec_next(self) -> Date {
        if self.day < days_in_month_of(self.year as int, self.month as int) {
            Date { year: self.year, month: self.month, day: (self.day + 1) as u8 }
        } else if self.month < 12 {
            Date { year: self.year, month: (self.month + 1) as u8, day: 1 }
        } else {
            Date { year: (self.year + 1) as i32, month: 1, day: 1 }
        }
    }
}

/// How a quotient moves when the dividend steps down by one.
proof fn lemma_div_step(x: int, k: int)
    requires
        k > 0,
    ensures
        x % k == 0 ==> x / k == (x - 1) / k + 1,
        x % k != 0 ==> x / k == (x - 1) / k,
{
    lemma_fundamental_div_mod(x, k);
    lemma_mod_bound(x, k);
    if x % k == 0 {
        assert(x - 1 == (x / k - 1) * k + (k - 1)) by (nonlinear_arith)
            requires x == k * (x / k) + x % k && x % k == 0;
        lemma_fundamental_div_mod_converse(x - 1, k, x / k - 1, k - 1);
    } else {
        assert(x - 1 == (x / k) * k + (x % k - 1)) by (nonlinear_arith)
            requires x == k * (x / k) + x % k;
        lemma_fundamental_div_mod_converse(x - 1, k, x / k, x % k - 1);
    }
}

/// One March-based year holds 365 days, or 366 when it ends in a leap day.
proof fn lemma_year_step(y: int)
    requires
        1 <= y,
    ensures
        days_before_shifted_year(y) == days_before_shifted_year(y - 1) + 365 + (if is_leap_year(y) {
            1int
        } else {
            0int
        }),
{
    lemma_div_step(y, 4);
    lemma_div_step(y, 100);
    lemma_div_step(y, 400);
    if y % 400 == 0 {
        lemma_fundamental_div_mod(y, 400);
        assert(y == 100 * (4 * (y / 400))) by (nonlinear_arith)
            requires y == 400 * (y / 400);
        lemma_mod_multiples_basic(4 * (y / 400), 100);
        assert(y == 4 * (100 * (y / 400))) by (nonlinear_arith)
            requires y == 400 * (y / 400);
        lemma_mod_multiples_basic(100 * (y / 400), 4);
    } else if y % 100 == 0 {
        lemma_fundamental_div_mod(y, 100);
        assert(y == 4 * (25 * (y / 100))) by (nonlinear_arith)
            requires y == 100 * (y / 100);
        lemma_mod_multiples_basic(25 * (y / 100), 4);
    }
}

/// The next calendar day of a valid date (other than the largest supported
/// date) is valid and sits one position later in the day count.
pub proof fn lemma_spec_next(d: Date)
    requires
        d.valid(),
        d.day_num() < max_day_num(),
    ensures
        d.spec_next().valid(),
        d.spec_next().day_num() == d.day_num() + 1,
{
    if d.year == 9999 && d.month == 12 && d.day == 31 {
        assert(d.day_num() == max_day_num());
    }
    if d.day < days_in_month_of(d.year as int, d.month as int) {
    } else if d.month < 12 {
        if d.month == 2 {
            lemma_year_step(d.year as int);
        }
    }
}

/// Day counts of March-based years grow by at least a full year per step.
proof fn lemma_days_before_mono(a: int, b: int)
    requires
        0 <= a < b,
    ensures
        days_before_shifted_year(a) + 365 + (if is_leap_year(a + 1) {
            1int
        } else {
            0int
        }) <= days_before_shifted_year(b),
    decreases b - a,
{
    lemma_year_step(a + 1);
    if a + 1 < b {
        lemma_days_before_mono(a + 1, b);
    }
}

/// The day number is strictly increasing in the (year, month, day) order.
pub proof fn lemma_day_num_mono(a: Date, b: Date)
    requires
        a.valid(),
        b.valid(),
        lex_lt(a, b),
    ensures
        a.day_num() < b.day_num(),
{
    let sa = a.shifted_year();
    let sb = b.shifted_year();
    assert(month_offset(b.month as int) + b.day - 1 >= 0);
    if sa == sb {
    } else {
        assert(0 <= sa < sb);
        lemma_days_before_mono(sa, sb);
        assert((a.month == 2 && a.day == 29) || month_offset(a.month as int) + a.day - 1 <= 364);
        if a.month == 2 && a.day == 29 {
            assert(is_leap_year(a.year as int));
            assert(sa + 1 == a.year as int);
        }
    }
}

/// Valid dates with the same day number are the same date.
pub proof fn lemma_day_num_injective(a: Date, b: Date)
    requires
        a.valid(),
        b.valid(),
        a.day_num() == b.day_num(),
    ensures
        a == b,
{
    if lex_lt(a, b) {
        lemma_day_num_mono(a, b);
    } else if lex_lt(b, a) {
        lemma_day_num_mono(b, a);
    }
}

/// Day numbers of valid dates lie between those of the extreme dates.
pub proof fn lemma_day_num_range(d: Date)
    requires
        d.valid(),
    ensures
        min_day_num() <= d.day_num() <= max_day_num(),
{
    let lo = Date { year: 1, month: 1, day: 1 };
    let hi = Date { year: 9999, month: 12, day: 31 };
    assert(lo.valid());
    assert(hi.valid());
    assert(lo.day_num() == min_day_num());
    assert(hi.day_num() == max_day_num());
    if lex_lt(lo, d) {
        lemma_day_num_mono(lo, d);
    }
    if lex_lt(d, hi) {
        lemma_day_num_mono(d, hi);
    }
    assert(d == lo || lex_lt(lo, d));
    assert(d == hi || lex_lt(d, hi));
}

/// Every day number in the supported range is taken by some valid date.
pub proof fn lemma_date_for_day_num(n: int)
    requires
        min_day_num() <= n <= max_day_num(),
    ensures
        exists|d: Date| d.valid() && #[trigger] d.day_num() == n,
    decreases n,
{
    if n == min_day_num() {
        let d0 = Date { year: 1, month: 1, day: 1 };
        assert(d0.valid() && d0.day_num() == n);
    } else {
        lemma_date_for_day_num(n - 1);
        let d = choose|d: Date| d.valid() && #[trigger] d.day_num() == n - 1;
        lemma_spec_next(d);
        assert(d.spec_next().valid() && d.spec_next().day_num() == n);
    }
}

/// A valid date whose day number lies between two same-month dates belongs
/// to that month as well.
pub proof fn lemma_month_convex(a: Date, b: Date, e: Date)
    requires
        a.valid(),
        b.valid(),
        e.valid(),
        same_month(a, b),
        a.day_num() <= e.day_num() <= b.day_num(),
    ensures
        same_month(e, a),
{
    let first = month_first(a);
    let lastd = month_last(a);
    assert(first.valid());
    assert(lastd.valid());
    if !same_month(e, a) {
        if lex_lt(e, first) {
            lemma_day_num_mono(e, first);
            if lex_lt(first, a) {
                lemma_day_num_mono(first, a);
            }
            assert(a == first || lex_lt(first, a));
        } else {
            assert(lex_lt(lastd, e));
            lemma_day_num_mono(lastd, e);
            if lex_lt(b, lastd) {
                lemma_day_num_mono(b, lastd);
            }
            assert(b == lastd || lex_lt(b, lastd));
        }
    }
}

fn is_leap(year: i32) -> (b: bool)
    requires
        1 <= year,
    ensures
        b == is_leap_year(year as int),
{
    let y: u32 = year as u32;
    (y % 4 == 0 && y % 100 != 0) || y % 400 == 0
}

/// Number of days in the given month.
pub fn days_in_month(year: i32, month: u8) -> (n: u8)
    requires
        1 <= year,
        1 <= month <= 12,
    ensures
        n == days_in_month_of(year as int, month as int),
{
    if month == 2 {
        if is_leap(year) {
            29
        } else {
            28
        }
    } else if month == 4 || month == 6 || month == 9 || month == 11 {
        30
    } else {
        31
    }
}

fn month_offset_val(m: u8) -> (r: u64)
    requires
        1 <= m <= 12,
    ensures
        r == month_offset(m as int),
{
    if m == 3 {
        0
    } else if m == 4 {
        31
    } else if m == 5 {
        61
    } else if m == 6 {
        92
    } else if m == 7 {
        122
    } else if m == 8 {
        153
    } else if m == 9 {
        184
    } else if m == 10 {
        214
    } else if m == 11 {
        245
    } else if m == 12 {
        275
    } else if m == 1 {
        306
    } else {
        337
    }
}

impl Date {
    /// Validating constructor: returns the date exactly when the fields name
    /// a real calendar day in the supported range.
    pub fn new(year: i32, month: u8, day: u8) -> (r: Option<Date>)
        ensures
            match r {
                Some(d) => d == (Date { year, month, day }) && d.valid(),
                None => !(Date { year, month, day }).valid(),
            },
    {
        if 1 <= year && year <= 9999 && 1 <= month && month <= 12 && 1 <= day && day
            <= days_in_month(year, month) {
            Some(Date { year, month, day })
        } else {
            None
        }
    }

    /// The date's position in the linear day count.
    pub fn day_number(&self) -> (n: u64)
        requires
            self.valid(),
        ensures
            n == self.day_num(),
    {
        let y: u64 = self.year as u64;
        let yp: u64 = if self.month <= 2 {
            y - 1
        } else {
            y
        };
        let off: u64 = month_offset_val(self.month);
        365 * yp + yp / 4 - yp / 100 + yp / 400 + off + (self.day as u64) - 1
    }

    /// Day of the week: Monday = 0 through Sunday = 6.
    pub fn weekday(&self) -> (w: u8)
        requires
            self.valid(),
        ensures
            w == self.weekday_index(),
            w < 7,
    {
        ((self.day_number() + 2) % 7) as u8
    }

    /// The next calendar day.
    pub fn next_day(&self) -> (r: Date)
        requires
            self.valid(),
            self.day_num() < max_day_num(),
        ensures
            r == self.spec_next(),
            r.valid(),
            r.day_num() == self.day_num() + 1,
    {
        proof {
            lemma_spec_next(*self);
        }
        let dim = days_in_month(self.year, self.month);
        if self.day < dim {
            Date { year: self.year, month: self.month, day: self.day + 1 }
        } else if self.month < 12 {
            Date { year: self.year, month: self.month + 1, day: 1 }
        } else {
            Date { year: self.year + 1, month: 1, day: 1 }
        }
    }

    /// The previous calendar day.
    pub fn prev_day(&self) -> (r: Date)
        requires
            self.valid(),
            self.day_num() > min_day_num(),
        ensures
            r.valid(),
            r.day_num() == self.day_num() - 1,
    {
        let r = if self.day > 1 {
            Date { year: self.year, month: self.month, day: self.day - 1 }
        } else if self.month > 1 {
            let dim = days_in_month(self.year, self.month - 1);
            Date { year: self.year, month: self.month - 1, day: dim }
        } else {
            proof {
                let d0 = Date { year: 1, month: 1, day: 1 };
                assert(d0.day_num() == min_day_num());
            }
            Date { year: self.year - 1, month: 12, day: 31 }
        };
        proof {
            assert(r.valid());
            assert(r.spec_next() == *self);
            lemma_day_num_range(r);
            if r.day_num() == max_day_num() {
                let hi = Date { year: 9999, month: 12, day: 31 };
                assert(hi.valid() && hi.day_num() == max_day_num());
                lemma_day_num_injective(r, hi);
                assert(false);
            }
            lemma_spec_next(r);
        }
        r
    }
}

} // verus!
