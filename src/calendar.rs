//! Proleptic Gregorian calendar dates between the years 0 and 9999, with a day
//! numbering that makes consecutive days consecutive integers.

use vstd::prelude::*;

verus! {

/// A calendar date. Well-formed dates are those accepted by `wf`.
#[derive(Clone, Copy, Debug, PartialEq, Eq, Structural)]
pub struct CalendarDate {
    pub year: u16,
    pub month: u8,
    pub day: u8,
}

pub open spec fn is_leap_year(y: int) -> bool {
    (y % 4 == 0 && y % 100 != 0) || y % 400 == 0
}

pub open spec fn year_length(y: int) -> int {
    if is_leap_year(y) {
        366
    } else {
        365
    }
}

pub open spec fn month_length(y: int, m: int) -> int {
    if m == 2 {
        if is_leap_year(y) {
            29
        } else {
            28
        }
    } else if m == 4 || m == 6 || m == 9 || m == 11 {
        30
    } else {
        31
    }
}

/// Number of days in the years `0 .. y`.
pub open spec fn days_before_year(y: int) -> int
    decreases y,
{
    if y <= 0 {
        0
    } else {
        days_before_year(y - 1) + year_length(y - 1)
    }
}

/// Number of days in the months `1 .. m` of year `y`.
pub open spec fn days_before_month(y: int, m: int) -> int {
    let leap_day: int = if is_leap_year(y) && m > 2 {
        1
    } else {
        0
    };
    let common: int = if m <= 1 {
        0
    } else if m == 2 {
        31
    } else if m == 3 {
        59
    } else if m == 4 {
        90
    } else if m == 5 {
        120
    } else if m == 6 {
        151
    } else if m == 7 {
        181
    } else if m == 8 {
        212
    } else if m == 9 {
        243
    } else if m == 10 {
        273
    } else if m == 11 {
        304
    } else {
        334
    };
    common + leap_day
}

pub const MAX_YEAR: u16 = 9999;

impl CalendarDate {
    pub open spec fn wf(self) -> bool {
        &&& self.year <= MAX_YEAR
        &&& 1 <= self.month <= 12
        &&& 1 <= self.day <= month_length(self.year as int, self.month as int)
    }

    /// Days elapsed since 0000-01-01.
    pub open spec fn day_number(self) -> int {
        days_before_year(self.year as int) + days_before_month(self.year as int, self.month as int)
            + self.day - 1
    }

    pub open spec fn is_last(self) -> bool {
        self.year == MAX_YEAR && self.month == 12 && self.day == 31
    }

    /// The date that follows `self`.
    pub open spec fn next_spec(self) -> CalendarDate {
        if (self.day as int) < month_length(self.year as int, self.month as int) {
            CalendarDate { day: (self.day + 1) as u8, ..self }
        } else if self.month < 12 {
            CalendarDate { year: self.year, month: (self.month + 1) as u8, day: 1 }
        } else {
            CalendarDate { year: (self.year + 1) as u16, month: 1, day: 1 }
        }
    }

    /// The date `n` days after `self`.
    pub open spec fn plus_days(self, n: nat) -> CalendarDate
        decreases n,
    {
        if n == 0 {
            self
        } else {
            self.plus_days((n - 1) as nat).next_spec()
        }
    }

    /// Lexicographic order on (year, month, day).
    pub open spec fn precedes(self, other: CalendarDate) -> bool {
        ||| self.year < other.year
        ||| self.year == other.year && self.month < other.month
        ||| self.year == other.year && self.month == other.month && self.day < other.day
    }
}

pub proof fn lemma_days_before_year_step(y: int)
    requires
        y >= 0,
    ensures
        days_before_year(y + 1) == days_before_year(y) + year_length(y),
{
}

pub proof fn lemma_days_before_year_monotone(a: int, b: int)
    requires
        0 <= a <= b,
    ensures
        days_before_year(a) + (b - a) * 365 <= days_before_year(b),
        days_before_year(b) <= days_before_year(a) + (b - a) * 366,
    decreases b - a,
{
    if a < b {
        lemma_days_before_year_monotone(a, b - 1);
        lemma_days_before_year_step(b - 1);
    }
}

proof fn lemma_in_year(d: CalendarDate)
    requires
        d.wf(),
    ensures
        0 <= days_before_month(d.year as int, d.month as int) + d.day - 1 < year_length(
            d.year as int,
        ),
{
}

/// The day number strictly increases along the lexicographic order.
pub proof fn lemma_precedes_day_number(a: CalendarDate, b: CalendarDate)
    requires
        a.wf(),
        b.wf(),
        a.precedes(b),
    ensures
        a.day_number() < b.day_number(),
{
    lemma_in_year(a);
    lemma_in_year(b);
    if a.year < b.year {
        lemma_days_before_year_monotone(a.year + 1, b.year as int);
        lemma_days_before_year_step(a.year as int);
    }
}

/// Two well-formed dates with the same day number are the same date.
pub proof fn lemma_day_number_injective(a: CalendarDate, b: CalendarDate)
    requires
        a.wf(),
        b.wf(),
        a.day_number() == b.day_number(),
    ensures
        a == b,
{
    if a.precedes(b) {
        lemma_precedes_day_number(a, b);
    } else if b.precedes(a) {
        lemma_precedes_day_number(b, a);
    }
}

pub proof fn lemma_day_number_bounds(d: CalendarDate)
    requires
        d.wf(),
    ensures
        0 <= d.day_number() <= 366 * 10000,
{
    lemma_in_year(d);
    lemma_days_before_year_monotone(0, d.year as int);
    lemma_days_before_year_step(d.year as int);
}

/// The day after a well-formed date that is not the last one is well formed
/// and has the next day number.
pub proof fn lemma_next_day_number(d: CalendarDate)
    requires
        d.wf(),
        !d.is_last(),
    ensures
        d.next_spec().wf(),
        d.next_spec().day_number() == d.day_number() + 1,
{
    if (d.day as int) >= month_length(d.year as int, d.month as int) && d.month == 12 {
        lemma_days_before_year_step(d.year as int);
    }
}

pub proof fn lemma_last_is_greatest(d: CalendarDate, last: CalendarDate)
    requires
        d.wf(),
        last.wf(),
        last.is_last(),
    ensures
        d.day_number() <= last.day_number(),
{
    if d.precedes(last) {
        lemma_precedes_day_number(d, last);
    } else {
        assert(d == last);
    }
}

/// Walking `n` days from `start` without passing `end` stays on well-formed
/// dates and advances the day number by exactly `n`.
pub proof fn lemma_plus_days(start: CalendarDate, end: CalendarDate, n: nat)
    requires
        start.wf(),
        end.wf(),
        start.day_number() + n <= end.day_number(),
    ensures
        start.plus_days(n).wf(),
        start.plus_days(n).day_number() == start.day_number() + n,
    decreases n,
{
    if n > 0 {
        lemma_plus_days(start, end, (n - 1) as nat);
        let prev = start.plus_days((n - 1) as nat);
        if prev.is_last() {
            lemma_last_is_greatest(end, prev);
        }
        lemma_next_day_number(prev);
    }
}

impl CalendarDate {
    /// The following calendar day.
    pub fn next_day(&self) -> (r: CalendarDate)
        requires
            self.wf(),
            !self.is_last(),
        ensures
            r == self.next_spec(),
            r.wf(),
            r.day_number() == self.day_number() + 1,
    {
        proof {
            lemma_next_day_number(*self);
        }
        if self.day < days_in_month(self.year, self.month) {
            CalendarDate { year: self.year, month: self.month, day: self.day + 1 }
        } else if self.month < 12 {
            CalendarDate { year: self.year, month: self.month + 1, day: 1 }
        } else {
            CalendarDate { year: self.year + 1, month: 1, day: 1 }
        }
    }

    /// Whether `self` comes strictly before `other`.
    pub fn is_before(&self, other: &CalendarDate) -> (r: bool)
        ensures
            r == self.precedes(*other),
    {
        self.year < other.year || (self.year == other.year && (self.month < other.month || (
        self.month == other.month && self.day < other.day)))
    }
}

pub fn is_leap(year: u16) -> (r: bool)
    ensures
        r == is_leap_year(year as int),
{
    (year % 4 == 0 && year % 100 != 0) || year % 400 == 0
}

pub fn days_in_month(year: u16, month: u8) -> (r: u8)
    ensures
        r == month_length(year as int, month as int),
{
    if month == 2 {
        if is_leap(year) {
            29
        } else {
            28
        }
    } else if month == 4 || month == 6 || month == 9 || month == 11 {
        30
    } else {
        31
    }
}

/// A calendar month of a year. Well-formed values are those accepted by `wf`.
#[derive(Clone, Copy, Debug, PartialEq, Eq, Structural)]
pub struct YearMonth {
    pub year: u16,
    pub month: u8,
}

impl YearMonth {
    pub open spec fn wf(self) -> bool {
        self.year <= MAX_YEAR && 1 <= self.month <= 12
    }

    /// Months elapsed since 0000-01.
    pub open spec fn index(self) -> int {
        self.year * 12 + self.month - 1
    }

    pub open spec fn is_last(self) -> bool {
        self.year == MAX_YEAR && self.month == 12
    }

    pub open spec fn next_spec(self) -> YearMonth {
        if self.month < 12 {
            YearMonth { year: self.year, month: (self.month + 1) as u8 }
        } else {
            YearMonth { year: (self.year + 1) as u16, month: 1 }
        }
    }

    /// The month `n` months after `self`.
    pub open spec fn plus_months(self, n: nat) -> YearMonth
        decreases n,
    {
        if n == 0 {
            self
        } else {
            self.plus_months((n - 1) as nat).next_spec()
        }
    }

    /// The month that a date falls in.
    pub open spec fn of(d: CalendarDate) -> YearMonth {
        YearMonth { year: d.year, month: d.month }
    }

    /// The following month.
    pub fn next_month(&self) -> (r: YearMonth)
        requires
            self.wf(),
            !self.is_last(),
        ensures
            r == self.next_spec(),
            r.wf(),
            r.index() == self.index() + 1,
    {
        if self.month < 12 {
            YearMonth { year: self.year, month: self.month + 1 }
        } else {
            YearMonth { year: self.year + 1, month: 1 }
        }
    }

    /// Whether `self` comes strictly before `other`.
    pub fn is_before(&self, other: &YearMonth) -> (r: bool)
        requires
            self.wf(),
            other.wf(),
        ensures
            r == (self.index() < other.index()),
    {
        self.year < other.year || (self.year == other.year && self.month < other.month)
    }

    /// The month of a date.
    pub fn of_date(d: &CalendarDate) -> (r: YearMonth)
        ensures
            r == YearMonth::of(*d),
    {
        YearMonth { year: d.year, month: d.month }
    }
}

/// Two well-formed months with the same index are the same month.
pub proof fn lemma_month_index_injective(a: YearMonth, b: YearMonth)
    requires
        a.wf(),
        b.wf(),
        a.index() == b.index(),
    ensures
        a == b,
{
    if a.year < b.year {
        assert(a.index() < b.index());
    } else if b.year < a.year {
        assert(b.index() < a.index());
    }
}

/// Walking `n` months from `start` without passing `end` stays on well-formed
/// months and advances the index by exactly `n`.
pub proof fn lemma_plus_months(start: YearMonth, end: YearMonth, n: nat)
    requires
        start.wf(),
        end.wf(),
        start.index() + n <= end.index(),
    ensures
        start.plus_months(n).wf(),
        start.plus_months(n).index() == start.index() + n,
    decreases n,
{
    if n > 0 {
        lemma_plus_months(start, end, (n - 1) as nat);
    }
}

pub proof fn lemma_month_index_bounds(m: YearMonth)
    requires
        m.wf(),
    ensures
        0 <= m.index() < 12 * 10000,
{
}

} // verus!
