//! The dates on which a garage has maintenance scheduled, and how many fall on
//! a given day or in a given month.

use crate::calendar::{CalendarDate, YearMonth};
use crate::maintenance::Maintenance;
use crate::text::{date_from_text, integer_from_text, parse_date, parse_integer};
use vstd::prelude::*;

verus! {

/// Whether `row` is scheduled at garage `garage_id` on date `d`. The row's
/// garage is the integer its `garage_id` text writes, and its date the day its
/// `scheduled_date` text writes.
pub open spec fn is_visit(row: Maintenance, garage_id: i64, d: CalendarDate) -> bool {
    integer_from_text(row.garage_id@) == Some(garage_id) && date_from_text(row.scheduled_date@)
        == Some(d)
}

/// The scheduled dates of the rows of garage `garage_id`, in row order. Rows
/// whose garage or date text is malformed contribute nothing.
pub open spec fn garage_dates(rows: Seq<Maintenance>, garage_id: i64) -> Seq<CalendarDate>
    decreases rows.len(),
{
    if rows.len() == 0 {
        Seq::empty()
    } else {
        let rest = garage_dates(rows.drop_last(), garage_id);
        let row = rows.last();
        match date_from_text(row.scheduled_date@) {
            Some(d) => if integer_from_text(row.garage_id@) == Some(garage_id) {
                rest.push(d)
            } else {
                rest
            },
            None => rest,
        }
    }
}

/// How many of `dates` are `d`.
pub open spec fn occurrences(dates: Seq<CalendarDate>, d: CalendarDate) -> nat
    decreases dates.len(),
{
    if dates.len() == 0 {
        0
    } else {
        occurrences(dates.drop_last(), d) + if dates.last() == d {
            1nat
        } else {
            0nat
        }
    }
}

/// How many of `dates` fall in month `m`.
pub open spec fn month_occurrences(dates: Seq<CalendarDate>, m: YearMonth) -> nat
    decreases dates.len(),
{
    if dates.len() == 0 {
        0
    } else {
        month_occurrences(dates.drop_last(), m) + if YearMonth::of(dates.last()) == m {
            1nat
        } else {
            0nat
        }
    }
}

/// The number of rows scheduled at garage `garage_id` on day `d`.
pub open spec fn requests_on(rows: Seq<Maintenance>, garage_id: i64, d: CalendarDate) -> nat {
    occurrences(garage_dates(rows, garage_id), d)
}

/// The number of rows of garage `garage_id` whose date falls in month `m`.
pub open spec fn requests_in(rows: Seq<Maintenance>, garage_id: i64, m: YearMonth) -> nat {
    month_occurrences(garage_dates(rows, garage_id), m)
}

pub proof fn lemma_garage_dates_len(rows: Seq<Maintenance>, garage_id: i64)
    ensures
        garage_dates(rows, garage_id).len() <= rows.len(),
    decreases rows.len(),
{
    if rows.len() > 0 {
        lemma_garage_dates_len(rows.drop_last(), garage_id);
    }
}

pub proof fn lemma_occurrences_len(dates: Seq<CalendarDate>, d: CalendarDate)
    ensures
        occurrences(dates, d) <= dates.len(),
    decreases dates.len(),
{
    if dates.len() > 0 {
        lemma_occurrences_len(dates.drop_last(), d);
    }
}

pub proof fn lemma_month_occurrences_len(dates: Seq<CalendarDate>, m: YearMonth)
    ensures
        month_occurrences(dates, m) <= dates.len(),
    decreases dates.len(),
{
    if dates.len() > 0 {
        lemma_month_occurrences_len(dates.drop_last(), m);
    }
}

/// A day on which no row of the garage is scheduled has no requests.
pub proof fn lemma_no_visit_no_requests(rows: Seq<Maintenance>, garage_id: i64, d: CalendarDate)
    requires
        forall|k: int| 0 <= k < rows.len() ==> !is_visit(#[trigger] rows[k], garage_id, d),
    ensures
        requests_on(rows, garage_id, d) == 0,
    decreases rows.len(),
{
    if rows.len() > 0 {
        let p = rows.drop_last();
        assert forall|k: int| 0 <= k < p.len() implies !is_visit(#[trigger] p[k], garage_id, d) by {
            assert(p[k] == rows[k]);
        }
        lemma_no_visit_no_requests(p, garage_id, d);
        assert(!is_visit(rows[rows.len() - 1], garage_id, d));
        let rest = garage_dates(p, garage_id);
        if garage_dates(rows, garage_id) != rest {
            let x = garage_dates(rows, garage_id).last();
            assert(garage_dates(rows, garage_id) == rest.push(x));
            assert(rest.push(x).drop_last() =~= rest);
        }
    }
}

/// The scheduled dates of the rows of garage `garage_id`.
pub fn garage_schedule(rows: &Vec<Maintenance>, garage_id: i64) -> (r: Vec<CalendarDate>)
    ensures
        r@ == garage_dates(rows@, garage_id),
{
    let mut out: Vec<CalendarDate> = Vec::new();
    let mut i: usize = 0;
    while i < rows.len()
        invariant
            i <= rows@.len(),
            out@ == garage_dates(rows@.take(i as int), garage_id),
        decreases rows@.len() - i,
    {
        let row = &rows[i];
        assert(rows@.take(i + 1).drop_last() =~= rows@.take(i as int));
        assert(rows@.take(i + 1).last() == *row);
        match parse_date(row.scheduled_date.as_str()) {
            Some(d) => {
                match parse_integer(row.garage_id.as_str()) {
                    Some(g) => {
                        if g == garage_id {
                            out.push(d);
                        }
                    },
                    None => {},
                }
            },
            None => {},
        }
        i = i + 1;
    }
    assert(rows@.take(rows@.len() as int) =~= rows@);
    out
}

/// How many of `dates` are `d`.
pub fn count_on(dates: &Vec<CalendarDate>, d: &CalendarDate) -> (r: usize)
    ensures
        r == occurrences(dates@, *d),
{
    let mut n: usize = 0;
    let mut i: usize = 0;
    while i < dates.len()
        invariant
            i <= dates@.len(),
            n == occurrences(dates@.take(i as int), *d),
        decreases dates@.len() - i,
    {
        assert(dates@.take(i + 1).drop_last() =~= dates@.take(i as int));
        proof {
            lemma_occurrences_len(dates@.take(i as int), *d);
        }
        if dates[i] == *d {
            n = n + 1;
        }
        i = i + 1;
    }
    assert(dates@.take(dates@.len() as int) =~= dates@);
    n
}

/// How many of `dates` fall in month `m`.
pub fn count_in_month(dates: &Vec<CalendarDate>, m: &YearMonth) -> (r: usize)
    ensures
        r == month_occurrences(dates@, *m),
{
    let mut n: usize = 0;
    let mut i: usize = 0;
    while i < dates.len()
        invariant
            i <= dates@.len(),
            n == month_occurrences(dates@.take(i as int), *m),
        decreases dates@.len() - i,
    {
        assert(dates@.take(i + 1).drop_last() =~= dates@.take(i as int));
        proof {
            lemma_month_occurrences_len(dates@.take(i as int), *m);
        }
        if YearMonth::of_date(&dates[i]) == *m {
            n = n + 1;
        }
        i = i + 1;
    }
    assert(dates@.take(dates@.len() as int) =~= dates@);
    n
}

} // verus!
