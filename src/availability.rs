//! The daily availability report: for every day of a date range, how many
//! maintenance requests a garage has and how much of its capacity is left.

use crate::calendar::{
    lemma_day_number_bounds, lemma_day_number_injective, lemma_last_is_greatest, lemma_plus_days,
    lemma_precedes_day_number, CalendarDate,
};
use crate::error::{ApiError, QueryParameter};
use crate::garage::{Garage, GarageDailyAvailabilityReportDTO, GarageReportQueryParams};
use crate::maintenance::Maintenance;
use crate::schedule::{
    count_on, garage_dates, garage_schedule, is_visit, lemma_garage_dates_len,
    lemma_no_visit_no_requests, lemma_occurrences_len, requests_on,
};
use crate::text::{date_from_text, date_text, format_date, parse_date};
use vstd::prelude::*;

verus! {

/// One day of the report, as a mathematical value.
pub struct DayAvailability {
    pub date: CalendarDate,
    pub requests: int,
    pub available_capacity: int,
}

/// The number of days from `start` to `end`, both included; none when `end`
/// comes before `start`.
pub open spec fn day_count(start: CalendarDate, end: CalendarDate) -> nat {
    if end.day_number() < start.day_number() {
        0
    } else {
        (end.day_number() - start.day_number() + 1) as nat
    }
}

pub open spec fn day_entry(
    capacity: int,
    rows: Seq<Maintenance>,
    garage_id: i64,
    d: CalendarDate,
) -> DayAvailability {
    let q = requests_on(rows, garage_id, d) as int;
    DayAvailability { date: d, requests: q, available_capacity: capacity - q }
}

/// The report of garage `garage_id` with `capacity` slots from `start` to
/// `end`: one entry per day, in calendar order.
pub open spec fn daily_report(
    capacity: int,
    rows: Seq<Maintenance>,
    garage_id: i64,
    start: CalendarDate,
    end: CalendarDate,
) -> Seq<DayAvailability> {
    Seq::new(
        day_count(start, end),
        |i: int| day_entry(capacity, rows, garage_id, start.plus_days(i as nat)),
    )
}

/// `e` is the boundary form of `a`.
pub open spec fn shows_day(e: GarageDailyAvailabilityReportDTO, a: DayAvailability) -> bool {
    &&& e.date@ == date_text(a.date)
    &&& e.requests == a.requests
    &&& e.available_capacity == a.available_capacity
}

pub open spec fn shows_days(
    r: Seq<GarageDailyAvailabilityReportDTO>,
    s: Seq<DayAvailability>,
) -> bool {
    r.len() == s.len() && forall|i: int| 0 <= i < r.len() ==> shows_day(#[trigger] r[i], s[i])
}

/// The report has one entry for every day from `start` to `end`, in ascending
/// order of consecutive days, and every such day has its entry.
pub proof fn lemma_daily_report_days(
    capacity: int,
    rows: Seq<Maintenance>,
    garage_id: i64,
    start: CalendarDate,
    end: CalendarDate,
)
    requires
        start.wf(),
        end.wf(),
        start.day_number() <= end.day_number(),
    ensures
        daily_report(capacity, rows, garage_id, start, end).len() == end.day_number()
            - start.day_number() + 1,
        forall|i: int|
            0 <= i < daily_report(capacity, rows, garage_id, start, end).len() ==> {
                let d = (#[trigger] daily_report(capacity, rows, garage_id, start, end)[i]).date;
                d.wf() && d.day_number() == start.day_number() + i
            },
        forall|d: CalendarDate|
            d.wf() && start.day_number() <= #[trigger] d.day_number() <= end.day_number()
                ==> daily_report(capacity, rows, garage_id, start, end)[d.day_number()
                - start.day_number()].date == d,
{
    let report = daily_report(capacity, rows, garage_id, start, end);
    assert forall|i: int| 0 <= i < report.len() implies {
        let d = (#[trigger] report[i]).date;
        d.wf() && d.day_number() == start.day_number() + i
    } by {
        lemma_plus_days(start, end, i as nat);
    }
    assert forall|d: CalendarDate|
        d.wf() && start.day_number() <= #[trigger] d.day_number()
            <= end.day_number() implies report[d.day_number() - start.day_number()].date == d by {
        let n = (d.day_number() - start.day_number()) as nat;
        lemma_plus_days(start, end, n);
        lemma_day_number_injective(start.plus_days(n), d);
    }
}

/// A day on which the garage has no maintenance scheduled has no requests and
/// its whole capacity available.
pub proof fn lemma_idle_day_full_capacity(
    capacity: int,
    rows: Seq<Maintenance>,
    garage_id: i64,
    start: CalendarDate,
    end: CalendarDate,
    i: int,
)
    requires
        0 <= i < daily_report(capacity, rows, garage_id, start, end).len(),
        forall|k: int|
            0 <= k < rows.len() ==> !is_visit(
                #[trigger] rows[k],
                garage_id,
                daily_report(capacity, rows, garage_id, start, end)[i].date,
            ),
    ensures
        daily_report(capacity, rows, garage_id, start, end)[i].requests == 0,
        daily_report(capacity, rows, garage_id, start, end)[i].available_capacity == capacity,
{
    lemma_no_visit_no_requests(rows, garage_id, start.plus_days(i as nat));
}

/// Every entry's available capacity is the capacity less its requests, which
/// may be negative when the day is overbooked; its requests are the number of
/// rows of the garage scheduled that day.
pub proof fn lemma_available_is_capacity_less_requests(
    capacity: int,
    rows: Seq<Maintenance>,
    garage_id: i64,
    start: CalendarDate,
    end: CalendarDate,
)
    ensures
        forall|i: int|
            0 <= i < daily_report(capacity, rows, garage_id, start, end).len() ==> {
                let e = #[trigger] daily_report(capacity, rows, garage_id, start, end)[i];
                &&& e.requests == requests_on(rows, garage_id, e.date)
                &&& e.available_capacity == capacity - e.requests
            },
{
}

/// The daily report of garage `garage_id`, whose capacity is `capacity`, over
/// the rows `rows`, from `start` to `end` inclusive.
pub fn daily_availability_report(
    capacity: i64,
    garage_id: i64,
    start: CalendarDate,
    end: CalendarDate,
    rows: &Vec<Maintenance>,
) -> (r: Vec<GarageDailyAvailabilityReportDTO>)
    requires
        capacity >= 0,
        start.wf(),
        end.wf(),
        rows@.len() <= i64::MAX,
    ensures
        shows_days(r@, daily_report(capacity as int, rows@, garage_id, start, end)),
{
    let ghost report = daily_report(capacity as int, rows@, garage_id, start, end);
    let dates = garage_schedule(rows, garage_id);
    let mut out: Vec<GarageDailyAvailabilityReportDTO> = Vec::new();
    if end.is_before(&start) {
        proof {
            lemma_precedes_day_number(end, start);
        }
        return out;
    }
    proof {
        if start != end {
            lemma_precedes_day_number(start, end);
        }
        lemma_day_number_bounds(start);
        lemma_day_number_bounds(end);
        lemma_garage_dates_len(rows@, garage_id);
    }
    let mut cur = start;
    let mut i: usize = 0;
    loop
        invariant_except_break
            out@.len() == i,
        invariant
            start.wf(),
            end.wf(),
            cur.wf(),
            capacity >= 0,
            report == daily_report(capacity as int, rows@, garage_id, start, end),
            dates@ == garage_dates(rows@, garage_id),
            dates@.len() <= rows@.len() <= i64::MAX,
            0 <= start.day_number(),
            end.day_number() <= 366 * 10000,
            cur == start.plus_days(i as nat),
            cur.day_number() == start.day_number() + i,
            cur.day_number() <= end.day_number(),
            report.len() == end.day_number() - start.day_number() + 1,
            out@.len() <= report.len(),
            forall|k: int| 0 <= k < out@.len() ==> shows_day(#[trigger] out@[k], report[k]),
        ensures
            shows_days(out@, report),
        decreases end.day_number() - cur.day_number(),
    {
        let q = count_on(&dates, &cur);
        proof {
            lemma_occurrences_len(dates@, cur);
        }
        let entry = GarageDailyAvailabilityReportDTO {
            date: format_date(&cur),
            requests: q as i64,
            available_capacity: capacity - q as i64,
        };
        out.push(entry);
        assert(shows_day(out@[i as int], report[i as int]));
        if cur == end {
            break;
        }
        proof {
            if cur.day_number() == end.day_number() {
                lemma_day_number_injective(cur, end);
            }
            if cur.is_last() {
                lemma_last_is_greatest(end, cur);
            }
        }
        cur = cur.next_day();
        i = i + 1;
    }
    out
}

/// Answers a daily availability query. `garage` is the garage the query names,
/// if it exists, and `rows` the maintenance records to count.
pub fn get_garage_report(
    garage: &Option<Garage>,
    params: &GarageReportQueryParams,
    rows: &Vec<Maintenance>,
) -> (r: Result<Vec<GarageDailyAvailabilityReportDTO>, ApiError>)
    requires
        garage matches Some(g) ==> g.wf(),
        rows@.len() <= i64::MAX,
    ensures
        garage is None ==> r == Err::<Vec<GarageDailyAvailabilityReportDTO>, ApiError>(
            ApiError::NotFound,
        ),
        garage is Some && date_from_text(params.start_date@) is None ==> r == Err::<
            Vec<GarageDailyAvailabilityReportDTO>,
            ApiError,
        >(ApiError::InvalidArgument(QueryParameter::StartDate)),
        garage is Some && date_from_text(params.start_date@) is Some && date_from_text(
            params.end_date@,
        ) is None ==> r == Err::<Vec<GarageDailyAvailabilityReportDTO>, ApiError>(
            ApiError::InvalidArgument(QueryParameter::EndDate),
        ),
        garage matches Some(g) ==> (date_from_text(params.start_date@) matches Some(s)
            ==> (date_from_text(params.end_date@) matches Some(e) ==> (r matches Ok(v)
            && shows_days(v@, daily_report(g.capacity as int, rows@, params.garage_id, s, e))))),
{
    let g = match garage {
        Some(g) => g,
        None => return Err(ApiError::NotFound),
    };
    let start = match parse_date(params.start_date.as_str()) {
        Some(d) => d,
        None => return Err(ApiError::InvalidArgument(QueryParameter::StartDate)),
    };
    let end = match parse_date(params.end_date.as_str()) {
        Some(d) => d,
        None => return Err(ApiError::InvalidArgument(QueryParameter::EndDate)),
    };
    Ok(daily_availability_report(g.capacity, params.garage_id, start, end, rows))
}

} // verus!
