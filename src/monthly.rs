//! The monthly requests report: for every month of a range in which a garage
//! has maintenance scheduled, how many requests fall in it.

use crate::calendar::{
    lemma_month_index_bounds, lemma_month_index_injective, lemma_plus_months, YearMonth,
};
use crate::error::{ApiError, QueryParameter};
use crate::maintenance::Maintenance;
use crate::schedule::{
    count_in_month, garage_dates, garage_schedule, lemma_garage_dates_len,
    lemma_month_occurrences_len, requests_in,
};
use crate::text::{
    integer_from_text, padded, padded_digits, parse_integer, parse_year_month, year_month_from_text,
};
use vstd::prelude::*;

verus! {

/// A month written as its four-digit year and two-digit month.
#[derive(Clone, Debug)]
pub struct YearMonthDTO {
    pub year: String,
    pub month: String,
}

/// One month of the monthly requests report.
#[derive(Clone, Debug)]
pub struct MonthlyRequestsReportDTO {
    pub year_month: YearMonthDTO,
    pub requests: i64,
}

/// The parameters of a monthly report query, as they arrived; any may be
/// missing.
#[derive(Clone, Debug)]
pub struct MonthlyReportQuery {
    pub garage_id: Option<String>,
    pub start_month: Option<String>,
    pub end_month: Option<String>,
}

/// One month of the report, as a mathematical value.
pub struct MonthRequests {
    pub month: YearMonth,
    pub requests: int,
}

/// The number of months from `start` to `end`, both included; none when `end`
/// comes before `start`.
pub open spec fn month_count(start: YearMonth, end: YearMonth) -> nat {
    if end.index() < start.index() {
        0
    } else {
        (end.index() - start.index() + 1) as nat
    }
}

/// Among the `n` months from `from` on, those in which garage `garage_id` has
/// requests, in calendar order, with their number of requests.
pub open spec fn months_with_requests(
    rows: Seq<Maintenance>,
    garage_id: i64,
    from: YearMonth,
    n: nat,
) -> Seq<MonthRequests>
    decreases n,
{
    if n == 0 {
        Seq::empty()
    } else {
        let rest = months_with_requests(rows, garage_id, from, (n - 1) as nat);
        let m = from.plus_months((n - 1) as nat);
        let q = requests_in(rows, garage_id, m);
        if q > 0 {
            rest.push(MonthRequests { month: m, requests: q as int })
        } else {
            rest
        }
    }
}

/// The report of garage `garage_id` from month `start` to month `end`.
pub open spec fn monthly_report(
    rows: Seq<Maintenance>,
    garage_id: i64,
    start: YearMonth,
    end: YearMonth,
) -> Seq<MonthRequests> {
    months_with_requests(rows, garage_id, start, month_count(start, end))
}

/// `e` is the boundary form of `a`.
pub open spec fn shows_month(e: MonthlyRequestsReportDTO, a: MonthRequests) -> bool {
    &&& e.year_month.year@ == padded_digits(a.month.year as int, 4)
    &&& e.year_month.month@ == padded_digits(a.month.month as int, 2)
    &&& e.requests == a.requests
}

pub open spec fn shows_months(r: Seq<MonthlyRequestsReportDTO>, s: Seq<MonthRequests>) -> bool {
    r.len() == s.len() && forall|i: int| 0 <= i < r.len() ==> shows_month(#[trigger] r[i], s[i])
}

pub open spec fn month_param(p: Option<String>) -> Option<YearMonth> {
    match p {
        Some(s) => year_month_from_text(s@),
        None => None,
    }
}

pub open spec fn id_param(p: Option<String>) -> Option<i64> {
    match p {
        Some(s) => integer_from_text(s@),
        None => None,
    }
}

proof fn lemma_months_with_requests(
    rows: Seq<Maintenance>,
    garage_id: i64,
    start: YearMonth,
    end: YearMonth,
    n: nat,
)
    requires
        start.wf(),
        end.wf(),
        start.index() + n <= end.index() + 1,
    ensures
        ({
            let s = months_with_requests(rows, garage_id, start, n);
            &&& forall|i: int|
                0 <= i < s.len() ==> {
                    let e = #[trigger] s[i];
                    &&& e.month.wf()
                    &&& start.index() <= e.month.index() < start.index() + n
                    &&& e.requests == requests_in(rows, garage_id, e.month)
                    &&& e.requests > 0
                }
            &&& forall|i: int, j: int|
                0 <= i < j < s.len() ==> (#[trigger] s[i]).month.index() < (
                #[trigger] s[j]).month.index()
            &&& forall|m: YearMonth|
                m.wf() && start.index() <= #[trigger] m.index() < start.index() + n
                    && requests_in(rows, garage_id, m) > 0 ==> exists|i: int|
                    0 <= i < s.len() && (#[trigger] s[i]).month == m
        }),
    decreases n,
{
    if n > 0 {
        let k = (n - 1) as nat;
        lemma_months_with_requests(rows, garage_id, start, end, k);
        lemma_plus_months(start, end, k);
        let rest = months_with_requests(rows, garage_id, start, k);
        let s = months_with_requests(rows, garage_id, start, n);
        let cur = start.plus_months(k);
        assert forall|m: YearMonth|
            m.wf() && start.index() <= #[trigger] m.index() < start.index() + n
                && requests_in(rows, garage_id, m) > 0 implies exists|i: int|
            0 <= i < s.len() && (#[trigger] s[i]).month == m by {
            if m.index() < start.index() + k {
                let i = choose|i: int| 0 <= i < rest.len() && (#[trigger] rest[i]).month == m;
                assert(s[i] == rest[i]);
            } else {
                lemma_month_index_injective(m, cur);
                assert(s[rest.len() as int].month == m);
            }
        }
    }
}

/// Each entry of the monthly report is a month of the range with at least one
/// request, and carries the exact number of the garage's rows in that month;
/// entries ascend; every month of the range with a request has an entry, so
/// months without requests are exactly the ones left out.
pub proof fn lemma_monthly_report_exact(
    rows: Seq<Maintenance>,
    garage_id: i64,
    start: YearMonth,
    end: YearMonth,
)
    requires
        start.wf(),
        end.wf(),
    ensures
        ({
            let s = monthly_report(rows, garage_id, start, end);
            &&& forall|i: int|
                0 <= i < s.len() ==> {
                    let e = #[trigger] s[i];
                    &&& e.month.wf()
                    &&& start.index() <= e.month.index() <= end.index()
                    &&& e.requests == requests_in(rows, garage_id, e.month)
                    &&& e.requests > 0
                }
            &&& forall|i: int, j: int|
                0 <= i < j < s.len() ==> (#[trigger] s[i]).month.index() < (
                #[trigger] s[j]).month.index()
            &&& forall|m: YearMonth|
                m.wf() && start.index() <= #[trigger] m.index() <= end.index() ==> (requests_in(
                    rows,
                    garage_id,
                    m,
                ) > 0 <==> exists|i: int| 0 <= i < s.len() && (#[trigger] s[i]).month == m)
        }),
{
    if start.index() <= end.index() {
        lemma_months_with_requests(rows, garage_id, start, end, month_count(start, end));
    }
    let s = monthly_report(rows, garage_id, start, end);
    assert forall|m: YearMonth|
        m.wf() && start.index() <= #[trigger] m.index() <= end.index() && (exists|i: int|
            0 <= i < s.len() && (#[trigger] s[i]).month == m) implies requests_in(
        rows,
        garage_id,
        m,
    ) > 0 by {
        let i = choose|i: int| 0 <= i < s.len() && (#[trigger] s[i]).month == m;
        assert(s[i].requests > 0);
    }
}

/// The monthly report of garage `garage_id` over `rows`, from month `start`
/// to month `end` inclusive.
pub fn monthly_requests(
    garage_id: i64,
    start: YearMonth,
    end: YearMonth,
    rows: &Vec<Maintenance>,
) -> (r: Vec<MonthlyRequestsReportDTO>)
    requires
        start.wf(),
        end.wf(),
        rows@.len() <= i64::MAX,
    ensures
        shows_months(r@, monthly_report(rows@, garage_id, start, end)),
{
    let dates = garage_schedule(rows, garage_id);
    let mut out: Vec<MonthlyRequestsReportDTO> = Vec::new();
    if end.is_before(&start) {
        return out;
    }
    proof {
        lemma_month_index_bounds(start);
        lemma_month_index_bounds(end);
        lemma_garage_dates_len(rows@, garage_id);
    }
    let mut cur = start;
    let mut n: usize = 0;
    loop
        invariant_except_break
            shows_months(out@, months_with_requests(rows@, garage_id, start, n as nat)),
        invariant
            start.wf(),
            end.wf(),
            cur.wf(),
            dates@ == garage_dates(rows@, garage_id),
            dates@.len() <= rows@.len() <= i64::MAX,
            0 <= start.index(),
            end.index() < 12 * 10000,
            cur == start.plus_months(n as nat),
            cur.index() == start.index() + n,
            cur.index() <= end.index(),
        ensures
            shows_months(out@, monthly_report(rows@, garage_id, start, end)),
        decreases end.index() - cur.index(),
    {
        let ghost before = out@;
        let q = count_in_month(&dates, &cur);
        proof {
            lemma_month_occurrences_len(dates@, cur);
        }
        if q > 0 {
            let entry = MonthlyRequestsReportDTO {
                year_month: YearMonthDTO { year: padded(cur.year as u32, 4), month: padded(cur.month as u32, 2) },
                requests: q as i64,
            };
            out.push(entry);
            assert(forall|k: int| 0 <= k < before.len() ==> out@[k] == before[k]);
        }
        assert(shows_months(out@, months_with_requests(rows@, garage_id, start, (n + 1) as nat)));
        if cur == end {
            break;
        }
        proof {
            if cur.is_last() {
                assert(cur.index() >= end.index());
                lemma_month_index_injective(cur, end);
            }
            if cur.index() == end.index() {
                lemma_month_index_injective(cur, end);
            }
        }
        cur = cur.next_month();
        n = n + 1;
    }
    out
}

/// Checks the parameters of a monthly requests query: the garage id must be a
/// decimal integer and both months must be written `YYYY-MM`.
pub fn parse_monthly_query(query: &MonthlyReportQuery) -> (r: Result<
    (i64, YearMonth, YearMonth),
    ApiError,
>)
    ensures
        id_param(query.garage_id) is None ==> r == Err::<(i64, YearMonth, YearMonth), ApiError>(
            ApiError::InvalidArgument(QueryParameter::GarageId),
        ),
        id_param(query.garage_id) is Some && month_param(query.start_month) is None ==> r == Err::<
            (i64, YearMonth, YearMonth),
            ApiError,
        >(ApiError::InvalidArgument(QueryParameter::StartMonth)),
        id_param(query.garage_id) is Some && month_param(query.start_month) is Some && month_param(
            query.end_month,
        ) is None ==> r == Err::<(i64, YearMonth, YearMonth), ApiError>(
            ApiError::InvalidArgument(QueryParameter::EndMonth),
        ),
        id_param(query.garage_id) matches Some(g) ==> (month_param(query.start_month) matches Some(
            s,
        ) ==> (month_param(query.end_month) matches Some(e) ==> r == Ok::<
            (i64, YearMonth, YearMonth),
            ApiError,
        >((g, s, e)))),
{
    let garage_id = match &query.garage_id {
        Some(text) => match parse_integer(text.as_str()) {
            Some(id) => id,
            None => return Err(ApiError::InvalidArgument(QueryParameter::GarageId)),
        },
        None => return Err(ApiError::InvalidArgument(QueryParameter::GarageId)),
    };
    let start = match &query.start_month {
        Some(text) => match parse_year_month(text.as_str()) {
            Some(m) => m,
            None => return Err(ApiError::InvalidArgument(QueryParameter::StartMonth)),
        },
        None => return Err(ApiError::InvalidArgument(QueryParameter::StartMonth)),
    };
    let end = match &query.end_month {
        Some(text) => match parse_year_month(text.as_str()) {
            Some(m) => m,
            None => return Err(ApiError::InvalidArgument(QueryParameter::EndMonth)),
        },
        None => return Err(ApiError::InvalidArgument(QueryParameter::EndMonth)),
    };
    Ok((garage_id, start, end))
}

/// Answers a monthly requests query over the maintenance records `rows`.
pub fn monthly_requests_report(query: &MonthlyReportQuery, rows: &Vec<Maintenance>) -> (r: Result<
    Vec<MonthlyRequestsReportDTO>,
    ApiError,
>)
    requires
        rows@.len() <= i64::MAX,
    ensures
        id_param(query.garage_id) is None ==> r == Err::<Vec<MonthlyRequestsReportDTO>, ApiError>(
            ApiError::InvalidArgument(QueryParameter::GarageId),
        ),
        id_param(query.garage_id) is Some && month_param(query.start_month) is None ==> r == Err::<
            Vec<MonthlyRequestsReportDTO>,
            ApiError,
        >(ApiError::InvalidArgument(QueryParameter::StartMonth)),
        id_param(query.garage_id) is Some && month_param(query.start_month) is Some && month_param(
            query.end_month,
        ) is None ==> r == Err::<Vec<MonthlyRequestsReportDTO>, ApiError>(
            ApiError::InvalidArgument(QueryParameter::EndMonth),
        ),
        id_param(query.garage_id) matches Some(g) ==> (month_param(query.start_month) matches Some(
            s,
        ) ==> (month_param(query.end_month) matches Some(e) ==> (r matches Ok(v) && shows_months(
            v@,
            monthly_report(rows@, g, s, e),
        )))),
{
    match parse_monthly_query(query) {
        Ok((garage_id, start, end)) => Ok(monthly_requests(garage_id, start, end, rows)),
        Err(e) => Err(e),
    }
}

} // verus!
