use garage_backend::availability::{daily_availability_report, get_garage_report};
use garage_backend::calendar::CalendarDate;
use garage_backend::error::{ApiError, QueryParameter};
use garage_backend::garage::{Garage, GarageDailyAvailabilityReportDTO, GarageReportQueryParams};
use garage_backend::maintenance::Maintenance;
use garage_backend::monthly::{monthly_requests, monthly_requests_report, MonthlyReportQuery};
use garage_backend::calendar::YearMonth;

fn row(id: i64, garage: &str, date: &str) -> Maintenance {
    Maintenance {
        id,
        car_id: "7".to_string(),
        garage_id: garage.to_string(),
        service_type: "oil change".to_string(),
        scheduled_date: date.to_string(),
    }
}

fn garage(id: i64, capacity: i64) -> Garage {
    Garage {
        id,
        name: "Central".to_string(),
        location: "Main St 1".to_string(),
        city: "Springfield".to_string(),
        capacity,
    }
}

fn params(id: i64, start: &str, end: &str) -> GarageReportQueryParams {
    GarageReportQueryParams { garage_id: id, start_date: start.to_string(), end_date: end.to_string() }
}

fn day(y: u16, m: u8, d: u8) -> CalendarDate {
    CalendarDate { year: y, month: m, day: d }
}

fn summary(r: &[GarageDailyAvailabilityReportDTO]) -> Vec<(String, i64, i64)> {
    r.iter().map(|e| (e.date.clone(), e.requests, e.available_capacity)).collect()
}

fn query(id: Option<&str>, start: Option<&str>, end: Option<&str>) -> MonthlyReportQuery {
    MonthlyReportQuery {
        garage_id: id.map(|s| s.to_string()),
        start_month: start.map(|s| s.to_string()),
        end_month: end.map(|s| s.to_string()),
    }
}

#[test]
fn daily_report_scenario() {
    let rows = vec![
        row(1, "1", "2024-01-01"),
        row(2, "1", "2024-01-01"),
        row(3, "1", "2024-01-03"),
    ];
    let r = get_garage_report(&Some(garage(1, 2)), &params(1, "2024-01-01", "2024-01-03"), &rows)
        .unwrap();
    assert_eq!(
        summary(&r),
        vec![
            ("2024-01-01".to_string(), 2, 0),
            ("2024-01-02".to_string(), 0, 2),
            ("2024-01-03".to_string(), 1, 1),
        ]
    );
}

#[test]
fn daily_report_length_is_inclusive_day_count() {
    let rows: Vec<Maintenance> = vec![];
    let cases = [
        (day(2024, 1, 1), day(2024, 1, 1), 1usize),
        (day(2024, 2, 28), day(2024, 3, 1), 3),
        (day(2023, 2, 28), day(2023, 3, 1), 2),
        (day(2023, 12, 30), day(2024, 1, 2), 4),
        (day(2024, 1, 1), day(2024, 12, 31), 366),
        (day(2023, 1, 1), day(2023, 12, 31), 365),
        (day(1900, 2, 28), day(1900, 3, 1), 2),
        (day(2000, 2, 28), day(2000, 3, 1), 3),
    ];
    for (s, e, n) in cases {
        assert_eq!(daily_availability_report(5, 1, s, e, &rows).len(), n);
    }
}

#[test]
fn daily_report_crosses_month_and_year_boundaries() {
    let rows: Vec<Maintenance> = vec![];
    let r = daily_availability_report(3, 1, day(2023, 12, 30), day(2024, 1, 2), &rows);
    let dates: Vec<String> = r.iter().map(|e| e.date.clone()).collect();
    assert_eq!(dates, vec!["2023-12-30", "2023-12-31", "2024-01-01", "2024-01-02"]);
    let r = daily_availability_report(3, 1, day(2024, 2, 28), day(2024, 3, 1), &rows);
    let dates: Vec<String> = r.iter().map(|e| e.date.clone()).collect();
    assert_eq!(dates, vec!["2024-02-28", "2024-02-29", "2024-03-01"]);
}

#[test]
fn daily_report_reversed_range_is_empty() {
    let rows = vec![row(1, "1", "2024-01-02")];
    let r = get_garage_report(&Some(garage(1, 2)), &params(1, "2024-01-03", "2024-01-01"), &rows)
        .unwrap();
    assert!(r.is_empty());
}

#[test]
fn daily_report_idle_days_have_full_capacity() {
    let rows = vec![row(1, "1", "2024-05-02"), row(2, "2", "2024-05-03")];
    let r = daily_availability_report(4, 1, day(2024, 5, 1), day(2024, 5, 4), &rows);
    assert_eq!(
        summary(&r),
        vec![
            ("2024-05-01".to_string(), 0, 4),
            ("2024-05-02".to_string(), 1, 3),
            ("2024-05-03".to_string(), 0, 4),
            ("2024-05-04".to_string(), 0, 4),
        ]
    );
}

#[test]
fn daily_report_overbooked_day_goes_negative() {
    let rows = vec![
        row(1, "3", "2024-06-10"),
        row(2, "3", "2024-06-10"),
        row(3, "3", "2024-06-10"),
    ];
    let r = daily_availability_report(1, 3, day(2024, 6, 10), day(2024, 6, 10), &rows);
    assert_eq!(summary(&r), vec![("2024-06-10".to_string(), 3, -2)]);
    for e in &r {
        assert_eq!(e.available_capacity, 1 - e.requests);
    }
}

#[test]
fn daily_report_ignores_malformed_rows() {
    let rows = vec![
        row(1, "1", "2024-01-01"),
        row(2, "x", "2024-01-01"),
        row(3, "1", "2024-13-01"),
        row(4, "1", "01/01/2024"),
        row(5, "01", "2024-01-01"),
    ];
    let r = daily_availability_report(9, 1, day(2024, 1, 1), day(2024, 1, 1), &rows);
    assert_eq!(summary(&r), vec![("2024-01-01".to_string(), 2, 7)]);
}

#[test]
fn daily_report_missing_garage_is_not_found() {
    let rows: Vec<Maintenance> = vec![];
    let r = get_garage_report(&None, &params(9, "2024-01-01", "2024-01-03"), &rows);
    assert_eq!(r.unwrap_err(), ApiError::NotFound);
}

#[test]
fn daily_report_bad_dates_are_invalid_arguments() {
    let rows: Vec<Maintenance> = vec![];
    let g = Some(garage(1, 2));
    let r = get_garage_report(&g, &params(1, "2024-02-30", "2024-03-01"), &rows);
    assert_eq!(r.unwrap_err(), ApiError::InvalidArgument(QueryParameter::StartDate));
    let r = get_garage_report(&g, &params(1, "2024-02-01", "tomorrow"), &rows);
    assert_eq!(r.unwrap_err(), ApiError::InvalidArgument(QueryParameter::EndDate));
}

#[test]
fn monthly_report_scenario() {
    let rows = vec![
        row(1, "1", "2024-01-05"),
        row(2, "1", "2024-01-17"),
        row(3, "1", "2024-01-31"),
        row(4, "1", "2024-03-02"),
    ];
    let r = monthly_requests_report(&query(Some("1"), Some("2024-01"), Some("2024-03")), &rows)
        .unwrap();
    let got: Vec<(String, String, i64)> = r
        .iter()
        .map(|e| (e.year_month.year.clone(), e.year_month.month.clone(), e.requests))
        .collect();
    assert_eq!(
        got,
        vec![
            ("2024".to_string(), "01".to_string(), 3),
            ("2024".to_string(), "03".to_string(), 1),
        ]
    );
}

#[test]
fn monthly_report_counts_only_the_garage_in_range() {
    let rows = vec![
        row(1, "1", "2023-12-31"),
        row(2, "1", "2024-02-10"),
        row(3, "2", "2024-02-11"),
        row(4, "1", "2024-02-29"),
        row(5, "1", "2024-05-01"),
        row(6, "1", "2025-01-01"),
    ];
    let r = monthly_requests(1, YearMonth { year: 2024, month: 1 }, YearMonth { year: 2024, month: 12 }, &rows);
    let got: Vec<(String, String, i64)> = r
        .iter()
        .map(|e| (e.year_month.year.clone(), e.year_month.month.clone(), e.requests))
        .collect();
    assert_eq!(
        got,
        vec![
            ("2024".to_string(), "02".to_string(), 2),
            ("2024".to_string(), "05".to_string(), 1),
        ]
    );
    assert!(r.iter().all(|e| e.requests > 0));
}

#[test]
fn monthly_report_crosses_years_in_order() {
    let rows = vec![row(1, "4", "2025-01-03"), row(2, "4", "2024-11-20"), row(3, "4", "2025-01-09")];
    let r = monthly_requests(4, YearMonth { year: 2024, month: 11 }, YearMonth { year: 2025, month: 2 }, &rows);
    let got: Vec<(String, String, i64)> = r
        .iter()
        .map(|e| (e.year_month.year.clone(), e.year_month.month.clone(), e.requests))
        .collect();
    assert_eq!(
        got,
        vec![
            ("2024".to_string(), "11".to_string(), 1),
            ("2025".to_string(), "01".to_string(), 2),
        ]
    );
}

#[test]
fn monthly_report_unknown_garage_is_empty() {
    let rows = vec![row(1, "1", "2024-01-05")];
    let r = monthly_requests_report(&query(Some("99"), Some("2024-01"), Some("2024-12")), &rows)
        .unwrap();
    assert!(r.is_empty());
}

#[test]
fn monthly_report_reversed_range_is_empty() {
    let rows = vec![row(1, "1", "2024-01-05")];
    let r = monthly_requests_report(&query(Some("1"), Some("2024-03"), Some("2024-01")), &rows)
        .unwrap();
    assert!(r.is_empty());
}

#[test]
fn monthly_report_rejects_bad_parameters() {
    let rows: Vec<Maintenance> = vec![];
    let bad_id = ApiError::InvalidArgument(QueryParameter::GarageId);
    let bad_start = ApiError::InvalidArgument(QueryParameter::StartMonth);
    let bad_end = ApiError::InvalidArgument(QueryParameter::EndMonth);
    assert_eq!(monthly_requests_report(&query(None, Some("2024-01"), Some("2024-02")), &rows).unwrap_err(), bad_id);
    assert_eq!(monthly_requests_report(&query(Some("abc"), Some("2024-01"), Some("2024-02")), &rows).unwrap_err(), bad_id);
    assert_eq!(monthly_requests_report(&query(Some("1"), None, Some("2024-02")), &rows).unwrap_err(), bad_start);
    assert_eq!(monthly_requests_report(&query(Some("1"), Some(""), Some("2024-02")), &rows).unwrap_err(), bad_start);
    assert_eq!(monthly_requests_report(&query(Some("1"), Some("2024-13"), Some("2024-02")), &rows).unwrap_err(), bad_start);
    assert_eq!(monthly_requests_report(&query(Some("1"), Some("2024-01"), None), &rows).unwrap_err(), bad_end);
    assert_eq!(monthly_requests_report(&query(Some("1"), Some("2024-01"), Some("")), &rows).unwrap_err(), bad_end);
}
