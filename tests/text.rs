use garage_backend::calendar::{days_in_month, is_leap, CalendarDate, YearMonth};
use garage_backend::text::{format_date, padded, parse_date, parse_integer, parse_year_month};

#[test]
fn parses_dates() {
    assert_eq!(parse_date("2024-02-29"), Some(CalendarDate { year: 2024, month: 2, day: 29 }));
    assert_eq!(parse_date("0000-01-01"), Some(CalendarDate { year: 0, month: 1, day: 1 }));
    assert_eq!(parse_date("9999-12-31"), Some(CalendarDate { year: 9999, month: 12, day: 31 }));
    assert_eq!(parse_date("2023-02-29"), None);
    assert_eq!(parse_date("2024-04-31"), None);
    assert_eq!(parse_date("2024-00-10"), None);
    assert_eq!(parse_date("2024-1-10"), None);
    assert_eq!(parse_date("2024-01-10 "), None);
    assert_eq!(parse_date("2024/01/10"), None);
    assert_eq!(parse_date(""), None);
}

#[test]
fn parses_months() {
    assert_eq!(parse_year_month("2024-03"), Some(YearMonth { year: 2024, month: 3 }));
    assert_eq!(parse_year_month("2024-12"), Some(YearMonth { year: 2024, month: 12 }));
    assert_eq!(parse_year_month("2024-00"), None);
    assert_eq!(parse_year_month("2024-13"), None);
    assert_eq!(parse_year_month("2024-3"), None);
    assert_eq!(parse_year_month(""), None);
}

#[test]
fn parses_integers() {
    assert_eq!(parse_integer("42"), Some(42));
    assert_eq!(parse_integer("+42"), Some(42));
    assert_eq!(parse_integer("-42"), Some(-42));
    assert_eq!(parse_integer("007"), Some(7));
    assert_eq!(parse_integer("9223372036854775807"), Some(i64::MAX));
    assert_eq!(parse_integer("-9223372036854775808"), Some(i64::MIN));
    assert_eq!(parse_integer("9223372036854775808"), None);
    assert_eq!(parse_integer("-9223372036854775809"), None);
    assert_eq!(parse_integer("99999999999999999999x"), None);
    assert_eq!(parse_integer(""), None);
    assert_eq!(parse_integer("-"), None);
    assert_eq!(parse_integer("1 "), None);
    assert_eq!(parse_integer("1a"), None);
}

#[test]
fn formats_dates_and_numbers() {
    assert_eq!(format_date(&CalendarDate { year: 2024, month: 1, day: 3 }), "2024-01-03");
    assert_eq!(format_date(&CalendarDate { year: 7, month: 11, day: 30 }), "0007-11-30");
    assert_eq!(padded(5, 2), "05");
    assert_eq!(padded(2024, 4), "2024");
}

#[test]
fn next_day_rolls_over() {
    let d = CalendarDate { year: 2024, month: 2, day: 28 };
    assert_eq!(d.next_day(), CalendarDate { year: 2024, month: 2, day: 29 });
    let d = CalendarDate { year: 2023, month: 2, day: 28 };
    assert_eq!(d.next_day(), CalendarDate { year: 2023, month: 3, day: 1 });
    let d = CalendarDate { year: 2023, month: 12, day: 31 };
    assert_eq!(d.next_day(), CalendarDate { year: 2024, month: 1, day: 1 });
    let m = YearMonth { year: 2023, month: 12 };
    assert_eq!(m.next_month(), YearMonth { year: 2024, month: 1 });
}

#[test]
fn leap_years_and_month_lengths() {
    assert!(is_leap(2024));
    assert!(is_leap(2000));
    assert!(!is_leap(1900));
    assert!(!is_leap(2023));
    assert_eq!(days_in_month(2024, 2), 29);
    assert_eq!(days_in_month(2023, 2), 28);
    assert_eq!(days_in_month(2023, 4), 30);
    assert_eq!(days_in_month(2023, 12), 31);
}
