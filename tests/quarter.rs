use stripe_tax_report::{get_previous_quarter, CalendarDate, InvoiceRecord, ReportGenerator};

fn date(year: i32, month: u32, day: u32) -> CalendarDate {
    CalendarDate { year, month, day }
}

#[test]
fn test_q4_2025_from_jan_2026() {
    let (start, end, quarter, year) = get_previous_quarter(date(2026, 1, 10));

    assert_eq!(quarter, 4);
    assert_eq!(year, 2025);
    assert_eq!(start.month, 10);
    assert_eq!(start.day, 1);
    assert_eq!(end.month, 12);
    assert_eq!(end.day, 31);
}

#[test]
fn test_quarter_calculation() {
    let (start, end, _quarter, _year) = get_previous_quarter(date(2026, 1, 10));
    assert!((start.year, start.month, start.day) <= (end.year, end.month, end.day));
}

#[test]
fn previous_quarter_of_january_is_last_years_fourth() {
    assert_eq!(
        get_previous_quarter(date(2026, 1, 10)),
        (date(2025, 10, 1), date(2025, 12, 31), 4, 2025)
    );
}

#[test]
fn previous_quarter_ends_on_leap_day_free_months() {
    assert_eq!(get_previous_quarter(date(2024, 4, 1)), (date(2024, 1, 1), date(2024, 3, 31), 1, 2024));
    assert_eq!(get_previous_quarter(date(2025, 8, 31)), (date(2025, 4, 1), date(2025, 6, 30), 2, 2025));
    assert_eq!(get_previous_quarter(date(2025, 12, 31)), (date(2025, 7, 1), date(2025, 9, 30), 3, 2025));
}

#[test]
fn previous_quarter_in_march_of_a_leap_year() {
    assert_eq!(get_previous_quarter(date(2024, 3, 15)), (date(2023, 10, 1), date(2023, 12, 31), 4, 2023));
}

fn record(state: &str, date: &str, customer: &str, licenses: i64) -> InvoiceRecord {
    InvoiceRecord {
        date: date.to_string(),
        customer: customer.to_string(),
        users: 1,
        state: state.to_string(),
        licenses,
        tax: 0,
        total: licenses,
        fees: 0,
    }
}

fn sorted_keys(records: Vec<InvoiceRecord>) -> Vec<(String, String, String, i64)> {
    let mut generator = ReportGenerator::new();
    for r in records {
        generator.add(r);
    }
    generator.sort_records();
    generator
        .get_records()
        .iter()
        .map(|r| (r.state.clone(), r.date.clone(), r.customer.clone(), r.licenses))
        .collect()
}

#[test]
fn sorted_records_ascend_by_state_date_customer() {
    let keys = sorted_keys(vec![
        record("TX", "10/02/2025", "B", 1),
        record("CA", "10/05/2025", "A", 2),
        record("TX", "10/01/2025", "Z", 3),
        record("TX", "10/02/2025", "A", 4),
    ]);
    for pair in keys.windows(2) {
        assert!((&pair[0].0, &pair[0].1, &pair[0].2) <= (&pair[1].0, &pair[1].1, &pair[1].2));
    }
}

#[test]
fn sort_order_does_not_depend_on_arrival_order() {
    let a = record("TX", "10/02/2025", "Same", 1);
    let b = record("TX", "10/02/2025", "Same", 2);
    let c = record("CA", "10/02/2025", "Other", 3);
    let one = sorted_keys(vec![a.clone(), b.clone(), c.clone()]);
    let two = sorted_keys(vec![b, c, a]);
    assert_eq!(one, two);
    assert_eq!(one[0].0, "CA");
    assert_eq!(one[1].3, 1);
    assert_eq!(one[2].3, 2);
}

#[test]
fn dates_sort_in_calendar_order_across_years() {
    let keys = sorted_keys(vec![
        record("TX", "01/02/2026", "Same", 1),
        record("TX", "12/15/2025", "Same", 2),
        record("TX", "10/01/2025", "Same", 3),
    ]);
    let dates: Vec<&str> = keys.iter().map(|k| k.1.as_str()).collect();
    assert_eq!(dates, vec!["10/01/2025", "12/15/2025", "01/02/2026"]);
}
