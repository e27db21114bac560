use stripe_tax_report::{format_as_tsv, InvoiceRecord, ReportGenerator};

fn record(
    date: &str,
    customer: &str,
    users: u32,
    state: &str,
    licenses: i64,
    tax: i64,
    total: i64,
    fees: i64,
) -> InvoiceRecord {
    InvoiceRecord {
        date: date.to_string(),
        customer: customer.to_string(),
        users,
        state: state.to_string(),
        licenses,
        tax,
        total,
        fees,
    }
}

#[test]
fn test_format_empty_records() {
    let records = vec![];
    let output = format_as_tsv(&records);

    assert!(output.contains("GRAND TOTAL"));
}

#[test]
fn test_format_single_state() {
    let records = vec![InvoiceRecord {
        date: "10/15/2025".to_string(),
        customer: "Test Company".to_string(),
        users: 5,
        state: "TX".to_string(),
        licenses: 50000,
        tax: 4000,
        total: 54000,
        fees: 1600,
    }];

    let output = format_as_tsv(&records);

    assert!(output.contains("===== TX ====="));
    assert!(output.contains("10/15/2025\tTest Company\t5\t500.00\t40.00\t540.00\t16.00"));
    assert!(output.contains("Subtotal\t\t\t500.00\t40.00\t540.00\t16.00"));
    assert!(output.contains("GRAND TOTAL\t\t\t500.00\t40.00\t540.00\t16.00"));
}

#[test]
fn test_format_multiple_states() {
    let records = vec![
        InvoiceRecord {
            date: "10/15/2025".to_string(),
            customer: "TX Company".to_string(),
            users: 5,
            state: "TX".to_string(),
            licenses: 50000,
            tax: 4000,
            total: 54000,
            fees: 1600,
        },
        InvoiceRecord {
            date: "10/20/2025".to_string(),
            customer: "CA Company".to_string(),
            users: 3,
            state: "CA".to_string(),
            licenses: 30000,
            tax: 2000,
            total: 32000,
            fees: 900,
        },
    ];

    let output = format_as_tsv(&records);

    assert!(output.contains("===== CA ====="));
    assert!(output.contains("===== TX ====="));

    let ca_index = output.find("===== CA =====").unwrap();
    let tx_index = output.find("===== TX =====").unwrap();
    assert!(ca_index < tx_index, "CA should appear before TX");

    assert!(output.contains("TX Company"));
    assert!(output.contains("CA Company"));

    assert!(output.contains("Subtotal\t\t\t300.00\t20.00\t320.00\t9.00"));
    assert!(output.contains("Subtotal\t\t\t500.00\t40.00\t540.00\t16.00"));

    assert!(output.contains("GRAND TOTAL\t\t\t800.00\t60.00\t860.00\t25.00"));
}

#[test]
fn empty_report_is_a_zero_grand_total() {
    let output = format_as_tsv(&[]);
    assert_eq!(output, "GRAND TOTAL\t\t\t0.00\t0.00\t0.00\t0.00\n");
}

#[test]
fn two_state_report_exact_text() {
    let records = vec![
        record("10/15/2025", "TX Company", 5, "TX", 50000, 4000, 54000, 1600),
        record("10/20/2025", "CA Company", 3, "CA", 30000, 2000, 32000, 900),
    ];
    let expected = "===== CA =====\n\
        Date\tCustomer\tUsers\tLicenses\tTax\tTotal\tFees\n\
        10/20/2025\tCA Company\t3\t300.00\t20.00\t320.00\t9.00\n\
        Subtotal\t\t\t300.00\t20.00\t320.00\t9.00\n\
        \n\
        ===== TX =====\n\
        Date\tCustomer\tUsers\tLicenses\tTax\tTotal\tFees\n\
        10/15/2025\tTX Company\t5\t500.00\t40.00\t540.00\t16.00\n\
        Subtotal\t\t\t500.00\t40.00\t540.00\t16.00\n\
        \n\
        GRAND TOTAL\t\t\t800.00\t60.00\t860.00\t25.00\n";
    assert_eq!(format_as_tsv(&records), expected);
}

#[test]
fn formatting_twice_gives_identical_text() {
    let records = vec![
        record("10/15/2025", "B", 1, "NY", 1234, 99, 1333, 5),
        record("10/16/2025", "A", 2, "NY", 1, 0, 1, 0),
        record("11/01/2025", "C", 0, "AZ", 0, 0, 0, 0),
    ];
    assert_eq!(format_as_tsv(&records), format_as_tsv(&records));
}

#[test]
fn grouping_keeps_rows_of_a_state_together() {
    let records = vec![
        record("10/01/2025", "One", 1, "TX", 100, 0, 100, 0),
        record("10/02/2025", "Two", 1, "CA", 200, 0, 200, 0),
        record("10/03/2025", "Three", 1, "TX", 300, 0, 300, 0),
    ];
    let output = format_as_tsv(&records);
    assert_eq!(output.matches("===== TX =====").count(), 1);
    assert_eq!(output.matches("===== CA =====").count(), 1);
    assert_eq!(output.matches("GRAND TOTAL").count(), 1);
    let tx = output.find("===== TX =====").unwrap();
    let one = output.find("One").unwrap();
    let three = output.find("Three").unwrap();
    let two = output.find("Two").unwrap();
    assert!(two < tx && tx < one && one < three);
    assert!(output.contains("Subtotal\t\t\t4.00\t0.00\t4.00\t0.00"));
    assert!(output.contains("GRAND TOTAL\t\t\t6.00\t0.00\t6.00\t0.00"));
}

#[test]
fn amounts_render_with_two_decimals() {
    let records = vec![record("01/02/2026", "Cents", 12, "WA", 5, 1, 6, 1007)];
    let output = format_as_tsv(&records);
    assert!(output.contains("01/02/2026\tCents\t12\t0.05\t0.01\t0.06\t10.07\n"));
}

#[test]
fn negative_amounts_keep_their_sign() {
    let records = vec![record("01/02/2026", "Credit", 0, "WA", -150, -5, -155, 0)];
    let output = format_as_tsv(&records);
    assert!(output.contains("\t-1.50\t-0.05\t-1.55\t0.00\n"));
}

#[test]
fn largest_amounts_are_summed_exactly() {
    let records = vec![
        record("01/02/2026", "A", 0, "WA", i64::MAX, 0, i64::MAX, 0),
        record("01/03/2026", "B", 0, "WA", i64::MAX, 0, i64::MAX, 0),
    ];
    let output = format_as_tsv(&records);
    assert!(output.contains("Subtotal\t\t\t184467440737095516.14\t0.00\t184467440737095516.14\t0.00"));
}

#[test]
fn test_empty_records() {
    let generator = ReportGenerator::new();
    let totals = generator.calculate_totals();
    assert_eq!(totals, (0, 0, 0, 0));
}
