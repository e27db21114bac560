use stripe_tax_report::{
    extract_customer_name, extract_record, extract_state, extract_state_from_customer,
    extract_state_with_fallbacks, invoice_amounts_fit, Address, BalanceTransaction,
    BillingDetails, Charge, Customer, CustomerRef, ExtractionError, LineItem, LineItems,
    ReportGenerator, StateSource, StripeInvoice,
};

fn address(city: &str, line1: &str, postal_code: &str, state: Option<&str>) -> Address {
    Address {
        city: Some(city.to_string()),
        country: Some("US".to_string()),
        line1: Some(line1.to_string()),
        line2: None,
        postal_code: Some(postal_code.to_string()),
        state: state.map(|s| s.to_string()),
    }
}

fn invoice(id: &str, customer: &str, name: &str, customer_address: Option<Address>) -> StripeInvoice {
    StripeInvoice {
        id: id.to_string(),
        customer: CustomerRef::Id(customer.to_string()),
        customer_name: Some(name.to_string()),
        customer_address,
        status: "paid".to_string(),
        created: 1704067200,
        paid_at: Some(1704067200),
        amount_due: 50000,
        amount_paid: 50000,
        tax: Some(4000),
        lines: LineItems { data: vec![] },
        charge: None,
    }
}

fn line(line_type: &str, amount: i64, quantity: Option<i32>) -> LineItem {
    LineItem {
        id: "il_1".to_string(),
        line_type: line_type.to_string(),
        amount,
        quantity,
        tax_amounts: None,
    }
}

fn customer(id: &str, name: &str, address: Option<Address>) -> Customer {
    Customer { id: id.to_string(), name: Some(name.to_string()), address }
}

fn charge(id: &str, address: Option<Address>) -> Charge {
    Charge {
        id: id.to_string(),
        balance_transaction: None,
        billing_details: address.map(|a| BillingDetails { address: Some(a) }),
    }
}

#[test]
fn test_format_date() {
    let mut inv = invoice("in_date", "cus_date", "Date Company", None);
    inv.paid_at = Some(1768329600);
    let cust = customer("cus_date", "Date Company", Some(address("Austin", "1 Main", "78701", Some("TX"))));
    let result = extract_record(&inv, Some(&cust), None, None).unwrap().date;
    assert!(result.contains("01") || result.contains("2026"));
}

#[test]
fn test_state_fallback_to_customer_address() {
    let invoice = invoice("in_test1", "cus_123", "Test Company", None);
    let customer = customer(
        "cus_123",
        "Test Company",
        Some(address("Austin", "123 Main St", "78701", Some("TX"))),
    );

    let state = extract_state_with_fallbacks(Some(&customer), None, &invoice).unwrap();
    assert_eq!(state, "TX");
}

#[test]
fn test_state_fallback_to_billing_address() {
    let invoice = invoice("in_test2", "cus_456", "Another Company", None);
    let customer = customer("cus_456", "Another Company", None);
    let charge = charge(
        "ch_123",
        Some(address("San Francisco", "456 Market St", "94102", Some("CA"))),
    );

    let state = extract_state_with_fallbacks(Some(&customer), Some(&charge), &invoice).unwrap();
    assert_eq!(state, "CA");
}

#[test]
fn test_state_fallback_to_invoice_address() {
    let invoice = invoice(
        "in_test3",
        "cus_789",
        "Third Company",
        Some(address("New York", "789 Broadway", "10003", Some("NY"))),
    );
    let customer = customer("cus_789", "Third Company", None);

    let state = extract_state_with_fallbacks(Some(&customer), None, &invoice).unwrap();
    assert_eq!(state, "NY");
}

#[test]
fn test_state_fallback_priority_customer_over_charge() {
    let invoice = invoice("in_test4", "cus_priority", "Priority Test", None);
    let customer = customer(
        "cus_priority",
        "Priority Test",
        Some(address("Houston", "100 Main", "77001", Some("TX"))),
    );
    let charge = charge("ch_priority", Some(address("Los Angeles", "200 Market", "90001", Some("CA"))));

    let state = extract_state_with_fallbacks(Some(&customer), Some(&charge), &invoice).unwrap();
    assert_eq!(state, "TX");
}

#[test]
fn test_state_fallback_all_missing_error() {
    let invoice = invoice("in_test_error", "cus_none", "No Address Company", None);
    let customer = customer("cus_none", "No Address Company", None);
    let charge = Charge { id: "ch_none".to_string(), balance_transaction: None, billing_details: None };

    let result = extract_state_with_fallbacks(Some(&customer), Some(&charge), &invoice);
    assert!(result.is_err());
    assert!(result.unwrap_err().message().contains("No state found"));
}

#[test]
fn charge_state_beats_invoice_state() {
    let invoice = invoice("in_5", "cus_5", "Five", Some(address("Boston", "1 Elm", "02108", Some("MA"))));
    let charge = charge("ch_5", Some(address("Portland", "2 Oak", "97201", Some("OR"))));
    let state = extract_state_with_fallbacks(None, Some(&charge), &invoice).unwrap();
    assert_eq!(state, "OR");
}

#[test]
fn empty_states_are_skipped_and_lowercase_is_raised() {
    let invoice = invoice("in_6", "cus_6", "Six", Some(address("Austin", "1 Main", "78701", Some("tx"))));
    let customer = customer("cus_6", "Six", Some(address("Nowhere", "0", "00000", Some(""))));
    let charge = charge("ch_6", Some(address("Nowhere", "0", "00000", None)));
    let state = extract_state_with_fallbacks(Some(&customer), Some(&charge), &invoice).unwrap();
    assert_eq!(state, "TX");
}

#[test]
fn single_source_state_helpers() {
    let invoice = invoice("in_7", "cus_7", "Seven", None);
    let customer = customer("cus_7", "Seven", Some(address("Reno", "1", "89501", Some("nv"))));
    assert_eq!(extract_state_from_customer(&customer, &invoice).unwrap(), "NV");
    let err = extract_state(&invoice).unwrap_err();
    assert!(matches!(err, ExtractionError::MissingBillingState { .. }));
    assert_eq!(err.message(), "Invoice in_7: No state found in invoice address");
    let bare = Customer { id: "cus_bare".to_string(), name: None, address: None };
    let err = extract_state_from_customer(&bare, &invoice).unwrap_err();
    assert!(matches!(
        &err,
        ExtractionError::MissingBillingState { searched: StateSource::CustomerAddress { customer_id }, .. }
            if customer_id == "cus_bare"
    ));
    assert_eq!(err.message(), "Invoice in_7: Customer cus_bare has no state in its address");
}

#[test]
fn fallback_error_names_all_three_sources() {
    let invoice = invoice("in_8", "cus_8", "Eight", None);
    let err = extract_state_with_fallbacks(None, None, &invoice).unwrap_err();
    assert!(matches!(
        err,
        ExtractionError::MissingBillingState { searched: StateSource::AllAddresses, .. }
    ));
    assert_eq!(
        err.message(),
        "Invoice in_8: No state found in customer address, credit card billing address, or invoice address"
    );
}

#[test]
fn subscription_invoice_becomes_a_record() {
    let mut inv = invoice("in_s1", "cus_s1", "Scenario Co", None);
    inv.paid_at = Some(1760486400);
    inv.created = 1700000000;
    inv.tax = Some(4000);
    inv.lines = LineItems {
        data: vec![
            line("subscription", 20000, Some(3)),
            line("invoiceitem", 99999, Some(7)),
            line("subscription", 10000, Some(2)),
        ],
    };
    let cust = customer("cus_s1", "Scenario Co", Some(address("Dallas", "1 Main", "75201", Some("tx"))));
    assert!(invoice_amounts_fit(&inv));
    let r = extract_record(&inv, Some(&cust), None, None).unwrap();
    assert_eq!(r.date, "10/15/2025");
    assert_eq!(r.customer, "Scenario Co");
    assert_eq!(r.users, 5);
    assert_eq!(r.state, "TX");
    assert_eq!(r.licenses, 30000);
    assert_eq!(r.tax, 4000);
    assert_eq!(r.total, 34000);
    assert_eq!(r.fees, 0);
}

#[test]
fn fees_come_from_the_balance_transaction() {
    let mut inv = invoice("in_f", "cus_f", "Fee Co", None);
    inv.tax = None;
    inv.lines = LineItems { data: vec![line("subscription", 1000, None)] };
    let cust = customer("cus_f", "Fee Co", Some(address("Austin", "1", "78701", Some("TX"))));
    let bt = BalanceTransaction { id: "txn_1".to_string(), fee: 59 };
    let r = extract_record(&inv, Some(&cust), None, Some(&bt)).unwrap();
    assert_eq!((r.users, r.licenses, r.tax, r.total, r.fees), (0, 1000, 0, 1000, 59));
    assert_eq!(r.date, "01/01/2024");
}

#[test]
fn created_date_is_used_when_unpaid() {
    let mut inv = invoice("in_c", "cus_c", "Created Co", None);
    inv.paid_at = None;
    inv.created = 1768329600;
    let cust = customer("cus_c", "Created Co", Some(address("Austin", "1", "78701", Some("TX"))));
    let r = extract_record(&inv, Some(&cust), None, None).unwrap();
    assert_eq!(r.date, "01/13/2026");
}

#[test]
fn out_of_range_timestamp_is_invalid() {
    let mut inv = invoice("in_t", "cus_t", "Time Co", None);
    inv.paid_at = Some(i64::MAX);
    let cust = customer("cus_t", "Time Co", Some(address("Austin", "1", "78701", Some("TX"))));
    let err = extract_record(&inv, Some(&cust), None, None).unwrap_err();
    assert!(matches!(err, ExtractionError::InvalidTimestamp { timestamp: i64::MAX, .. }));
}

#[test]
fn customer_name_fallbacks() {
    let mut inv = invoice("in_n", "cus_bare", "", None);
    assert_eq!(extract_customer_name(&inv).unwrap(), "cus_bare");
    inv.customer_name = None;
    inv.customer = CustomerRef::Embedded { id: Some("cus_obj".to_string()), name: Some("Obj".to_string()) };
    assert_eq!(extract_customer_name(&inv).unwrap(), "cus_obj");
    inv.customer = CustomerRef::Embedded { id: None, name: Some("Obj Name".to_string()) };
    assert_eq!(extract_customer_name(&inv).unwrap(), "Obj Name");
    inv.customer = CustomerRef::Embedded { id: None, name: None };
    let err = extract_customer_name(&inv).unwrap_err();
    assert!(matches!(err, ExtractionError::MissingCustomerIdentity { .. }));
    inv.customer = CustomerRef::Id(String::new());
    assert!(extract_customer_name(&inv).is_err());
    inv.customer = CustomerRef::Missing;
    assert_eq!(extract_customer_name(&inv).unwrap_err().message(), "Invoice in_n: No customer name or ID");
}

#[test]
fn missing_identity_is_reported_before_missing_state() {
    let mut inv = invoice("in_m", "cus_m", "", None);
    inv.customer = CustomerRef::Missing;
    let err = extract_record(&inv, None, None, None).unwrap_err();
    assert!(matches!(err, ExtractionError::MissingCustomerIdentity { .. }));
}

#[test]
fn overflowing_amounts_do_not_fit() {
    let mut inv = invoice("in_o", "cus_o", "Big", None);
    inv.lines = LineItems { data: vec![line("subscription", i64::MAX, Some(1))] };
    inv.tax = Some(1);
    assert!(!invoice_amounts_fit(&inv));
    inv.tax = Some(0);
    assert!(invoice_amounts_fit(&inv));
    inv.lines = LineItems { data: vec![line("subscription", 1, Some(-1))] };
    assert!(!invoice_amounts_fit(&inv));
}

#[test]
fn generator_collects_sorts_and_totals() {
    let mut generator = ReportGenerator::new();
    let tx = customer("cus_a", "A", Some(address("Austin", "1", "78701", Some("TX"))));
    let ca = customer("cus_b", "B", Some(address("Fresno", "1", "93650", Some("CA"))));
    let mut first = invoice("in_a", "cus_a", "Zed", None);
    first.lines = LineItems { data: vec![line("subscription", 50000, Some(5))] };
    let mut second = invoice("in_b", "cus_b", "Alpha", None);
    second.lines = LineItems { data: vec![line("subscription", 30000, Some(3))] };
    second.tax = Some(2000);
    let bad = invoice("in_bad", "cus_c", "Nobody", None);
    assert!(generator.process_invoice_with_customer(first, Some(&tx), None, None).is_ok());
    assert!(generator.process_invoice_with_customer(second, Some(&ca), None, None).is_ok());
    assert!(generator.process_invoice(bad).is_err());
    assert_eq!(generator.get_records().len(), 2);
    generator.sort_records();
    let records = generator.get_records();
    assert_eq!(records[0].state, "CA");
    assert_eq!(records[1].state, "TX");
    assert!(generator.totals_fit());
    assert_eq!(generator.calculate_totals(), (80000, 6000, 86000, 0));
}
