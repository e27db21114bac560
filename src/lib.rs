//! Tax-jurisdiction reports from billing records: invoices become validated
//! records (`extract`), a run collects, orders and totals them (`generator`),
//! and the report groups them by state with subtotals and a grand total
//! (`formatter`). `quarter` computes the previous fiscal quarter.

pub mod extract;
pub mod formatter;
pub mod generator;
pub mod models;
pub mod order;
pub mod quarter;
pub mod text;

pub use extract::{
    extract_customer_name, extract_record, extract_state, extract_state_from_customer,
    extract_state_with_fallbacks, invoice_amounts_fit, customer_lookup_id,
};
pub use formatter::format_as_tsv;
pub use generator::ReportGenerator;
pub use models::{
    Address, BalanceTransaction, BillingDetails, Charge, Customer, CustomerRef, ExtractionError,
    InvoiceRecord, LineItem, LineItems, StateSource, StripeInvoice, TaxAmount,
};
pub use quarter::{get_previous_quarter, CalendarDate};
