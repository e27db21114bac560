use vstd::prelude::*;

verus! {

/// A postal address; only `state` is read by the report.
#[derive(Debug, Clone)]
pub struct Address {
    pub city: Option<String>,
    pub country: Option<String>,
    pub line1: Option<String>,
    pub line2: Option<String>,
    pub postal_code: Option<String>,
    pub state: Option<String>,
}

/// The billing details of a charge.
#[derive(Debug, Clone)]
pub struct BillingDetails {
    pub address: Option<Address>,
}

/// A customer record linked to an invoice.
#[derive(Debug, Clone)]
pub struct Customer {
    pub id: String,
    pub name: Option<String>,
    pub address: Option<Address>,
}

/// A charge linked to an invoice.
#[derive(Debug, Clone)]
pub struct Charge {
    pub id: String,
    pub balance_transaction: Option<String>,
    pub billing_details: Option<BillingDetails>,
}

/// The balance transaction of a charge, with the processor's fee in minor units.
#[derive(Debug, Clone)]
pub struct BalanceTransaction {
    pub id: String,
    pub fee: i64,
}

/// One tax amount of a line item, in minor units.
#[derive(Debug, Clone)]
pub struct TaxAmount {
    pub amount: i64,
}

/// One line of an invoice; only lines of type `subscription` count in the report.
#[derive(Debug, Clone)]
pub struct LineItem {
    pub id: String,
    pub line_type: String,
    pub amount: i64,
    pub quantity: Option<i32>,
    pub tax_amounts: Option<Vec<TaxAmount>>,
}

/// The ordered lines of an invoice.
#[derive(Debug, Clone)]
pub struct LineItems {
    pub data: Vec<LineItem>,
}

/// How an invoice refers to its customer: by a bare identifier, by an embedded
/// object with an optional identifier and name, or not at all.
#[derive(Debug, Clone)]
pub enum CustomerRef {
    Id(String),
    Embedded { id: Option<String>, name: Option<String> },
    Missing,
}

/// A raw invoice as the billing service returns it.
#[derive(Debug, Clone)]
pub struct StripeInvoice {
    pub id: String,
    pub customer: CustomerRef,
    pub customer_name: Option<String>,
    pub customer_address: Option<Address>,
    pub status: String,
    pub created: i64,
    pub paid_at: Option<i64>,
    pub amount_due: i64,
    pub amount_paid: i64,
    pub tax: Option<i64>,
    pub lines: LineItems,
    pub charge: Option<String>,
}

/// One validated line of the report. Amounts are in minor units.
#[derive(Debug, Clone)]
pub struct InvoiceRecord {
    pub date: String,
    pub customer: String,
    pub users: u32,
    pub state: String,
    pub licenses: i64,
    pub tax: i64,
    pub total: i64,
    pub fees: i64,
}

/// The mathematical value of an `InvoiceRecord`.
pub struct RecordView {
    pub date: Seq<char>,
    pub customer: Seq<char>,
    pub users: u32,
    pub state: Seq<char>,
    pub licenses: i64,
    pub tax: i64,
    pub total: i64,
    pub fees: i64,
}

impl View for InvoiceRecord {
    type V = RecordView;

    open spec fn view(&self) -> RecordView {
        RecordView {
            date: self.date@,
            customer: self.customer@,
            users: self.users,
            state: self.state@,
            licenses: self.licenses,
            tax: self.tax,
            total: self.total,
            fees: self.fees,
        }
    }
}

/// The values of a sequence of records.
pub open spec fn record_views(records: Seq<InvoiceRecord>) -> Seq<RecordView> {
    records.map_values(|r: InvoiceRecord| r@)
}

/// Why an invoice could not become a report record.
#[derive(Debug, Clone)]
pub enum ExtractionError {
    InvalidTimestamp { invoice_id: String, timestamp: i64 },
    MissingCustomerIdentity { invoice_id: String },
    MissingBillingState { invoice_id: String, searched: StateSource },
}

/// The addresses a search for a billing state read.
#[derive(Debug, Clone)]
pub enum StateSource {
    /// Only the address of the customer with this identifier.
    CustomerAddress { customer_id: String },
    /// Only the invoice's own address.
    InvoiceAddress,
    /// The customer's address, the charge's billing address and the invoice's address.
    AllAddresses,
}

} // verus!
