use vstd::prelude::*;
use vstd::string::StringExecFns;

use crate::models::{
    Address, BalanceTransaction, Charge, Customer, CustomerRef, ExtractionError, InvoiceRecord,
    LineItem, StateSource, StripeInvoice,
};
use crate::text::same_text;

verus! {

/// What `str::to_uppercase` makes of a text.
pub uninterp spec fn upper_of(s: Seq<char>) -> Seq<char>;

/// The `MM/DD/YYYY` calendar date, in UTC, of a Unix timestamp.
pub uninterp spec fn utc_date_text(timestamp: int) -> Seq<char>;

/// Relies on `str::to_uppercase`: the result depends on the characters alone,
/// and each character maps to one or more characters.
#[verifier::external_body]
fn to_upper(s: &str) -> (r: String)
    ensures
        r@ == upper_of(s@),
        s@.len() > 0 ==> r@.len() > 0,
{
    s.to_uppercase()
}

/// Relies on chrono's `DateTime::<Utc>::from_timestamp`, which fails only for
/// timestamps outside its date range (years -262143 to 262142), and on the
/// `%m/%d/%Y` rendering of its `format`.
#[verifier::external_body]
fn utc_date_of(timestamp: i64) -> (r: Option<String>)
    ensures
        r is Some ==> r->0@ == utc_date_text(timestamp as int),
        timestamp_in_range(timestamp as int) ==> r is Some,
{
    match chrono::DateTime::<chrono::Utc>::from_timestamp(timestamp, 0) {
        Some(moment) => Some(moment.format("%m/%d/%Y").to_string()),
        None => None,
    }
}

/// Timestamps that surely map to a calendar date (about 250,000 years each way).
pub open spec fn timestamp_in_range(timestamp: int) -> bool {
    -8_000_000_000_000 <= timestamp <= 8_000_000_000_000
}

/// The non-empty state of an optional address.
pub open spec fn address_state(address: Option<Address>) -> Option<Seq<char>> {
    match address {
        Some(a) => match a.state {
            Some(s) => if s@.len() > 0 {
                Some(s@)
            } else {
                None
            },
            None => None,
        },
        None => None,
    }
}

/// The non-empty state of a linked customer's address.
pub open spec fn customer_state(customer: Option<&Customer>) -> Option<Seq<char>> {
    match customer {
        Some(c) => address_state(c.address),
        None => None,
    }
}

/// The non-empty state of a linked charge's billing address.
pub open spec fn charge_state(charge: Option<&Charge>) -> Option<Seq<char>> {
    match charge {
        Some(c) => match c.billing_details {
            Some(d) => address_state(d.address),
            None => None,
        },
        None => None,
    }
}

/// The billing state before normalisation: the customer's, else the charge's,
/// else the invoice's own; `None` when all three are absent or empty.
pub open spec fn billing_state(
    customer: Option<&Customer>,
    charge: Option<&Charge>,
    invoice: &StripeInvoice,
) -> Option<Seq<char>> {
    if customer_state(customer) is Some {
        customer_state(customer)
    } else if charge_state(charge) is Some {
        charge_state(charge)
    } else {
        address_state(invoice.customer_address)
    }
}

/// Fallback priority: a customer state wins over a charge state; a charge
/// state is used when the customer gives none; the invoice's own state when
/// neither does; and with none of the three there is no billing state.
pub proof fn lemma_fallback_priority(
    customer: Option<&Customer>,
    charge: Option<&Charge>,
    invoice: &StripeInvoice,
)
    ensures
        customer_state(customer) is Some ==> billing_state(customer, charge, invoice)
            == customer_state(customer),
        customer_state(customer) is None && charge_state(charge) is Some ==> billing_state(
            customer,
            charge,
            invoice,
        ) == charge_state(charge),
        customer_state(customer) is None && charge_state(charge) is None ==> billing_state(
            customer,
            charge,
            invoice,
        ) == address_state(invoice.customer_address),
        customer_state(customer) is None && charge_state(charge) is None && address_state(
            invoice.customer_address,
        ) is None ==> billing_state(customer, charge, invoice) is None,
{
}

/// The customer's display name: a non-empty name on the invoice, else a
/// non-empty bare identifier, else the embedded identifier, else the embedded name.
pub open spec fn customer_identity(invoice: &StripeInvoice) -> Option<Seq<char>> {
    if invoice.customer_name is Some && invoice.customer_name->0@.len() > 0 {
        Some(invoice.customer_name->0@)
    } else {
        match invoice.customer {
            CustomerRef::Id(s) => if s@.len() > 0 {
                Some(s@)
            } else {
                None
            },
            CustomerRef::Embedded { id, name } => match id {
                Some(i) => Some(i@),
                None => match name {
                    Some(n) => Some(n@),
                    None => None,
                },
            },
            CustomerRef::Missing => None,
        }
    }
}

/// Only subscription lines count towards users and licenses.
pub open spec fn is_subscription(line: LineItem) -> bool {
    line.line_type@ == "subscription"@
}

/// Sum of the quantities (absent counts as 0) of the subscription lines.
pub open spec fn subscription_users(lines: Seq<LineItem>) -> int
    decreases lines.len(),
{
    if lines.len() == 0 {
        0
    } else {
        let last = lines.last();
        subscription_users(lines.drop_last()) + if is_subscription(last) && last.quantity is Some {
            last.quantity->0 as int
        } else {
            0
        }
    }
}

/// Sum of the amounts of the subscription lines.
pub open spec fn subscription_licenses(lines: Seq<LineItem>) -> int
    decreases lines.len(),
{
    if lines.len() == 0 {
        0
    } else {
        let last = lines.last();
        subscription_licenses(lines.drop_last()) + if is_subscription(last) {
            last.amount as int
        } else {
            0
        }
    }
}

/// The invoice's tax, 0 when absent.
pub open spec fn invoice_tax(invoice: &StripeInvoice) -> int {
    match invoice.tax {
        Some(t) => t as int,
        None => 0,
    }
}

/// The fee of the linked balance transaction, 0 when there is none.
pub open spec fn linked_fee(balance_transaction: Option<&BalanceTransaction>) -> int {
    match balance_transaction {
        Some(b) => b.fee as int,
        None => 0,
    }
}

/// The timestamp that dates an invoice: when it was paid, else when it was created.
pub open spec fn invoice_timestamp(invoice: &StripeInvoice) -> int {
    match invoice.paid_at {
        Some(t) => t as int,
        None => invoice.created as int,
    }
}

/// The invoice's figures fit the record's integer types.
pub open spec fn amounts_fit(invoice: &StripeInvoice) -> bool {
    let users = subscription_users(invoice.lines.data@);
    let licenses = subscription_licenses(invoice.lines.data@);
    &&& 0 <= users <= u32::MAX
    &&& i64::MIN <= licenses <= i64::MAX
    &&& i64::MIN <= licenses + invoice_tax(invoice) <= i64::MAX
}

/// `record` is what the invoice and its linked entities give, with the date text `date`.
pub open spec fn record_of(
    record: InvoiceRecord,
    invoice: &StripeInvoice,
    customer: Option<&Customer>,
    charge: Option<&Charge>,
    balance_transaction: Option<&BalanceTransaction>,
    date: Seq<char>,
) -> bool {
    &&& record.date@ == date
    &&& record.customer@ == customer_identity(invoice)->0
    &&& record.state@ == upper_of(billing_state(customer, charge, invoice)->0)
    &&& record.state@.len() > 0
    &&& record.users as int == subscription_users(invoice.lines.data@)
    &&& record.licenses as int == subscription_licenses(invoice.lines.data@)
    &&& record.tax as int == invoice_tax(invoice)
    &&& record.total as int == record.licenses as int + record.tax as int
    &&& record.fees as int == linked_fee(balance_transaction)
}

/// `e` reports that the invoice's customer has no name or identifier.
pub open spec fn is_missing_identity_of(e: ExtractionError, invoice: &StripeInvoice) -> bool {
    e is MissingCustomerIdentity && e->MissingCustomerIdentity_invoice_id@ == invoice.id@
}

/// `e` reports that no billing state resolves for the invoice.
pub open spec fn is_missing_state_of(e: ExtractionError, invoice: &StripeInvoice) -> bool {
    &&& e is MissingBillingState
    &&& e->MissingBillingState_invoice_id@ == invoice.id@
    &&& e->MissingBillingState_searched is AllAddresses
}

/// `e` reports that the customer's own address holds no state; it names the
/// invoice and the customer.
pub open spec fn is_customer_without_state(
    e: ExtractionError,
    customer: &Customer,
    invoice: &StripeInvoice,
) -> bool {
    &&& e is MissingBillingState
    &&& e->MissingBillingState_invoice_id@ == invoice.id@
    &&& e->MissingBillingState_searched is CustomerAddress
    &&& e->MissingBillingState_searched->CustomerAddress_customer_id@ == customer.id@
}

/// `e` reports that the invoice's own address holds no state.
pub open spec fn is_invoice_without_state(e: ExtractionError, invoice: &StripeInvoice) -> bool {
    &&& e is MissingBillingState
    &&& e->MissingBillingState_invoice_id@ == invoice.id@
    &&& e->MissingBillingState_searched is InvoiceAddress
}

/// `e` reports that the invoice's timestamp has no calendar date.
pub open spec fn is_invalid_timestamp_of(e: ExtractionError, invoice: &StripeInvoice) -> bool {
    &&& e is InvalidTimestamp
    &&& e->InvalidTimestamp_invoice_id@ == invoice.id@
    &&& e->InvalidTimestamp_timestamp as int == invoice_timestamp(invoice)
}

/// The state of an optional address, when present and non-empty.
pub fn state_of_address(address: &Option<Address>) -> (r: Option<&String>)
    ensures
        r is Some <==> address_state(*address) is Some,
        r is Some ==> address_state(*address) == Some(r->0@),
{
    match address {
        Some(a) => match &a.state {
            Some(s) => if s.as_str().unicode_len() > 0 {
                Some(s)
            } else {
                None
            },
            None => None,
        },
        None => None,
    }
}

/// The state of a linked customer's address, uppercased.
pub fn extract_state_from_customer(customer: &Customer, invoice: &StripeInvoice) -> (r: Result<
    String,
    ExtractionError,
>)
    ensures
        r is Ok <==> customer_state(Some(customer)) is Some,
        r is Ok ==> r->Ok_0@ == upper_of(customer_state(Some(customer))->0),
        r is Ok ==> r->Ok_0@.len() > 0,
        r is Err ==> is_customer_without_state(r->Err_0, customer, invoice),
{
    match state_of_address(&customer.address) {
        Some(s) => Ok(to_upper(s.as_str())),
        None => Err(
            ExtractionError::MissingBillingState {
                invoice_id: invoice.id.clone(),
                searched: StateSource::CustomerAddress { customer_id: customer.id.clone() },
            },
        ),
    }
}

/// The state of the invoice's own address, uppercased.
pub fn extract_state(invoice: &StripeInvoice) -> (r: Result<String, ExtractionError>)
    ensures
        r is Ok <==> address_state(invoice.customer_address) is Some,
        r is Ok ==> r->Ok_0@ == upper_of(address_state(invoice.customer_address)->0),
        r is Ok ==> r->Ok_0@.len() > 0,
        r is Err ==> is_invoice_without_state(r->Err_0, invoice),
{
    match state_of_address(&invoice.customer_address) {
        Some(s) => Ok(to_upper(s.as_str())),
        None => Err(
            ExtractionError::MissingBillingState {
                invoice_id: invoice.id.clone(),
                searched: StateSource::InvoiceAddress,
            },
        ),
    }
}

/// The billing state in strict priority order: the linked customer's address,
/// then the linked charge's billing address, then the invoice's address,
/// uppercased; `MissingBillingState` when all three are absent or empty.
pub fn extract_state_with_fallbacks(
    customer: Option<&Customer>,
    charge: Option<&Charge>,
    invoice: &StripeInvoice,
) -> (r: Result<String, ExtractionError>)
    ensures
        r is Ok <==> billing_state(customer, charge, invoice) is Some,
        r is Ok ==> r->Ok_0@ == upper_of(billing_state(customer, charge, invoice)->0),
        r is Ok ==> r->Ok_0@.len() > 0,
        r is Err ==> is_missing_state_of(r->Err_0, invoice),
{
    if let Some(c) = customer {
        if let Some(s) = state_of_address(&c.address) {
            return Ok(to_upper(s.as_str()));
        }
    }
    if let Some(c) = charge {
        if let Some(details) = &c.billing_details {
            if let Some(s) = state_of_address(&details.address) {
                return Ok(to_upper(s.as_str()));
            }
        }
    }
    match state_of_address(&invoice.customer_address) {
        Some(s) => Ok(to_upper(s.as_str())),
        None => Err(
            ExtractionError::MissingBillingState {
                invoice_id: invoice.id.clone(),
                searched: StateSource::AllAddresses,
            },
        ),
    }
}

/// The customer's display name, or `MissingCustomerIdentity`.
pub fn extract_customer_name(invoice: &StripeInvoice) -> (r: Result<String, ExtractionError>)
    ensures
        r is Ok <==> customer_identity(invoice) is Some,
        r is Ok ==> r->Ok_0@ == customer_identity(invoice)->0,
        r is Err ==> is_missing_identity_of(r->Err_0, invoice),
{
    if let Some(name) = &invoice.customer_name {
        if name.as_str().unicode_len() > 0 {
            return Ok(name.clone());
        }
    }
    match &invoice.customer {
        CustomerRef::Id(s) => if s.as_str().unicode_len() > 0 {
            Ok(s.clone())
        } else {
            Err(ExtractionError::MissingCustomerIdentity { invoice_id: invoice.id.clone() })
        },
        CustomerRef::Embedded { id, name } => match id {
            Some(i) => Ok(i.clone()),
            None => match name {
                Some(n) => Ok(n.clone()),
                None => Err(
                    ExtractionError::MissingCustomerIdentity { invoice_id: invoice.id.clone() },
                ),
            },
        },
        CustomerRef::Missing => Err(
            ExtractionError::MissingCustomerIdentity { invoice_id: invoice.id.clone() },
        ),
    }
}

/// The identifier under which the invoice's customer can be looked up: a
/// non-empty bare identifier or the embedded object's identifier.
pub open spec fn customer_lookup_key(invoice: &StripeInvoice) -> Option<Seq<char>> {
    match invoice.customer {
        CustomerRef::Id(s) => if s@.len() > 0 {
            Some(s@)
        } else {
            None
        },
        CustomerRef::Embedded { id, name: _ } => match id {
            Some(i) => Some(i@),
            None => None,
        },
        CustomerRef::Missing => None,
    }
}

/// The identifier to look the invoice's customer up by, if it has one.
pub fn customer_lookup_id(invoice: &StripeInvoice) -> (r: Option<String>)
    ensures
        r is Some <==> customer_lookup_key(invoice) is Some,
        r is Some ==> r->0@ == customer_lookup_key(invoice)->0,
{
    match &invoice.customer {
        CustomerRef::Id(s) => if s.as_str().unicode_len() > 0 {
            Some(s.clone())
        } else {
            None
        },
        CustomerRef::Embedded { id, name: _ } => match id {
            Some(i) => Some(i.clone()),
            None => None,
        },
        CustomerRef::Missing => None,
    }
}

fn is_subscription_line(line: &LineItem) -> (r: bool)
    ensures
        r == is_subscription(*line),
{
    same_text(line.line_type.as_str(), "subscription")
}

/// Each line moves the sums by less than one line's largest value.
proof fn lemma_sums_bounded(lines: Seq<LineItem>)
    ensures
        -(lines.len() as int) * 0x8000_0000 <= subscription_users(lines) <= (lines.len() as int)
            * 0x8000_0000,
        -(lines.len() as int) * 0x8000_0000_0000_0000 <= subscription_licenses(lines) <= (
        lines.len() as int) * 0x8000_0000_0000_0000,
    decreases lines.len(),
{
    if lines.len() > 0 {
        lemma_sums_bounded(lines.drop_last());
    }
}

/// Sum of the quantities of the subscription lines, as an exact integer.
fn sum_subscription_quantities(lines: &Vec<LineItem>) -> (r: i128)
    ensures
        r as int == subscription_users(lines@),
{
    let mut total: i128 = 0;
    let mut i: usize = 0;
    while i < lines.len()
        invariant
            i <= lines.len(),
            total as int == subscription_users(lines@.take(i as int)),
        decreases lines.len() - i,
    {
        proof {
            assert(lines@.take(i + 1).drop_last() =~= lines@.take(i as int));
            lemma_sums_bounded(lines@.take(i + 1));
            assert(i + 1 <= usize::MAX);
            assert((i as int + 1) * 0x8000_0000 <= 0x1_0000_0000_0000_0000 * 0x8000_0000)
                by (nonlinear_arith)
                requires
                    i + 1 <= 0x1_0000_0000_0000_0000,
            ;
        }
        let line = &lines[i];
        if is_subscription_line(line) {
            if let Some(q) = line.quantity {
                total = total + q as i128;
            }
        }
        i = i + 1;
    }
    assert(lines@.take(lines.len() as int) =~= lines@);
    total
}

/// Sum of the amounts of the subscription lines, as an exact integer.
fn sum_license_amounts(lines: &Vec<LineItem>) -> (r: i128)
    ensures
        r as int == subscription_licenses(lines@),
{
    let mut total: i128 = 0;
    let mut i: usize = 0;
    while i < lines.len()
        invariant
            i <= lines.len(),
            total as int == subscription_licenses(lines@.take(i as int)),
        decreases lines.len() - i,
    {
        proof {
            assert(lines@.take(i + 1).drop_last() =~= lines@.take(i as int));
            lemma_sums_bounded(lines@.take(i + 1));
            assert((i as int + 1) * 0x8000_0000_0000_0000 <= 0x1_0000_0000_0000_0000
                * 0x8000_0000_0000_0000) by (nonlinear_arith)
                requires
                    i + 1 <= 0x1_0000_0000_0000_0000,
            ;
        }
        let line = &lines[i];
        if is_subscription_line(line) {
            total = total + line.amount as i128;
        }
        i = i + 1;
    }
    assert(lines@.take(lines.len() as int) =~= lines@);
    total
}

/// Whether the invoice's figures fit the record's integer types.
pub fn invoice_amounts_fit(invoice: &StripeInvoice) -> (r: bool)
    ensures
        r == amounts_fit(invoice),
{
    let users = sum_subscription_quantities(&invoice.lines.data);
    let licenses = sum_license_amounts(&invoice.lines.data);
    let tax: i128 = match invoice.tax {
        Some(t) => t as i128,
        None => 0,
    };
    let n = invoice.lines.data.len();
    proof {
        lemma_sums_bounded(invoice.lines.data@);
        assert((invoice.lines.data@.len() as int) * 0x8000_0000_0000_0000 <= 0x1_0000_0000_0000_0000
            * 0x8000_0000_0000_0000) by (nonlinear_arith)
            requires
                invoice.lines.data@.len() <= 0x1_0000_0000_0000_0000,
        ;
    }
    0 <= users && users <= u32::MAX as i128 && i64::MIN as i128 <= licenses && licenses
        <= i64::MAX as i128 && i64::MIN as i128 <= licenses + tax && licenses + tax
        <= i64::MAX as i128
}

/// Builds the record of an invoice whose date text is already known (`None`
/// when its timestamp has no calendar date). Checks, in this order, the date,
/// the customer's identity and the billing state.
pub fn build_record(
    invoice: &StripeInvoice,
    customer: Option<&Customer>,
    charge: Option<&Charge>,
    balance_transaction: Option<&BalanceTransaction>,
    date: Option<String>,
) -> (r: Result<InvoiceRecord, ExtractionError>)
    requires
        amounts_fit(invoice),
    ensures
        date is None ==> r is Err && is_invalid_timestamp_of(r->Err_0, invoice),
        date is Some && customer_identity(invoice) is None ==> r is Err
            && is_missing_identity_of(r->Err_0, invoice),
        date is Some && customer_identity(invoice) is Some && billing_state(
            customer,
            charge,
            invoice,
        ) is None ==> r is Err && is_missing_state_of(r->Err_0, invoice),
        date is Some && customer_identity(invoice) is Some && billing_state(
            customer,
            charge,
            invoice,
        ) is Some ==> r is Ok && record_of(
            r->Ok_0,
            invoice,
            customer,
            charge,
            balance_transaction,
            date->0@,
        ),
{
    let date = match date {
        Some(d) => d,
        None => {
            let timestamp = match invoice.paid_at {
                Some(t) => t,
                None => invoice.created,
            };
            return Err(
                ExtractionError::InvalidTimestamp { invoice_id: invoice.id.clone(), timestamp },
            );
        },
    };
    let customer_name = match extract_customer_name(invoice) {
        Ok(n) => n,
        Err(e) => return Err(e),
    };
    let state = match extract_state_with_fallbacks(customer, charge, invoice) {
        Ok(s) => s,
        Err(e) => return Err(e),
    };
    let users = sum_subscription_quantities(&invoice.lines.data);
    let licenses = sum_license_amounts(&invoice.lines.data);
    let tax: i64 = match invoice.tax {
        Some(t) => t,
        None => 0,
    };
    let fees: i64 = match balance_transaction {
        Some(b) => b.fee,
        None => 0,
    };
    let licenses = licenses as i64;
    Ok(
        InvoiceRecord {
            date,
            customer: customer_name,
            users: users as u32,
            state,
            licenses,
            tax,
            total: licenses + tax,
            fees,
        },
    )
}

/// What extraction may return: `InvalidTimestamp` only for a timestamp out of
/// range; otherwise `MissingCustomerIdentity` when no name resolves, else
/// `MissingBillingState` when no state resolves, else the record, dated by
/// the invoice's timestamp.
pub open spec fn extraction_outcome(
    r: Result<InvoiceRecord, ExtractionError>,
    invoice: &StripeInvoice,
    customer: Option<&Customer>,
    charge: Option<&Charge>,
    balance_transaction: Option<&BalanceTransaction>,
) -> bool {
    if r is Err && r->Err_0 is InvalidTimestamp {
        is_invalid_timestamp_of(r->Err_0, invoice) && !timestamp_in_range(invoice_timestamp(invoice))
    } else if customer_identity(invoice) is None {
        r is Err && is_missing_identity_of(r->Err_0, invoice)
    } else if billing_state(customer, charge, invoice) is None {
        r is Err && is_missing_state_of(r->Err_0, invoice)
    } else {
        r is Ok && record_of(
            r->Ok_0,
            invoice,
            customer,
            charge,
            balance_transaction,
            utc_date_text(invoice_timestamp(invoice)),
        )
    }
}

/// Turns an invoice and its optionally linked customer, charge and balance
/// transaction into a report record, dated by its payment (else creation)
/// timestamp in UTC.
pub fn extract_record(
    invoice: &StripeInvoice,
    customer: Option<&Customer>,
    charge: Option<&Charge>,
    balance_transaction: Option<&BalanceTransaction>,
) -> (r: Result<InvoiceRecord, ExtractionError>)
    requires
        amounts_fit(invoice),
    ensures
        extraction_outcome(r, invoice, customer, charge, balance_transaction),
{
    let timestamp = match invoice.paid_at {
        Some(t) => t,
        None => invoice.created,
    };
    let date = utc_date_of(timestamp);
    build_record(invoice, customer, charge, balance_transaction, date)
}

impl ExtractionError {
    /// A one-line description of the failure.
    pub fn message(&self) -> (r: String)
        ensures
            r@ == error_text(*self),
    {
        let mut out = String::new();
        match self {
            ExtractionError::InvalidTimestamp { invoice_id, timestamp: _ } => {
                out.append("Invoice ");
                out.append(invoice_id.as_str());
                out.append(": Invalid timestamp");
            },
            ExtractionError::MissingCustomerIdentity { invoice_id } => {
                out.append("Invoice ");
                out.append(invoice_id.as_str());
                out.append(": No customer name or ID");
            },
            ExtractionError::MissingBillingState { invoice_id, searched } => {
                out.append("Invoice ");
                out.append(invoice_id.as_str());
                match searched {
                    StateSource::CustomerAddress { customer_id } => {
                        out.append(": Customer ");
                        out.append(customer_id.as_str());
                        out.append(" has no state in its address");
                    },
                    StateSource::InvoiceAddress => {
                        out.append(": No state found in invoice address");
                    },
                    StateSource::AllAddresses => {
                        out.append(
                            ": No state found in customer address, credit card billing address, or invoice address",
                        );
                    },
                }
            },
        }
        out
    }
}

/// The description of an extraction failure.
pub open spec fn error_text(e: ExtractionError) -> Seq<char> {
    match e {
        ExtractionError::InvalidTimestamp { invoice_id, timestamp: _ } => "Invoice "@
            + invoice_id@ + ": Invalid timestamp"@,
        ExtractionError::MissingCustomerIdentity { invoice_id } => "Invoice "@ + invoice_id@
            + ": No customer name or ID"@,
        ExtractionError::MissingBillingState { invoice_id, searched } => "Invoice "@ + invoice_id@
            + match searched {
            StateSource::CustomerAddress { customer_id } => ": Customer "@ + customer_id@
                + " has no state in its address"@,
            StateSource::InvoiceAddress => ": No state found in invoice address"@,
            StateSource::AllAddresses =>
                ": No state found in customer address, credit card billing address, or invoice address"@,
        },
    }
}

} // verus!
