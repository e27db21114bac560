use vstd::prelude::*;

use crate::extract::{amounts_fit, extract_record, extraction_outcome};
use crate::models::{
    record_views, BalanceTransaction, Charge, Customer, ExtractionError, InvoiceRecord,
    RecordView, StripeInvoice,
};
use crate::order::{
    calendar_key_le, compare_records, key_le, lemma_record_order, lemma_sorted_keys_ascend,
    record_cmp, records_sorted,
};
use crate::text::is_mdy_date;

verus! {

/// One of the four money fields of a record: 0 licenses, 1 tax, 2 total, 3 fees.
pub open spec fn money_field(r: RecordView, k: int) -> int {
    if k == 0 {
        r.licenses as int
    } else if k == 1 {
        r.tax as int
    } else if k == 2 {
        r.total as int
    } else {
        r.fees as int
    }
}

/// The exact sum of money field `k` over the records.
pub open spec fn money_sum(records: Seq<InvoiceRecord>, k: int) -> int
    decreases records.len(),
{
    if records.len() == 0 {
        0
    } else {
        money_sum(records.drop_last(), k) + money_field(records.last()@, k)
    }
}

/// The sums of licenses, tax, total and fees over the records.
pub open spec fn totals_of(records: Seq<InvoiceRecord>) -> (int, int, int, int) {
    (money_sum(records, 0), money_sum(records, 1), money_sum(records, 2), money_sum(records, 3))
}

/// Every money sum fits in 64 bits.
pub open spec fn totals_in_range(records: Seq<InvoiceRecord>) -> bool {
    forall|k: int| 0 <= k < 4 ==> i64::MIN <= #[trigger] money_sum(records, k) <= i64::MAX
}

/// Each record moves a money sum by at most 2^63.
pub proof fn lemma_money_sum_bounded(records: Seq<InvoiceRecord>, k: int)
    ensures
        -(records.len() as int) * 0x8000_0000_0000_0000 <= money_sum(records, k) <= (
        records.len() as int) * 0x8000_0000_0000_0000,
    decreases records.len(),
{
    if records.len() > 0 {
        lemma_money_sum_bounded(records.drop_last(), k);
    }
}

/// Sums the four money fields over `records` exactly.
pub fn sum_money(records: &[InvoiceRecord]) -> (r: (i128, i128, i128, i128))
    ensures
        r.0 as int == money_sum(records@, 0),
        r.1 as int == money_sum(records@, 1),
        r.2 as int == money_sum(records@, 2),
        r.3 as int == money_sum(records@, 3),
{
    let mut licenses: i128 = 0;
    let mut tax: i128 = 0;
    let mut total: i128 = 0;
    let mut fees: i128 = 0;
    let mut i: usize = 0;
    while i < records.len()
        invariant
            i <= records.len(),
            licenses as int == money_sum(records@.take(i as int), 0),
            tax as int == money_sum(records@.take(i as int), 1),
            total as int == money_sum(records@.take(i as int), 2),
            fees as int == money_sum(records@.take(i as int), 3),
        decreases records.len() - i,
    {
        proof {
            let next = records@.take(i + 1);
            assert(next.drop_last() =~= records@.take(i as int));
            lemma_money_sum_bounded(next, 0);
            lemma_money_sum_bounded(next, 1);
            lemma_money_sum_bounded(next, 2);
            lemma_money_sum_bounded(next, 3);
            assert((i as int + 1) * 0x8000_0000_0000_0000 <= 0x1_0000_0000_0000_0000
                * 0x8000_0000_0000_0000) by (nonlinear_arith)
                requires
                    i + 1 <= 0x1_0000_0000_0000_0000,
            ;
        }
        let r = &records[i];
        licenses = licenses + r.licenses as i128;
        tax = tax + r.tax as i128;
        total = total + r.total as i128;
        fees = fees + r.fees as i128;
        i = i + 1;
    }
    assert(records@.take(records.len() as int) =~= records@);
    (licenses, tax, total, fees)
}

/// Inserting an item anywhere adds it to the multiset.
pub proof fn lemma_insert_multiset<A>(items: Seq<A>, pos: int, item: A)
    requires
        0 <= pos <= items.len(),
    ensures
        items.insert(pos, item).to_multiset() == items.to_multiset().insert(item),
{
    let front = items.subrange(0, pos);
    let back = items.subrange(pos, items.len() as int);
    vstd::seq_lib::lemma_multiset_commutative(front.push(item), back);
    vstd::seq_lib::lemma_multiset_commutative(front, back);
    assert(items =~= front + back);
    assert(items.insert(pos, item) =~= front.push(item) + back);
    front.to_multiset_ensures();
    assert(front.push(item).to_multiset() =~= front.to_multiset().insert(item));
    assert(items.insert(pos, item).to_multiset() =~= items.to_multiset().insert(item));
}

/// The records of one report run.
pub struct ReportGenerator {
    records: Vec<InvoiceRecord>,
}

impl View for ReportGenerator {
    type V = Seq<InvoiceRecord>;

    closed spec fn view(&self) -> Seq<InvoiceRecord> {
        self.records@
    }
}

impl ReportGenerator {
    /// A run with no records.
    pub fn new() -> (r: ReportGenerator)
        ensures
            r@ == Seq::<InvoiceRecord>::empty(),
    {
        ReportGenerator { records: Vec::new() }
    }

    /// Appends a record to the run.
    pub fn add(&mut self, record: InvoiceRecord)
        ensures
            final(self)@ == old(self)@.push(record),
    {
        self.records.push(record);
    }

    /// Extracts the record of an invoice and appends it; on failure the run is
    /// unchanged and the error says why.
    pub fn process_invoice_with_customer(
        &mut self,
        invoice: StripeInvoice,
        customer: Option<&Customer>,
        charge: Option<&Charge>,
        balance_transaction: Option<&BalanceTransaction>,
    ) -> (r: Result<(), ExtractionError>)
        requires
            amounts_fit(&invoice),
        ensures
            r is Ok ==> final(self)@.len() == old(self)@.len() + 1 && final(self)@.drop_last()
                == old(self)@ && extraction_outcome(
                Ok(final(self)@.last()),
                &invoice,
                customer,
                charge,
                balance_transaction,
            ),
            r is Err ==> final(self)@ == old(self)@ && extraction_outcome(
                Err(r->Err_0),
                &invoice,
                customer,
                charge,
                balance_transaction,
            ),
    {
        match extract_record(&invoice, customer, charge, balance_transaction) {
            Ok(record) => {
                self.add(record);
                assert(self@.drop_last() =~= old(self)@);
                Ok(())
            },
            Err(e) => Err(e),
        }
    }

    /// Extracts and appends the record of an invoice with no linked entities.
    pub fn process_invoice(&mut self, invoice: StripeInvoice) -> (r: Result<(), ExtractionError>)
        requires
            amounts_fit(&invoice),
        ensures
            r is Ok ==> final(self)@.len() == old(self)@.len() + 1 && final(self)@.drop_last()
                == old(self)@ && extraction_outcome(
                Ok(final(self)@.last()),
                &invoice,
                None,
                None,
                None,
            ),
            r is Err ==> final(self)@ == old(self)@ && extraction_outcome(
                Err(r->Err_0),
                &invoice,
                None,
                None,
                None,
            ),
    {
        self.process_invoice_with_customer(invoice, None, None, None)
    }

    /// Puts the records in the report's order (`record_cmp`): by state, date
    /// (in calendar order) and customer, with every other field breaking ties, so that the same
    /// records in any arrival order end in the same order.
    pub fn sort_records(&mut self)
        ensures
            final(self)@.to_multiset() == old(self)@.to_multiset(),
            record_views(final(self)@).to_multiset() == record_views(old(self)@).to_multiset(),
            records_sorted(final(self)@),
            forall|i: int|
                0 <= i < final(self)@.len() - 1 ==> key_le(
                    #[trigger] final(self)@[i]@,
                    final(self)@[i + 1]@,
                ),
            forall|i: int|
                0 <= i < final(self)@.len() - 1 && is_mdy_date(final(self)@[i].date@)
                    && is_mdy_date(final(self)@[i + 1].date@) ==> calendar_key_le(
                    #[trigger] final(self)@[i]@,
                    final(self)@[i + 1]@,
                ),
    {
        broadcast use vstd::seq_lib::group_to_multiset_ensures;

        let ghost original = self.records@;
        let mut sorted: Vec<InvoiceRecord> = Vec::new();
        while self.records.len() > 0
            invariant
                records_sorted(sorted@),
                self.records@.to_multiset().add(sorted@.to_multiset()) == original.to_multiset(),
                record_views(self.records@).to_multiset().add(record_views(sorted@).to_multiset())
                    == record_views(original).to_multiset(),
            decreases self.records.len(),
        {
            let ghost before = self.records@;
            let r = self.records.pop().unwrap();
            assert(before =~= self.records@.push(r));
            proof {
                self.records@.to_multiset_ensures();
                assert(before.to_multiset() =~= self.records@.to_multiset().insert(r));
                let rest = record_views(self.records@);
                assert(record_views(before) =~= rest.push(r@));
                rest.to_multiset_ensures();
                assert(record_views(before).to_multiset() =~= rest.to_multiset().insert(r@));
            }
            let mut pos: usize = 0;
            while pos < sorted.len() && compare_records(&sorted[pos], &r) <= 0
                invariant
                    pos <= sorted.len(),
                    forall|k: int| 0 <= k < pos ==> record_cmp(#[trigger] sorted@[k]@, r@) <= 0,
                decreases sorted.len() - pos,
            {
                pos = pos + 1;
            }
            let ghost prev = sorted@;
            proof {
                lemma_record_order();
            }
            assert(forall|k: int| pos <= k < prev.len() ==> record_cmp(r@, #[trigger] prev[k]@) < 0)
                by {
                if pos < prev.len() {
                    assert(record_cmp(prev[pos as int]@, r@) > 0);
                    assert(record_cmp(r@, prev[pos as int]@) < 0);
                    assert forall|k: int| pos <= k < prev.len() implies record_cmp(
                        r@,
                        #[trigger] prev[k]@,
                    ) < 0 by {
                        if k > pos {
                            assert(record_cmp(prev[pos as int]@, prev[k]@) <= 0);
                        }
                    }
                }
            }
            sorted.insert(pos, r);
            proof {
                let s = sorted@;
                assert forall|i: int, j: int| 0 <= i < j < s.len() implies record_cmp(
                    #[trigger] s[i]@,
                    #[trigger] s[j]@,
                ) <= 0 by {
                    if i < pos && j == pos {
                    } else if i < pos && j > pos {
                        assert(s[j] == prev[j - 1]);
                    } else if i == pos {
                        assert(s[j] == prev[j - 1]);
                    } else if i > pos {
                        assert(s[i] == prev[i - 1]);
                        assert(s[j] == prev[j - 1]);
                    }
                }
                assert(s =~= prev.insert(pos as int, r));
                lemma_insert_multiset(prev, pos as int, r);
                assert(record_views(s) =~= record_views(prev).insert(pos as int, r@));
                lemma_insert_multiset(record_views(prev), pos as int, r@);
                assert(self.records@.to_multiset().add(s.to_multiset()) =~= original.to_multiset());
                assert(record_views(self.records@).to_multiset().add(record_views(s).to_multiset())
                    =~= record_views(original).to_multiset());
            }
        }
        self.records = sorted;
        proof {
            lemma_sorted_keys_ascend(self.records@);
        }
    }

    /// The run's records, in their current order.
    pub fn get_records(&self) -> (r: &[InvoiceRecord])
        ensures
            r@ == self@,
    {
        self.records.as_slice()
    }

    /// The exact sums of licenses, tax, total and fees over the run's records.
    pub fn calculate_totals(&self) -> (r: (i64, i64, i64, i64))
        requires
            totals_in_range(self@),
        ensures
            (r.0 as int, r.1 as int, r.2 as int, r.3 as int) == totals_of(self@),
    {
        let (licenses, tax, total, fees) = sum_money(self.records.as_slice());
        assert(i64::MIN <= money_sum(self@, 0) <= i64::MAX);
        assert(i64::MIN <= money_sum(self@, 1) <= i64::MAX);
        assert(i64::MIN <= money_sum(self@, 2) <= i64::MAX);
        assert(i64::MIN <= money_sum(self@, 3) <= i64::MAX);
        (licenses as i64, tax as i64, total as i64, fees as i64)
    }

    /// Whether `calculate_totals` may be called: every sum fits in 64 bits.
    pub fn totals_fit(&self) -> (r: bool)
        ensures
            r == totals_in_range(self@),
    {
        let (licenses, tax, total, fees) = sum_money(self.records.as_slice());
        let r = i64::MIN as i128 <= licenses && licenses <= i64::MAX as i128 && i64::MIN as i128
            <= tax && tax <= i64::MAX as i128 && i64::MIN as i128 <= total && total
            <= i64::MAX as i128 && i64::MIN as i128 <= fees && fees <= i64::MAX as i128;
        proof {
            if r {
                assert forall|k: int| 0 <= k < 4 implies i64::MIN <= #[trigger] money_sum(
                    self@,
                    k,
                ) <= i64::MAX by {
                    if k == 0 {
                    } else if k == 1 {
                    } else if k == 2 {
                    } else {
                    }
                }
            } else {
                if !(i64::MIN <= money_sum(self@, 0) <= i64::MAX) {
                } else if !(i64::MIN <= money_sum(self@, 1) <= i64::MAX) {
                } else if !(i64::MIN <= money_sum(self@, 2) <= i64::MAX) {
                } else {
                    assert(!(i64::MIN <= money_sum(self@, 3) <= i64::MAX));
                }
            }
        }
        r
    }
}

} // verus!
