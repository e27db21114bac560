use vstd::prelude::*;

use vstd::relations::{sorted_by, total_ordering};

use crate::models::{record_views, InvoiceRecord, RecordView};
use crate::text::{
    compare_text, date_key, date_sort_key, fields_lt, is_mdy_date, lemma_date_key_injective,
    lemma_date_key_is_calendar_order, lemma_text_order, mdy_fields, text_cmp,
};

verus! {

/// Three-way comparison of two integers.
pub open spec fn int_cmp(a: int, b: int) -> int {
    if a < b {
        -1
    } else if a > b {
        1
    } else {
        0
    }
}

/// Three-way comparison of two dates in calendar order (by `date_key`).
pub open spec fn date_cmp(a: Seq<char>, b: Seq<char>) -> int {
    text_cmp(date_key(a), date_key(b))
}

/// The report's order on records: by state, date (in calendar order) and
/// customer name, then by users, licenses, tax, total and fees, so that only
/// equal records tie.
pub open spec fn record_cmp(a: RecordView, b: RecordView) -> int {
    let s = text_cmp(a.state, b.state);
    let d = date_cmp(a.date, b.date);
    let c = text_cmp(a.customer, b.customer);
    if s != 0 {
        s
    } else if d != 0 {
        d
    } else if c != 0 {
        c
    } else if a.users != b.users {
        int_cmp(a.users as int, b.users as int)
    } else if a.licenses != b.licenses {
        int_cmp(a.licenses as int, b.licenses as int)
    } else if a.tax != b.tax {
        int_cmp(a.tax as int, b.tax as int)
    } else if a.total != b.total {
        int_cmp(a.total as int, b.total as int)
    } else {
        int_cmp(a.fees as int, b.fees as int)
    }
}

/// The part of the order that the report promises: `(state, date, customer)`
/// does not decrease from `a` to `b`, with dates in calendar order.
pub open spec fn key_le(a: RecordView, b: RecordView) -> bool {
    let s = text_cmp(a.state, b.state);
    let d = date_cmp(a.date, b.date);
    let c = text_cmp(a.customer, b.customer);
    s < 0 || (s == 0 && (d < 0 || (d == 0 && c <= 0)))
}

/// Every record is at most every later one.
pub open spec fn records_sorted(records: Seq<InvoiceRecord>) -> bool {
    forall|i: int, j: int|
        0 <= i < j < records.len() ==> record_cmp(#[trigger] records[i]@, #[trigger] records[j]@)
            <= 0
}

/// Facts on the record order that callers use together.
pub proof fn lemma_record_order()
    ensures
        forall|a: RecordView, b: RecordView| #[trigger]
            record_cmp(a, b) == -record_cmp(b, a),
        forall|a: RecordView, b: RecordView| #[trigger] record_cmp(a, b) == 0 <==> a == b,
        forall|a: RecordView, b: RecordView, c: RecordView|
            #[trigger] record_cmp(a, b) <= 0 && #[trigger] record_cmp(b, c) <= 0 ==> record_cmp(
                a,
                c,
            ) <= 0,
        forall|a: RecordView, b: RecordView, c: RecordView|
            #[trigger] record_cmp(a, b) < 0 && #[trigger] record_cmp(b, c) <= 0 ==> record_cmp(
                a,
                c,
            ) < 0,
        forall|a: RecordView, b: RecordView| #[trigger] record_cmp(a, b) <= 0 ==> key_le(a, b),
{
    lemma_text_order();
    assert forall|a: Seq<char>, b: Seq<char>| #[trigger] date_cmp(a, b) == 0 <==> a == b by {
        lemma_date_key_injective(a, b);
    }
}

/// `(state, date, customer)` does not decrease from `a` to `b`, where both
/// dates are `MM/DD/YYYY` texts compared as (year, month, day).
pub open spec fn calendar_key_le(a: RecordView, b: RecordView) -> bool {
    let s = text_cmp(a.state, b.state);
    let fa = mdy_fields(a.date);
    let fb = mdy_fields(b.date);
    s < 0 || (s == 0 && (fields_lt(fa, fb) || (fa == fb && text_cmp(a.customer, b.customer)
        <= 0)))
}

/// Sort order: in records sorted by `record_cmp`, each adjacent pair has a
/// non-decreasing `(state, date, customer)`; where the dates are
/// `MM/DD/YYYY` texts, they ascend in calendar order.
pub proof fn lemma_sorted_keys_ascend(records: Seq<InvoiceRecord>)
    requires
        records_sorted(records),
    ensures
        forall|i: int|
            0 <= i < records.len() - 1 ==> key_le(#[trigger] records[i]@, records[i + 1]@),
        forall|i: int|
            0 <= i < records.len() - 1 && is_mdy_date(records[i].date@) && is_mdy_date(
                records[i + 1].date@,
            ) ==> calendar_key_le(#[trigger] records[i]@, records[i + 1]@),
{
    lemma_record_order();
    assert forall|i: int|
        0 <= i < records.len() - 1 && is_mdy_date(records[i].date@) && is_mdy_date(
            records[i + 1].date@,
        ) implies calendar_key_le(#[trigger] records[i]@, records[i + 1]@) by {
        assert(record_cmp(records[i]@, records[i + 1]@) <= 0);
        lemma_date_key_is_calendar_order(records[i].date@, records[i + 1].date@);
    }
    assert forall|i: int| 0 <= i < records.len() - 1 implies key_le(
        #[trigger] records[i]@,
        records[i + 1]@,
    ) by {
        assert(record_cmp(records[i]@, records[i + 1]@) <= 0);
    }
}

/// Arrival order does not matter: two sorted sequences holding the same
/// record values, counted with multiplicity, hold them in the same order.
pub proof fn lemma_sorted_order_unique(x: Seq<InvoiceRecord>, y: Seq<InvoiceRecord>)
    requires
        records_sorted(x),
        records_sorted(y),
        record_views(x).to_multiset() == record_views(y).to_multiset(),
    ensures
        record_views(x) == record_views(y),
{
    lemma_record_order();
    let leq = |p: RecordView, q: RecordView| record_cmp(p, q) <= 0;
    assert(total_ordering(leq)) by {
        assert forall|p: RecordView| #[trigger] leq(p, p) by {
            assert(record_cmp(p, p) == 0);
        }
        assert forall|p: RecordView, q: RecordView| #[trigger] leq(p, q) && #[trigger] leq(q, p)
            implies p == q by {
            assert(record_cmp(p, q) == -record_cmp(q, p));
        }
        assert forall|p: RecordView, q: RecordView, r: RecordView| #[trigger] leq(p, q)
            && #[trigger] leq(q, r) implies leq(p, r) by {
            assert(record_cmp(p, r) <= 0);
        }
        assert forall|p: RecordView, q: RecordView| #[trigger] leq(p, q) || #[trigger] leq(q, p) by {
            assert(record_cmp(p, q) == -record_cmp(q, p));
        }
    }
    let vx = record_views(x);
    let vy = record_views(y);
    assert(sorted_by(vx, leq)) by {
        assert forall|i: int, j: int| 0 <= i < j < vx.len() implies #[trigger] leq(vx[i], vx[j]) by {
            assert(record_cmp(x[i]@, x[j]@) <= 0);
        }
    }
    assert(sorted_by(vy, leq)) by {
        assert forall|i: int, j: int| 0 <= i < j < vy.len() implies #[trigger] leq(vy[i], vy[j]) by {
            assert(record_cmp(y[i]@, y[j]@) <= 0);
        }
    }
    vstd::seq_lib::lemma_sorted_unique(vx, vy, leq);
}

/// Compares two records in the report's order, as `record_cmp` does.
pub fn compare_records(a: &InvoiceRecord, b: &InvoiceRecord) -> (r: i8)
    ensures
        r as int == record_cmp(a@, b@),
{
    proof {
        lemma_text_order();
    }
    let s = compare_text(a.state.as_str(), b.state.as_str());
    if s != 0 {
        return s;
    }
    let ka = date_sort_key(a.date.as_str());
    let kb = date_sort_key(b.date.as_str());
    let d = compare_text(ka.as_str(), kb.as_str());
    if d != 0 {
        return d;
    }
    let c = compare_text(a.customer.as_str(), b.customer.as_str());
    if c != 0 {
        return c;
    }
    if a.users != b.users {
        return if a.users < b.users {
            -1
        } else {
            1
        };
    }
    if a.licenses != b.licenses {
        return if a.licenses < b.licenses {
            -1
        } else {
            1
        };
    }
    if a.tax != b.tax {
        return if a.tax < b.tax {
            -1
        } else {
            1
        };
    }
    if a.total != b.total {
        return if a.total < b.total {
            -1
        } else {
            1
        };
    }
    if a.fees < b.fees {
        -1
    } else if a.fees > b.fees {
        1
    } else {
        0
    }
}

} // verus!
