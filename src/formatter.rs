use vstd::prelude::*;
use vstd::string::StringExecFns;

use crate::generator::{lemma_money_sum_bounded, money_field, money_sum, sum_money};
use crate::models::{InvoiceRecord, RecordView};
use crate::text::{
    compare_text, decimal_text, lemma_text_order, money_text, push_decimal, push_money, same_text,
    text_cmp, text_lt,
};

verus! {

/// The line that opens the section of a state.
pub open spec fn state_header(state: Seq<char>) -> Seq<char> {
    "===== "@ + state + " =====\n"@
}

/// The column names of a section; the state is implied by the section.
pub open spec fn column_header() -> Seq<char> {
    "Date\tCustomer\tUsers\tLicenses\tTax\tTotal\tFees\n"@
}

/// One record as a tab-separated row.
#[verifier::opaque]
pub open spec fn row_text(r: RecordView) -> Seq<char> {
    r.date + "\t"@ + r.customer + "\t"@ + decimal_text(r.users as nat) + "\t"@ + money_text(
        r.licenses as int,
    ) + "\t"@ + money_text(r.tax as int) + "\t"@ + money_text(r.total as int) + "\t"@
        + money_text(r.fees as int) + "\n"@
}

/// A labelled row of four sums, under the money columns.
#[verifier::opaque]
pub open spec fn sums_row(label: Seq<char>, records: Seq<InvoiceRecord>) -> Seq<char> {
    label + "\t\t\t"@ + money_text(money_sum(records, 0)) + "\t"@ + money_text(
        money_sum(records, 1),
    ) + "\t"@ + money_text(money_sum(records, 2)) + "\t"@ + money_text(money_sum(records, 3))
        + "\n"@
}

/// The records of one state, in their order.
pub open spec fn group(records: Seq<InvoiceRecord>, state: Seq<char>) -> Seq<InvoiceRecord>
    decreases records.len(),
{
    if records.len() == 0 {
        records
    } else if records.last().state@ == state {
        group(records.drop_last(), state).push(records.last())
    } else {
        group(records.drop_last(), state)
    }
}

/// The rows of the records, one after another.
pub open spec fn rows_text(records: Seq<InvoiceRecord>) -> Seq<char>
    decreases records.len(),
{
    if records.len() == 0 {
        Seq::<char>::empty()
    } else {
        rows_text(records.drop_last()) + row_text(records.last()@)
    }
}

/// The section of one state: header, column names, rows, subtotal and a blank line.
#[verifier::opaque]
pub open spec fn section_text(records: Seq<InvoiceRecord>, state: Seq<char>) -> Seq<char> {
    let g = group(records, state);
    state_header(state) + column_header() + rows_text(g) + sums_row("Subtotal"@, g) + "\n"@
}

/// The sections of the given states, in that order.
pub open spec fn sections_text(records: Seq<InvoiceRecord>, states: Seq<Seq<char>>) -> Seq<
    char,
>
    decreases states.len(),
{
    if states.len() == 0 {
        Seq::<char>::empty()
    } else {
        sections_text(records, states.drop_last()) + section_text(records, states.last())
    }
}

/// Each text sorts strictly before every later one.
pub open spec fn strictly_ascending(states: Seq<Seq<char>>) -> bool {
    forall|i: int, j: int| 0 <= i < j < states.len() ==> text_lt(#[trigger] states[i], #[trigger] states[j])
}

/// Some record has this state.
pub open spec fn has_state(records: Seq<InvoiceRecord>, state: Seq<char>) -> bool {
    exists|i: int| 0 <= i < records.len() && #[trigger] records[i].state@ == state
}

/// `states` lists each state of the records once, in ascending order.
pub open spec fn is_state_order(states: Seq<Seq<char>>, records: Seq<InvoiceRecord>) -> bool {
    &&& strictly_ascending(states)
    &&& forall|s: Seq<char>| #[trigger] states.contains(s) <==> has_state(records, s)
}

/// The distinct states of the records in ascending order.
pub open spec fn report_states(records: Seq<InvoiceRecord>) -> Seq<Seq<char>> {
    choose|states: Seq<Seq<char>>| is_state_order(states, records)
}

/// The whole report: one section per state, in ascending order of state,
/// then a single grand-total row over all records.
pub open spec fn report_text(records: Seq<InvoiceRecord>) -> Seq<char> {
    sections_text(records, report_states(records)) + sums_row("GRAND TOTAL"@, records)
}

/// Two ascending lists of the same texts are the same list.
pub proof fn lemma_ascending_unique(a: Seq<Seq<char>>, b: Seq<Seq<char>>)
    requires
        strictly_ascending(a),
        strictly_ascending(b),
        forall|s: Seq<char>| a.contains(s) <==> b.contains(s),
    ensures
        a == b,
    decreases a.len(),
{
    lemma_text_order();
    if a.len() == 0 {
        if b.len() > 0 {
            assert(b.contains(b[0]));
        }
        assert(a =~= b);
    } else {
        assert(a.contains(a[0]));
        assert(b.contains(a[0]));
        assert(b.len() > 0);
        assert(b.contains(b[0]));
        assert(a.contains(b[0]));
        let j = choose|j: int| 0 <= j < b.len() && b[j] == a[0];
        let k = choose|k: int| 0 <= k < a.len() && a[k] == b[0];
        if a[0] != b[0] {
            assert(j > 0 && k > 0);
            assert(text_lt(b[0], b[j]));
            assert(text_lt(a[0], a[k]));
        }
        let a1 = a.drop_first();
        let b1 = b.drop_first();
        assert forall|s: Seq<char>| a1.contains(s) <==> b1.contains(s) by {
            if a1.contains(s) {
                let i = choose|i: int| 0 <= i < a1.len() && a1[i] == s;
                assert(text_lt(a[0], a[i + 1]));
                assert(a.contains(s));
                assert(b.contains(s));
                let m = choose|m: int| 0 <= m < b.len() && b[m] == s;
                assert(m != 0);
                assert(b1[m - 1] == s);
            }
            if b1.contains(s) {
                let i = choose|i: int| 0 <= i < b1.len() && b1[i] == s;
                assert(text_lt(b[0], b[i + 1]));
                assert(b.contains(s));
                assert(a.contains(s));
                let m = choose|m: int| 0 <= m < a.len() && a[m] == s;
                assert(m != 0);
                assert(a1[m - 1] == s);
            }
        }
        assert(strictly_ascending(a1)) by {
            assert forall|i: int, j: int| 0 <= i < j < a1.len() implies text_lt(
                #[trigger] a1[i],
                #[trigger] a1[j],
            ) by {
                assert(text_lt(a[i + 1], a[j + 1]));
            }
        }
        assert(strictly_ascending(b1)) by {
            assert forall|i: int, j: int| 0 <= i < j < b1.len() implies text_lt(
                #[trigger] b1[i],
                #[trigger] b1[j],
            ) by {
                assert(text_lt(b[i + 1], b[j + 1]));
            }
        }
        lemma_ascending_unique(a1, b1);
        assert(a[0] == b[0]);
        assert forall|i: int| 0 <= i < a.len() implies a[i] == b[i] by {
            if i > 0 {
                assert(a[i] == a1[i - 1]);
                assert(b[i] == b1[i - 1]);
            }
        }
        assert(a =~= b);
    }
}

/// The group of a state is no longer than the records.
pub proof fn lemma_group_len(records: Seq<InvoiceRecord>, state: Seq<char>)
    ensures
        group(records, state).len() <= records.len(),
    decreases records.len(),
{
    if records.len() > 0 {
        lemma_group_len(records.drop_last(), state);
    }
}

/// `states` with `state` put in its place, unless it is already there.
pub open spec fn insert_ascending(states: Seq<Seq<char>>, state: Seq<char>) -> Seq<Seq<char>>
    decreases states.len(),
{
    if states.len() == 0 {
        seq![state]
    } else if text_lt(state, states[0]) {
        seq![state] + states
    } else if state == states[0] {
        states
    } else {
        seq![states[0]] + insert_ascending(states.drop_first(), state)
    }
}

/// Inserting keeps the list ascending and adds exactly the new text.
proof fn lemma_insert_ascending(states: Seq<Seq<char>>, state: Seq<char>)
    requires
        strictly_ascending(states),
    ensures
        strictly_ascending(insert_ascending(states, state)),
        forall|s: Seq<char>| #[trigger]
            insert_ascending(states, state).contains(s) <==> states.contains(s) || s == state,
        insert_ascending(states, state).len() > 0,
        states.len() > 0 ==> insert_ascending(states, state)[0] == states[0] || insert_ascending(
            states,
            state,
        )[0] == state,
    decreases states.len(),
{
    lemma_text_order();
    let r = insert_ascending(states, state);
    if states.len() == 0 {
        assert forall|s: Seq<char>| #[trigger] r.contains(s) <==> states.contains(s) || s == state by {
            if r.contains(s) {
                assert(r[0] == s);
            }
            if s == state {
                assert(r[0] == s);
            }
        }
    } else if text_lt(state, states[0]) {
        assert forall|i: int, j: int| 0 <= i < j < r.len() implies text_lt(
            #[trigger] r[i],
            #[trigger] r[j],
        ) by {
            if i == 0 {
                assert(r[j] == states[j - 1]);
                if j > 1 {
                    assert(text_lt(states[0], states[j - 1]));
                }
            } else {
                assert(r[i] == states[i - 1]);
                assert(r[j] == states[j - 1]);
            }
        }
        assert forall|s: Seq<char>| #[trigger] r.contains(s) <==> states.contains(s) || s == state by {
            if r.contains(s) {
                let k = choose|k: int| 0 <= k < r.len() && r[k] == s;
                if k > 0 {
                    assert(states[k - 1] == s);
                }
            }
            if states.contains(s) {
                let k = choose|k: int| 0 <= k < states.len() && states[k] == s;
                assert(r[k + 1] == s);
            }
            if s == state {
                assert(r[0] == s);
            }
        }
    } else if state == states[0] {
    } else {
        let rest = states.drop_first();
        assert(strictly_ascending(rest)) by {
            assert forall|i: int, j: int| 0 <= i < j < rest.len() implies text_lt(
                #[trigger] rest[i],
                #[trigger] rest[j],
            ) by {
                assert(text_lt(states[i + 1], states[j + 1]));
            }
        }
        lemma_insert_ascending(rest, state);
        let tail = insert_ascending(rest, state);
        assert(text_lt(states[0], state));
        assert forall|x: int| 0 <= x < tail.len() implies text_lt(states[0], #[trigger] tail[x]) by {
            assert(tail.contains(tail[x]));
            if tail[x] != state {
                assert(rest.contains(tail[x]));
                let k = choose|k: int| 0 <= k < rest.len() && rest[k] == tail[x];
                assert(text_lt(states[0], states[k + 1]));
            }
        }
        assert forall|i: int, j: int| 0 <= i < j < r.len() implies text_lt(
            #[trigger] r[i],
            #[trigger] r[j],
        ) by {
            if i == 0 {
                assert(r[j] == tail[j - 1]);
            } else {
                assert(r[i] == tail[i - 1]);
                assert(r[j] == tail[j - 1]);
            }
        }
        assert forall|s: Seq<char>| #[trigger] r.contains(s) <==> states.contains(s) || s == state by {
            if r.contains(s) {
                let k = choose|k: int| 0 <= k < r.len() && r[k] == s;
                if k > 0 {
                    assert(tail[k - 1] == s);
                    assert(tail.contains(s));
                    if s != state {
                        let m = choose|m: int| 0 <= m < rest.len() && rest[m] == s;
                        assert(states[m + 1] == s);
                    }
                }
            }
            if states.contains(s) {
                let k = choose|k: int| 0 <= k < states.len() && states[k] == s;
                if k == 0 {
                    assert(r[0] == s);
                } else {
                    assert(rest[k - 1] == s);
                    assert(tail.contains(s));
                    let m = choose|m: int| 0 <= m < tail.len() && tail[m] == s;
                    assert(r[m + 1] == s);
                }
            }
            if s == state {
                assert(tail.contains(s));
                let m = choose|m: int| 0 <= m < tail.len() && tail[m] == s;
                assert(r[m + 1] == s);
            }
        }
    }
}

/// Some ascending list of the distinct states of the records exists.
pub proof fn lemma_state_order_exists(records: Seq<InvoiceRecord>)
    ensures
        exists|states: Seq<Seq<char>>| is_state_order(states, records),
        is_state_order(report_states(records), records),
    decreases records.len(),
{
    if records.len() == 0 {
        let e = Seq::<Seq<char>>::empty();
        assert(is_state_order(e, records));
    } else {
        let front = records.drop_last();
        lemma_state_order_exists(front);
        let st = report_states(front);
        let state = records.last().state@;
        lemma_insert_ascending(st, state);
        let r = insert_ascending(st, state);
        assert forall|s: Seq<char>| #[trigger] r.contains(s) <==> has_state(records, s) by {
            if has_state(records, s) {
                let k = choose|k: int| 0 <= k < records.len() && #[trigger] records[k].state@ == s;
                if k < front.len() {
                    assert(front[k].state@ == s);
                }
            }
            if has_state(front, s) {
                let k = choose|k: int| 0 <= k < front.len() && #[trigger] front[k].state@ == s;
                assert(records[k].state@ == s);
            }
            if s == state {
                assert(records[records.len() - 1].state@ == s);
            }
        }
        assert(is_state_order(r, records));
    }
}

/// Grouping: the report's sections come in strictly ascending order of state,
/// one for each state that some record has and none other, and every row of a
/// section has that section's state.
pub proof fn lemma_report_grouping(records: Seq<InvoiceRecord>)
    ensures
        strictly_ascending(report_states(records)),
        forall|s: Seq<char>| #[trigger]
            report_states(records).contains(s) <==> has_state(records, s),
        forall|s: Seq<char>, i: int|
            0 <= i < group(records, s).len() ==> (#[trigger] group(records, s)[i]).state@ == s,
{
    lemma_state_order_exists(records);
    assert forall|s: Seq<char>, i: int| 0 <= i < group(records, s).len() implies (
    #[trigger] group(records, s)[i]).state@ == s by {
        lemma_group_states(records, s);
    }
}

/// Every record in a state's group has that state.
proof fn lemma_group_states(records: Seq<InvoiceRecord>, state: Seq<char>)
    ensures
        forall|i: int|
            0 <= i < group(records, state).len() ==> (#[trigger] group(records, state)[i]).state@
                == state,
    decreases records.len(),
{
    if records.len() > 0 {
        let front = records.drop_last();
        lemma_group_states(front, state);
        let g = group(records, state);
        let gf = group(front, state);
        assert forall|i: int| 0 <= i < g.len() implies (#[trigger] g[i]).state@ == state by {
            if i < gf.len() {
                assert(g[i] == gf[i]);
            }
        }
    }
}

/// Sum of money field `k` over the records whose state is `state`.
pub open spec fn state_sum(records: Seq<InvoiceRecord>, state: Seq<char>, k: int) -> int
    decreases records.len(),
{
    if records.len() == 0 {
        0
    } else {
        state_sum(records.drop_last(), state, k) + if records.last().state@ == state {
            money_field(records.last()@, k)
        } else {
            0
        }
    }
}

/// Subtotal: the subtotal row of a state's section sums money field `k`
/// exactly over the records of that state, and over no others.
pub proof fn lemma_subtotal_is_state_sum(records: Seq<InvoiceRecord>, state: Seq<char>, k: int)
    ensures
        money_sum(group(records, state), k) == state_sum(records, state, k),
    decreases records.len(),
{
    if records.len() > 0 {
        let front = records.drop_last();
        lemma_subtotal_is_state_sum(front, state, k);
        let g = group(front, state);
        assert(g.push(records.last()).drop_last() =~= g);
    }
}

/// Sum of money field `k` over the groups of the given states.
pub open spec fn group_sums(records: Seq<InvoiceRecord>, states: Seq<Seq<char>>, k: int) -> int
    decreases states.len(),
{
    if states.len() == 0 {
        0
    } else {
        group_sums(records, states.drop_last(), k) + money_sum(group(records, states.last()), k)
    }
}

/// Appending a record adds its field to the sum of exactly the group of its state.
proof fn lemma_group_sums_step(
    records: Seq<InvoiceRecord>,
    r: InvoiceRecord,
    states: Seq<Seq<char>>,
    k: int,
)
    requires
        states.no_duplicates(),
    ensures
        group_sums(records.push(r), states, k) == group_sums(records, states, k) + if states.contains(
            r.state@,
        ) {
            money_field(r@, k)
        } else {
            0
        },
    decreases states.len(),
{
    let next = records.push(r);
    assert(next.drop_last() =~= records);
    if states.len() > 0 {
        let front = states.drop_last();
        let s = states.last();
        assert(front.no_duplicates());
        lemma_group_sums_step(records, r, front, k);
        let g = group(records, s);
        if r.state@ == s {
            assert(g.push(r).drop_last() =~= g);
            assert(!front.contains(s));
            assert(states.contains(r.state@)) by {
                assert(states[states.len() - 1] == s);
            }
        } else {
            assert(states.contains(r.state@) <==> front.contains(r.state@)) by {
                if states.contains(r.state@) {
                    let m = choose|m: int| 0 <= m < states.len() && states[m] == r.state@;
                    assert(front[m] == r.state@);
                }
                if front.contains(r.state@) {
                    let m = choose|m: int| 0 <= m < front.len() && front[m] == r.state@;
                    assert(states[m] == r.state@);
                }
            }
        }
    }
}

/// Grand total: the sums of the groups of the report's states add up to the
/// sum over all records, for each money field.
pub proof fn lemma_grand_total_is_sum_of_subtotals(records: Seq<InvoiceRecord>, k: int)
    ensures
        group_sums(records, report_states(records), k) == money_sum(records, k),
{
    lemma_state_order_exists(records);
    let st = report_states(records);
    lemma_text_order();
    assert(st.no_duplicates()) by {
        assert forall|i: int, j: int| 0 <= i < st.len() && 0 <= j < st.len() && i != j implies st[i]
            != st[j] by {
            if i < j {
                assert(text_lt(st[i], st[j]));
            } else {
                assert(text_lt(st[j], st[i]));
            }
        }
    }
    lemma_partition_sum(records, st, k);
}

/// Groups of distinct states that cover every record partition the sum.
proof fn lemma_partition_sum(records: Seq<InvoiceRecord>, states: Seq<Seq<char>>, k: int)
    requires
        states.no_duplicates(),
        forall|s: Seq<char>| has_state(records, s) ==> states.contains(s),
    ensures
        group_sums(records, states, k) == money_sum(records, k),
    decreases records.len(),
{
    if records.len() == 0 {
        lemma_group_sums_empty(records, states, k);
    } else {
        let front = records.drop_last();
        let r = records.last();
        assert(front.push(r) =~= records);
        assert forall|s: Seq<char>| has_state(front, s) implies states.contains(s) by {
            let m = choose|m: int| 0 <= m < front.len() && #[trigger] front[m].state@ == s;
            assert(records[m].state@ == s);
        }
        lemma_partition_sum(front, states, k);
        lemma_group_sums_step(front, r, states, k);
        assert(has_state(records, r.state@)) by {
            assert(records[records.len() - 1].state@ == r.state@);
        }
    }
}

/// With no records every group sum is zero.
proof fn lemma_group_sums_empty(records: Seq<InvoiceRecord>, states: Seq<Seq<char>>, k: int)
    requires
        records.len() == 0,
    ensures
        group_sums(records, states, k) == 0,
    decreases states.len(),
{
    if states.len() > 0 {
        lemma_group_sums_empty(records, states.drop_last(), k);
    }
}

/// Two sequences of records with the same values, position by position.
pub open spec fn same_values(a: Seq<InvoiceRecord>, b: Seq<InvoiceRecord>) -> bool {
    a.len() == b.len() && forall|i: int| 0 <= i < a.len() ==> #[trigger] a[i]@ == b[i]@
}

/// Rows, sums and groups depend only on the records' values.
proof fn lemma_same_values_parts(a: Seq<InvoiceRecord>, b: Seq<InvoiceRecord>, state: Seq<char>)
    requires
        same_values(a, b),
    ensures
        rows_text(a) == rows_text(b),
        forall|k: int| #[trigger] money_sum(a, k) == money_sum(b, k),
        same_values(group(a, state), group(b, state)),
    decreases a.len(),
{
    if a.len() > 0 {
        let a1 = a.drop_last();
        let b1 = b.drop_last();
        assert(same_values(a1, b1)) by {
            assert forall|i: int| 0 <= i < a1.len() implies #[trigger] a1[i]@ == b1[i]@ by {
                assert(a[i]@ == b[i]@);
            }
        }
        lemma_same_values_parts(a1, b1, state);
        assert(a.last()@ == b[b.len() - 1]@);
        assert forall|k: int| #[trigger] money_sum(a, k) == money_sum(b, k) by {
            assert(money_sum(a1, k) == money_sum(b1, k));
        }
        let ga = group(a1, state);
        let gb = group(b1, state);
        if a.last().state@ == state {
            assert(same_values(ga.push(a.last()), gb.push(b.last()))) by {
                assert forall|i: int| 0 <= i < ga.len() + 1 implies #[trigger] ga.push(
                    a.last(),
                )[i]@ == gb.push(b.last())[i]@ by {
                    if i < ga.len() {
                        assert(ga[i]@ == gb[i]@);
                    }
                }
            }
        }
    }
}

/// Determinism: the report is a function of the records' values alone, so
/// formatting the same records twice gives the same text.
pub proof fn lemma_report_depends_only_on_values(a: Seq<InvoiceRecord>, b: Seq<InvoiceRecord>)
    requires
        same_values(a, b),
    ensures
        report_text(a) == report_text(b),
{
    lemma_state_order_exists(a);
    lemma_state_order_exists(b);
    let st = report_states(a);
    assert forall|s: Seq<char>| has_state(a, s) <==> has_state(b, s) by {
        if has_state(a, s) {
            let k = choose|k: int| 0 <= k < a.len() && #[trigger] a[k].state@ == s;
            assert(a[k]@ == b[k]@);
            assert(b[k].state@ == s);
        }
        if has_state(b, s) {
            let k = choose|k: int| 0 <= k < b.len() && #[trigger] b[k].state@ == s;
            assert(a[k]@ == b[k]@);
            assert(a[k].state@ == s);
        }
    }
    lemma_ascending_unique(st, report_states(b));
    lemma_sections_same(a, b, st);
    lemma_same_values_parts(a, b, Seq::<char>::empty());
    reveal(sums_row);
}

/// Sections depend only on the records' values.
proof fn lemma_sections_same(a: Seq<InvoiceRecord>, b: Seq<InvoiceRecord>, states: Seq<Seq<char>>)
    requires
        same_values(a, b),
    ensures
        sections_text(a, states) == sections_text(b, states),
    decreases states.len(),
{
    if states.len() > 0 {
        lemma_sections_same(a, b, states.drop_last());
        let s = states.last();
        lemma_same_values_parts(a, b, s);
        lemma_same_values_parts(group(a, s), group(b, s), s);
        reveal(section_text);
        reveal(sums_row);
    }
}

/// Appends the row of one record.
fn push_row(out: &mut String, r: &InvoiceRecord)
    ensures
        final(out)@ == old(out)@ + row_text(r@),
{
    out.append(r.date.as_str());
    out.append("\t");
    out.append(r.customer.as_str());
    out.append("\t");
    push_decimal(out, r.users as u128);
    out.append("\t");
    push_money(out, r.licenses as i128);
    out.append("\t");
    push_money(out, r.tax as i128);
    out.append("\t");
    push_money(out, r.total as i128);
    out.append("\t");
    push_money(out, r.fees as i128);
    out.append("\n");
    assert(out@ =~= old(out)@ + row_text(r@)) by {
        reveal(row_text);
    }
}

/// Appends a labelled row of four sums.
fn push_sums_row(
    out: &mut String,
    label: &str,
    sums: (i128, i128, i128, i128),
    records: Ghost<Seq<InvoiceRecord>>,
)
    requires
        sums.0 as int == money_sum(records@, 0),
        sums.1 as int == money_sum(records@, 1),
        sums.2 as int == money_sum(records@, 2),
        sums.3 as int == money_sum(records@, 3),
        sums.0 > i128::MIN,
        sums.1 > i128::MIN,
        sums.2 > i128::MIN,
        sums.3 > i128::MIN,
    ensures
        final(out)@ == old(out)@ + sums_row(label@, records@),
{
    out.append(label);
    out.append("\t\t\t");
    push_money(out, sums.0);
    out.append("\t");
    push_money(out, sums.1);
    out.append("\t");
    push_money(out, sums.2);
    out.append("\t");
    push_money(out, sums.3);
    out.append("\n");
    assert(out@ =~= old(out)@ + sums_row(label@, records@)) by {
        reveal(sums_row);
    }
}

/// The distinct states of the records, in ascending order.
fn collect_states(records: &[InvoiceRecord]) -> (r: Vec<String>)
    ensures
        is_state_order(r@.map_values(|s: String| s@), records@),
{
    let mut states: Vec<String> = Vec::new();
    let mut i: usize = 0;
    while i < records.len()
        invariant
            i <= records.len(),
            is_state_order(states@.map_values(|s: String| s@), records@.take(i as int)),
        decreases records.len() - i,
    {
        proof {
            lemma_text_order();
        }
        let ghost prev = states@.map_values(|s: String| s@);
        let ghost seen = records@.take(i as int);
        let ghost next = records@.take(i + 1);
        let state = &records[i].state;
        assert(next =~= seen.push(records[i as int]));
        assert forall|s: Seq<char>| has_state(next, s) <==> has_state(seen, s) || s == state@ by {
            if has_state(next, s) {
                let k = choose|k: int| 0 <= k < next.len() && #[trigger] next[k].state@ == s;
                if k < i {
                    assert(seen[k].state@ == s);
                }
            }
            if has_state(seen, s) {
                let k = choose|k: int| 0 <= k < seen.len() && #[trigger] seen[k].state@ == s;
                assert(next[k].state@ == s);
            }
            if s == state@ {
                assert(next[i as int].state@ == s);
            }
        }
        let mut pos: usize = 0;
        let mut stop = false;
        while pos < states.len() && !stop
            invariant
                pos <= states.len(),
                prev == states@.map_values(|s: String| s@),
                forall|k: int| 0 <= k < pos ==> text_lt(#[trigger] prev[k], state@),
                stop ==> pos < states.len() && !text_lt(prev[pos as int], state@),
            decreases states.len() - pos + if stop {
                0int
            } else {
                1int
            },
        {
            let c = compare_text(states[pos].as_str(), state.as_str());
            if c < 0 {
                pos = pos + 1;
            } else {
                stop = true;
            }
        }
        if pos < states.len() && same_text(states[pos].as_str(), state.as_str()) {
            assert(prev.contains(state@)) by {
                assert(prev[pos as int] == state@);
            }
        } else {
            proof {
                if pos < prev.len() {
                    assert(text_cmp(prev[pos as int], state@) != 0);
                    assert(text_lt(state@, prev[pos as int]));
                }
            }
            states.insert(pos, state.clone());
            proof {
                let ns = states@.map_values(|s: String| s@);
                assert(ns =~= prev.insert(pos as int, state@));
                assert forall|a: int, b: int| 0 <= a < b < ns.len() implies text_lt(
                    #[trigger] ns[a],
                    #[trigger] ns[b],
                ) by {
                    if b < pos {
                        assert(ns[a] == prev[a]);
                        assert(ns[b] == prev[b]);
                    } else if a < pos && b == pos {
                    } else if a < pos && b > pos {
                        assert(ns[b] == prev[b - 1]);
                    } else if a == pos {
                        assert(ns[b] == prev[b - 1]);
                        if b > pos + 1 {
                            assert(text_lt(prev[pos as int], prev[b - 1]));
                        }
                    } else {
                        assert(ns[a] == prev[a - 1]);
                        assert(ns[b] == prev[b - 1]);
                    }
                }
                assert forall|s: Seq<char>| #[trigger] ns.contains(s) <==> prev.contains(s) || s
                    == state@ by {
                    if ns.contains(s) {
                        let k = choose|k: int| 0 <= k < ns.len() && ns[k] == s;
                        if k < pos {
                            assert(prev[k] == s);
                        } else if k > pos {
                            assert(prev[k - 1] == s);
                        }
                    }
                    if prev.contains(s) {
                        let k = choose|k: int| 0 <= k < prev.len() && prev[k] == s;
                        if k < pos {
                            assert(ns[k] == s);
                        } else {
                            assert(ns[k + 1] == s);
                        }
                    }
                    if s == state@ {
                        assert(ns[pos as int] == s);
                    }
                }
            }
        }
        i = i + 1;
    }
    assert(records@.take(records.len() as int) =~= records@);
    states
}

/// Appends the section of one state.
fn push_section(out: &mut String, records: &[InvoiceRecord], state: &String)
    ensures
        final(out)@ == old(out)@ + section_text(records@, state@),
{
    let ghost g = group(records@, state@);
    out.append("===== ");
    out.append(state.as_str());
    out.append(" =====\n");
    out.append("Date\tCustomer\tUsers\tLicenses\tTax\tTotal\tFees\n");
    let ghost base = out@;
    assert(base =~= old(out)@ + state_header(state@) + column_header());
    let mut licenses: i128 = 0;
    let mut tax: i128 = 0;
    let mut total: i128 = 0;
    let mut fees: i128 = 0;
    let mut i: usize = 0;
    assert(records@.take(0) =~= Seq::<InvoiceRecord>::empty());
    while i < records.len()
        invariant
            i <= records.len(),
            out@ == base + rows_text(group(records@.take(i as int), state@)),
            licenses as int == money_sum(group(records@.take(i as int), state@), 0),
            tax as int == money_sum(group(records@.take(i as int), state@), 1),
            total as int == money_sum(group(records@.take(i as int), state@), 2),
            fees as int == money_sum(group(records@.take(i as int), state@), 3),
        decreases records.len() - i,
    {
        let ghost next = records@.take(i + 1);
        proof {
            assert(next.drop_last() =~= records@.take(i as int));
            assert(next.last() == records@[i as int]);
            let gn = group(next, state@);
            lemma_group_len(next, state@);
            lemma_money_sum_bounded(gn, 0);
            lemma_money_sum_bounded(gn, 1);
            lemma_money_sum_bounded(gn, 2);
            lemma_money_sum_bounded(gn, 3);
            assert((gn.len() as int) * 0x8000_0000_0000_0000 < 0x1_0000_0000_0000_0000
                * 0x8000_0000_0000_0000) by (nonlinear_arith)
                requires
                    gn.len() < 0x1_0000_0000_0000_0000,
            ;
        }
        let r = &records[i];
        if same_text(r.state.as_str(), state.as_str()) {
            assert(group(next, state@) == group(records@.take(i as int), state@).push(*r));
            proof {
                let gi = group(records@.take(i as int), state@);
                assert(gi.push(*r).drop_last() =~= gi);
                assert(money_sum(group(next, state@), 0) == licenses + r.licenses);
                assert(money_sum(group(next, state@), 1) == tax + r.tax);
                assert(money_sum(group(next, state@), 2) == total + r.total);
                assert(money_sum(group(next, state@), 3) == fees + r.fees);
            }
            push_row(out, r);
            licenses = licenses + r.licenses as i128;
            tax = tax + r.tax as i128;
            total = total + r.total as i128;
            fees = fees + r.fees as i128;
            assert(out@ =~= base + rows_text(group(next, state@)));
        }
        i = i + 1;
    }
    assert(records@.take(records.len() as int) =~= records@);
    proof {
        lemma_group_len(records@, state@);
        lemma_money_sum_bounded(g, 0);
        lemma_money_sum_bounded(g, 1);
        lemma_money_sum_bounded(g, 2);
        lemma_money_sum_bounded(g, 3);
        assert((g.len() as int) * 0x8000_0000_0000_0000 < 0x1_0000_0000_0000_0000
            * 0x8000_0000_0000_0000) by (nonlinear_arith)
            requires
                g.len() < 0x1_0000_0000_0000_0000,
        ;
    }
    push_sums_row(out, "Subtotal", (licenses, tax, total, fees), Ghost(g));
    out.append("\n");
    assert(out@ =~= old(out)@ + section_text(records@, state@)) by {
        reveal(section_text);
    }
}

/// Renders records as the grouped tab-separated report: for each state in
/// ascending order, a header, the column names, the state's rows in their
/// given order, a subtotal row and a blank line; then one grand-total row.
/// Amounts are shown in major units with two decimals, computed from exact
/// integer sums.
pub fn format_as_tsv(records: &[InvoiceRecord]) -> (r: String)
    ensures
        r@ == report_text(records@),
{
    let states = collect_states(records);
    let ghost st = states@.map_values(|s: String| s@);
    proof {
        let chosen = report_states(records@);
        assert(is_state_order(chosen, records@));
        lemma_ascending_unique(st, chosen);
    }
    let mut out = String::new();
    let mut k: usize = 0;
    assert(st.take(0) =~= Seq::<Seq<char>>::empty());
    while k < states.len()
        invariant
            k <= states.len(),
            st == states@.map_values(|s: String| s@),
            out@ == sections_text(records@, st.take(k as int)),
        decreases states.len() - k,
    {
        push_section(&mut out, records, &states[k]);
        proof {
            assert(st.take(k + 1).drop_last() =~= st.take(k as int));
            assert(st.take(k + 1).last() == st[k as int]);
        }
        k = k + 1;
    }
    assert(st.take(states.len() as int) =~= st);
    let sums = sum_money(records);
    let n = records.len();
    proof {
        lemma_money_sum_bounded(records@, 0);
        lemma_money_sum_bounded(records@, 1);
        lemma_money_sum_bounded(records@, 2);
        lemma_money_sum_bounded(records@, 3);
        assert((n as int) * 0x8000_0000_0000_0000 < 0x1_0000_0000_0000_0000 * 0x8000_0000_0000_0000)
            by (nonlinear_arith)
            requires
                n < 0x1_0000_0000_0000_0000,
        ;
    }
    push_sums_row(&mut out, "GRAND TOTAL", sums, Ghost(records@));
    out
}

} // verus!
