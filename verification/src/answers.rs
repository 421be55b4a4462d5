//! What the answers to queries hold to, in terms of the documents and the filters.

use crate::json::JsonV;
use crate::model::Model;
use crate::order::OrderKey;
use crate::queries::{RecordV, lifecycle_counts};
use crate::scan::{ScanV, field_at, last_filter, law_scan_misses_no_row, lemma_field_at, lemma_row_covers, matching_row, rest_met, row_before, row_meets, scan_rows, scanned, settled_lead, typed_named};
use crate::typed::{FilterOp, FilterV, compared, entity_meets, entity_meets_all, field_value, float_key, law_values_are_ordered, op_holds, type_of, value_eq, value_lt};
use crate::types::{ErrorV, IndexType, ItemState, TypedV};
use vstd::prelude::*;

verus! {

/// One value comes before another of its type: the smaller number, false before true, the earlier
/// moment, the text that sorts first.
pub open spec fn before(a: TypedV, b: TypedV) -> bool {
    match (a, b) {
        (TypedV::Integer(x), TypedV::Integer(y)) => x < y,
        (TypedV::Bool(x), TypedV::Bool(y)) => !x && y,
        (TypedV::DateTime(x), TypedV::DateTime(y)) => x.seconds < y.seconds || (x.seconds
            == y.seconds && x.nanoseconds < y.nanoseconds),
        (TypedV::Float(x), TypedV::Float(y)) => float_key(x) < float_key(y),
        (TypedV::String(x), TypedV::String(y)) => String::kless(x, y),
        _ => false,
    }
}

/// A value stands to another as the operator says.
pub open spec fn relates(op: FilterOp, v: TypedV, x: TypedV) -> bool {
    match op {
        FilterOp::Lt => before(v, x),
        FilterOp::Gt => before(x, v),
        FilterOp::Lte => !before(x, v),
        FilterOp::Gte => !before(v, x),
        FilterOp::Eq => !before(v, x) && !before(x, v),
    }
}

/// A document meets a filter just where its value stands to the filter's as the operator says; one
/// without the field meets none.
pub proof fn law_filters_compare_values(entity: JsonV, f: FilterV, v: TypedV)
    requires
        field_value(entity, f.field, type_of(f.value)) == Ok::<Option<TypedV>, ErrorV>(Some(v)),
        entity_meets(entity, f) is Ok,
    ensures
        entity_meets(entity, f)->Ok_0 <==> relates(f.op, v, f.value),
        type_of(v) == type_of(f.value),
{
    law_values_are_ordered(v, f.value, v);
}

pub proof fn law_absent_fields_meet_no_filter(entity: JsonV, f: FilterV)
    requires
        field_value(entity, f.field, type_of(f.value)) == Ok::<Option<TypedV>, ErrorV>(None),
    ensures
        entity_meets(entity, f) == Ok::<bool, ErrorV>(false),
{
}

/// Below and not below, above and not above leave nothing out and never both accept; what is accepted
/// as equal is accepted as at most and as at least.
pub proof fn law_operators_part_the_values(v: TypedV, x: TypedV)
    ensures
        relates(FilterOp::Lt, v, x) != relates(FilterOp::Gte, v, x),
        relates(FilterOp::Gt, v, x) != relates(FilterOp::Lte, v, x),
        relates(FilterOp::Eq, v, x) == (relates(FilterOp::Gte, v, x) && relates(
            FilterOp::Lte,
            v,
            x,
        )),
{
}

/// A document meets several filters just where it meets each.
pub proof fn law_all_filters_count(entity: JsonV, fs: Seq<FilterV>)
    requires
        entity_meets_all(entity, fs) is Ok,
    ensures
        entity_meets_all(entity, fs)->Ok_0 ==> forall|k: int|
            0 <= k < fs.len() ==> entity_meets(entity, #[trigger] fs[k]) == Ok::<bool, ErrorV>(true),
        !entity_meets_all(entity, fs)->Ok_0 ==> exists|k: int|
            0 <= k < fs.len() && entity_meets(entity, #[trigger] fs[k]) == Ok::<bool, ErrorV>(false),
    decreases fs.len(),
{
    if fs.len() > 0 && entity_meets(entity, fs[0]) == Ok::<bool, ErrorV>(true) {
        let rest = fs.drop_first();
        law_all_filters_count(entity, rest);
        if entity_meets_all(entity, fs)->Ok_0 {
            assert forall|k: int| 0 <= k < fs.len() implies entity_meets(entity, #[trigger] fs[k])
                == Ok::<bool, ErrorV>(true) by {
                if k > 0 {
                    assert(rest[k - 1] == fs[k]);
                }
            }
        } else {
            let k = choose|k: int|
                0 <= k < rest.len() && entity_meets(entity, #[trigger] rest[k]) == Ok::<
                    bool,
                    ErrorV,
                >(false);
            assert(fs[k + 1] == rest[k]);
        }
    }
}

/// The record counts: nothing replaced it, and its document meets every filter.
pub open spec fn counts_for(fs: Seq<FilterV>, r: RecordV, s: ItemState) -> bool {
    &&& r.0 == s
    &&& !r.1
    &&& r.2 is Some
    &&& forall|k: int|
        0 <= k < fs.len() ==> entity_meets(r.2->Some_0, #[trigger] fs[k]) == Ok::<bool, ErrorV>(true)
}

/// How many of the records count for a state.
pub open spec fn tally(fs: Seq<FilterV>, rs: Seq<RecordV>, s: ItemState) -> nat
    decreases rs.len(),
{
    if rs.len() == 0 {
        0
    } else {
        tally(fs, rs.drop_last(), s) + if counts_for(fs, rs.last(), s) {
            1nat
        } else {
            0nat
        }
    }
}

proof fn lemma_tally(fs: Seq<FilterV>, rs: Seq<RecordV>)
    ensures
        tally(fs, rs, ItemState::Pending) + tally(fs, rs, ItemState::Leased) + tally(
            fs,
            rs,
            ItemState::Complete,
        ) + tally(fs, rs, ItemState::Failed) <= rs.len(),
    decreases rs.len(),
{
    if rs.len() > 0 {
        lemma_tally(fs, rs.drop_last());
    }
}

/// A count by query counts, for each state, the records of that state that nothing replaced and whose
/// documents meet every filter; those that are over add up.
pub proof fn law_queries_count_what_meets_them(fs: Seq<FilterV>, rs: Seq<RecordV>)
    requires
        lifecycle_counts(fs, rs) is Ok,
        rs.len() <= u64::MAX,
    ensures
        ({
            let c = lifecycle_counts(fs, rs)->Ok_0;
            &&& c.pending == tally(fs, rs, ItemState::Pending)
            &&& c.leased == tally(fs, rs, ItemState::Leased)
            &&& c.complete == tally(fs, rs, ItemState::Complete)
            &&& c.failed == tally(fs, rs, ItemState::Failed)
            &&& c.resident_terminal_count == c.complete + c.failed
        }),
    decreases rs.len(),
{
    if rs.len() > 0 {
        let rest = rs.drop_last();
        let r = rs.last();
        law_queries_count_what_meets_them(fs, rest);
        lemma_tally(fs, rest);
        if !r.1 && r.2 is Some {
            law_all_filters_count(r.2->Some_0, fs);
        }
    }
}

/// No two filters are on one field.
pub open spec fn one_each(fs: Seq<FilterV>) -> bool {
    forall|i: int, j: int|
        0 <= i < j < fs.len() ==> (#[trigger] fs[i]).field != (#[trigger] fs[j]).field
}

proof fn lemma_last_filter(fs: Seq<FilterV>, k: int)
    requires
        one_each(fs),
        0 <= k < fs.len(),
    ensures
        last_filter(fs, fs[k].field) == Some(fs[k]),
    decreases fs.len(),
{
    if k < fs.len() - 1 {
        let rest = fs.drop_last();
        assert(fs[k].field != fs[fs.len() - 1].field);
        assert forall|i: int, j: int| 0 <= i < j < rest.len() implies (#[trigger] rest[i]).field != (
        #[trigger] rest[j]).field by {
            assert(rest[i] == fs[i] && rest[j] == fs[j]);
        }
        assert(rest[k] == fs[k]);
        lemma_last_filter(rest, k);
    }
}

proof fn lemma_lead_settled(
    fields: Seq<(Seq<char>, IndexType)>,
    fs: Seq<FilterV>,
    row: Map<Seq<char>, TypedV>,
    from: int,
    at: int,
)
    requires
        0 <= from <= at,
        settled_lead(fields, fs, row, from) matches Ok(Some(lead)) && at < lead,
    ensures
        at < fields.len(),
        last_filter(fs, fields[at].0) matches Some(f) && f.op is Eq && row.contains_key(fields[at].0)
            && value_eq(row[fields[at].0], f.value) && type_of(f.value) == fields[at].1,
    decreases at - from,
{
    if from < at {
        lemma_lead_settled(fields, fs, row, from + 1, at);
    }
}

proof fn lemma_rest_met(
    fields: Seq<(Seq<char>, IndexType)>,
    fs: Seq<FilterV>,
    row: Map<Seq<char>, TypedV>,
    lead: int,
    k: int,
)
    requires
        rest_met(fields, fs, row, lead) == Ok::<bool, ErrorV>(true),
        0 <= k < fs.len(),
    ensures
        field_at(fields, fs[k].field, 0) < fields.len(),
        field_at(fields, fs[k].field, 0) >= lead ==> row.contains_key(fs[k].field) && compared(
            row[fs[k].field],
            fs[k].value,
        ) is Ok && op_holds(fs[k].op, compared(row[fs[k].field], fs[k].value)->Ok_0),
    decreases fs.len(),
{
    if k > 0 {
        assert(fs.drop_first()[k - 1] == fs[k]);
        lemma_rest_met(fields, fs.drop_first(), row, lead, k - 1);
    }
}

/// Every row of a scan holds, for each filter, a value that stands to the filter's as its operator says.
pub proof fn law_scanned_rows_meet_the_filters(m: Model, q: ScanV, r: int, k: int)
    requires
        m.items.dom().finite(),
        scanned(m, q) is Ok,
        one_each(q.filters),
        0 <= r < scanned(m, q)->Ok_0.0.len(),
        0 <= k < q.filters.len(),
    ensures
        ({
            let row = scanned(m, q)->Ok_0.0[r];
            let f = q.filters[k];
            &&& m.items.contains_key(row.item_id)
            &&& m.items[row.item_id].entity is Some
            &&& row.fields.contains_key(f.field)
            &&& type_of(row.fields[f.field]) == type_of(f.value)
            &&& relates(f.op, row.fields[f.field], f.value)
        }),
{
    let page = scanned(m, q)->Ok_0.0;
    let row = page[r];
    let f = q.filters[k];
    let at = m.typed_index_specs[typed_named(m.typed_index_specs, q.index)->Ok_0];
    let rows = scan_rows(m, at.fields, q)->Ok_0;
    law_scan_misses_no_row(m, q);
    assert(rows.contains(row)) by {
        let start = crate::scan::page_start(rows, q.order_by, q.cursor)->Some_0;
        crate::scan::lemma_start_bound(rows, q.order_by, q.cursor);
        assert(rows[start + r] == row);
    }
    assert(matching_row(m.items, at.fields, q.filters, row.item_id) == Some(row));
    assert(row_meets(at.fields, q.filters, row.fields) == Ok::<bool, ErrorV>(true));
    let lead = settled_lead(at.fields, q.filters, row.fields, 0)->Ok_0->Some_0;
    lemma_rest_met(at.fields, q.filters, row.fields, lead, k);
    let here = field_at(at.fields, f.field, 0);
    lemma_field_at(at.fields, f.field, 0);
    if here < lead {
        lemma_lead_settled(at.fields, q.filters, row.fields, 0, here);
        lemma_last_filter(q.filters, k);
        match (row.fields[f.field], f.value) {
            (TypedV::String(x), TypedV::String(y)) => {
                String::lt_irreflexive(x);
            },
            _ => {},
        }
    } else {
        law_values_are_ordered(row.fields[f.field], f.value, f.value);
    }
}

/// The rows of a scan follow each other in the order that is asked for: by the first field none comes
/// before one that stands earlier, or, where the order descends, after.
pub proof fn law_scanned_rows_are_in_order(m: Model, q: ScanV, i: int, j: int)
    requires
        m.items.dom().finite(),
        scanned(m, q) is Ok,
        0 <= i < j < scanned(m, q)->Ok_0.0.len(),
    ensures
        ({
            let (a, b) = (scanned(m, q)->Ok_0.0[i], scanned(m, q)->Ok_0.0[j]);
            let o = q.order_by[0];
            &&& q.order_by.len() > 0
            &&& a.fields.contains_key(o.field) && b.fields.contains_key(o.field)
            &&& a.item_id != b.item_id
            &&& o.direction is Ascending ==> !value_lt(b.fields[o.field], a.fields[o.field])
            &&& o.direction is Descending ==> !value_lt(a.fields[o.field], b.fields[o.field])
        }),
{
    let page = scanned(m, q)->Ok_0.0;
    let (a, b) = (page[i], page[j]);
    let at = m.typed_index_specs[typed_named(m.typed_index_specs, q.index)->Ok_0];
    let rows = scan_rows(m, at.fields, q)->Ok_0;
    law_scan_misses_no_row(m, q);
    let start = crate::scan::page_start(rows, q.order_by, q.cursor)->Some_0;
    crate::scan::lemma_start_bound(rows, q.order_by, q.cursor);
    assert(rows[start + i] == a && rows[start + j] == b);
    assert(row_before(q.order_by, rows[start + i], rows[start + j]));
    assert(rows.contains(a) && rows.contains(b));
    let o = q.order_by[0];
    lemma_field_at(at.fields, o.field, 0);
    let n = field_at(at.fields, o.field, 0);
    lemma_row_covers(at.fields, m.items[a.item_id].entity->Some_0.document, n);
    lemma_row_covers(at.fields, m.items[b.item_id].entity->Some_0.document, n);
    law_values_are_ordered(a.fields[o.field], b.fields[o.field], a.fields[o.field]);
}

} // verus!
