//! Counts and groups over a typed index.

use crate::encoding::{be_value, read_be};
use crate::item::Item;
use crate::json::{Json, JsonV};
use crate::model::{Model, counted};
use crate::order::{Standing, bytes_lt, bytes_standing, lemma_bytes_lt_irreflexive, lemma_lt_asymmetric, listing_of};
use crate::projection::ProjectionData;
use crate::scan::{field_at, find_field, find_typed_index, typed_named};
use crate::text::opt_text;
use crate::typed::{FilterV, QueryFilter, entity_meets_all, field_value, filters_v, float_bits_of, float_key, float_nan, float_of_int, is_nan, json_of_typed, key_of_float, matches_filters_on_entity, op_accepts, op_holds, type_of, type_of_value, typed_value_for_field, typed_value_to_json};
use crate::types::{EngineError, EngineResult, ErrorV, IndexField, IndexType, ItemId, ItemState, QueueIndex, QueueIndexV, QueueMetrics, TypedV, TypedValue, index_fields_v, outcome, typed_specs_v};
use std::sync::Arc;
use vstd::prelude::*;

verus! {

pub struct MetricsByQueryRequest {
    pub index: Option<String>,
    pub filters: Vec<QueryFilter>,
}

/// What a count looks at: an item's state, whether it is superseded, and its document.
pub struct LifecycleRecord<'a> {
    pub state: ItemState,
    pub superseded: bool,
    pub document: Option<&'a Json>,
}

pub type RecordV = (ItemState, bool, Option<JsonV>);

pub open spec fn record_v(r: LifecycleRecord) -> RecordV {
    (
        r.state,
        r.superseded,
        match r.document {
            Some(d) => Some(d@),
            None => None,
        },
    )
}

pub open spec fn records_v(v: Seq<LifecycleRecord>) -> Seq<RecordV> {
    v.map_values(|r: LifecycleRecord| record_v(r))
}

/// Every filter is on a field of the index and has a value of its type.
pub open spec fn filters_checked(
    fields: Seq<(Seq<char>, IndexType)>,
    fs: Seq<FilterV>,
) -> Result<(), ErrorV>
    decreases fs.len(),
{
    if fs.len() == 0 {
        Ok(())
    } else {
        let at = field_at(fields, fs[0].field, 0);
        if at >= fields.len() {
            Err(ErrorV::Invalid("unindexed-field"@))
        } else if type_of(fs[0].value) != fields[at].1 {
            Err(ErrorV::Invalid("typed index value is not valid for declared type"@))
        } else {
            filters_checked(fields, fs.drop_first())
        }
    }
}

/// Items per state among the records that meet the filters. Superseded ones do not count.
pub open spec fn lifecycle_counts(fs: Seq<FilterV>, rs: Seq<RecordV>) -> Result<QueueMetrics, ErrorV>
    decreases rs.len(),
{
    if rs.len() == 0 {
        Ok(QueueMetrics::zero())
    } else {
        match lifecycle_counts(fs, rs.drop_last()) {
            Err(e) => Err(e),
            Ok(c) => {
                let (state, superseded, document) = rs.last();
                if superseded || document is None {
                    Ok(c)
                } else {
                    match entity_meets_all(document->Some_0, fs) {
                        Err(e) => Err(e),
                        Ok(false) => Ok(c),
                        Ok(true) => Ok(counted(c, state)),
                    }
                }
            },
        }
    }
}

proof fn lemma_counts_stop(fs: Seq<FilterV>, rs: Seq<RecordV>, n: int)
    requires
        0 <= n <= rs.len(),
        lifecycle_counts(fs, rs.take(n)) is Err,
    ensures
        lifecycle_counts(fs, rs) == lifecycle_counts(fs, rs.take(n)),
    decreases rs.len() - n,
{
    if n == rs.len() {
        assert(rs.take(n) =~= rs);
    } else {
        assert(rs.take(n + 1).drop_last() =~= rs.take(n));
        lemma_counts_stop(fs, rs, n + 1);
    }
}

/// What a count over an index comes to.
pub open spec fn lifecycle_queried(
    specs: Seq<QueueIndexV>,
    index: Option<Seq<char>>,
    fs: Seq<FilterV>,
    rs: Seq<RecordV>,
) -> Result<QueueMetrics, ErrorV> {
    match typed_named(specs, index) {
        Err(e) => Err(e),
        Ok(at) => match filters_checked(specs[at].fields, fs) {
            Err(e) => Err(e),
            Ok(_) => lifecycle_counts(fs, rs),
        },
    }
}

/// The counts are bounded, and the terminal ones add up.
pub open spec fn counts_within(c: QueueMetrics, n: nat) -> bool {
    &&& c.pending + c.leased + c.complete + c.failed <= n
    &&& c.resident_terminal_count == c.complete + c.failed
}

fn count_state(c: QueueMetrics, s: ItemState, Ghost(n): Ghost<nat>) -> (r: QueueMetrics)
    requires
        counts_within(c, n),
        n < u64::MAX,
    ensures
        r == counted(c, s),
        counts_within(r, n + 1),
{
    match s {
        ItemState::Pending => QueueMetrics { pending: c.pending + 1, ..c },
        ItemState::Leased => QueueMetrics { leased: c.leased + 1, ..c },
        ItemState::Complete => QueueMetrics {
            complete: c.complete + 1,
            resident_terminal_count: c.resident_terminal_count + 1,
            ..c
        },
        ItemState::Failed => QueueMetrics {
            failed: c.failed + 1,
            resident_terminal_count: c.resident_terminal_count + 1,
            ..c
        },
    }
}

fn check_filters(fields: &Vec<IndexField>, filters: &Vec<QueryFilter>) -> (r: EngineResult<()>)
    ensures
        outcome(r) == filters_checked(index_fields_v(fields@), filters_v(filters@)),
{
    let ghost all = index_fields_v(fields@);
    let ghost fs = filters_v(filters@);
    let mut i: usize = 0;
    assert(fs.skip(0) =~= fs);
    while i < filters.len()
        invariant
            i <= filters@.len(),
            all == index_fields_v(fields@),
            fs == filters_v(filters@),
            filters_checked(all, fs) == filters_checked(all, fs.skip(i as int)),
        decreases filters@.len() - i,
    {
        proof {
            assert(fs.skip(i as int)[0] == filters@[i as int]@);
            assert(fs.skip(i as int).drop_first() =~= fs.skip(i as int + 1));
        }
        let at = find_field(fields, filters[i].field.as_str());
        if at >= fields.len() {
            return Err(EngineError::Invalid("unindexed-field"));
        }
        assert(all[at as int] == (fields@[at as int].field@, fields@[at as int].index_type));
        if type_of_value(&filters[i].value) != fields[at].index_type {
            return Err(EngineError::Invalid("typed index value is not valid for declared type"));
        }
        i = i + 1;
    }
    Ok(())
}

/// Items per state among the records that meet filters on one typed index.
pub fn filtered_lifecycle_metrics(
    typed_indexes: &Vec<QueueIndex>,
    request: &MetricsByQueryRequest,
    records: &Vec<LifecycleRecord>,
) -> (r: EngineResult<QueueMetrics>)
    ensures
        outcome(r) == lifecycle_queried(
            typed_specs_v(typed_indexes@),
            opt_text(request.index),
            filters_v(request.filters@),
            records_v(records@),
        ),
{
    let at = match find_typed_index(typed_indexes, &request.index) {
        Ok(at) => at,
        Err(e) => return Err(e),
    };
    assert(typed_specs_v(typed_indexes@)[at as int] == typed_indexes@[at as int]@);
    match check_filters(&typed_indexes[at].fields, &request.filters) {
        Ok(_) => {},
        Err(e) => return Err(e),
    }
    let ghost fs = filters_v(request.filters@);
    let ghost all = records_v(records@);
    let mut metrics = QueueMetrics::none();
    let mut i: usize = 0;
    assert(all.take(0) =~= Seq::<RecordV>::empty());
    while i < records.len()
        invariant
            i <= records@.len(),
            fs == filters_v(request.filters@),
            all == records_v(records@),
            lifecycle_counts(fs, all.take(i as int)) == Ok::<QueueMetrics, ErrorV>(metrics),
            counts_within(metrics, i as nat),
            lifecycle_queried(
                typed_specs_v(typed_indexes@),
                opt_text(request.index),
                fs,
                all,
            ) == lifecycle_counts(fs, all),
        decreases records@.len() - i,
    {
        let rec = &records[i];
        proof {
            assert(all.take(i as int + 1).drop_last() =~= all.take(i as int));
            assert(all.take(i as int + 1).last() == record_v(records@[i as int]));
        }
        if !rec.superseded {
            match rec.document {
                None => {},
                Some(d) => match matches_filters_on_entity(d, &request.filters) {
                    Err(e) => {
                        proof {
                            lemma_counts_stop(fs, all, i as int + 1);
                        }
                        return Err(e);
                    },
                    Ok(false) => {},
                    Ok(true) => {
                        metrics = count_state(metrics, rec.state, Ghost(i as nat));
                    },
                },
            }
        }
        i = i + 1;
    }
    assert(all.take(i as int) =~= all);
    Ok(metrics)
}

/// The records of a queue, by identifier.
pub open spec fn queue_records(items: Map<ItemId, Item>, ids: Seq<ItemId>) -> Seq<RecordV> {
    ids.map_values(
        |id: ItemId| (items[id].state, items[id].superseded, crate::planning::doc_of(items[id].entity)),
    )
}

impl ProjectionData {
    /// Items per state among those that meet filters on one typed index.
    pub fn metrics_by_query(&self, request: &MetricsByQueryRequest) -> (r: EngineResult<
        QueueMetrics,
    >)
        ensures
            outcome(r) == lifecycle_queried(
                self@.typed_index_specs,
                opt_text(request.index),
                filters_v(request.filters@),
                queue_records(self@.items, listing_of::<u64>(self@.items.dom())),
            ),
    {
        let ids = self.all_ids();
        let ghost all = queue_records(self@.items, ids@);
        let mut records: Vec<LifecycleRecord> = Vec::new();
        let mut i: usize = 0;
        assert(records_v(records@) =~= all.take(0));
        while i < ids.len()
            invariant
                i <= ids@.len(),
                all == queue_records(self@.items, ids@),
                ids@.to_set() == self@.items.dom(),
                records_v(records@) == all.take(i as int),
            decreases ids@.len() - i,
        {
            assert(ids@.to_set().contains(ids@[i as int]));
            match self.record(ids[i]) {
                None => {},
                Some(rec) => {
                    let ghost before = records@;
                    let x = LifecycleRecord {
                        state: rec.state,
                        superseded: rec.superseded,
                        document: match &rec.entity_document {
                            Some(e) => Some(&e.document),
                            None => None,
                        },
                    };
                    records.push(x);
                    assert(records_v(records@) =~= records_v(before).push(record_v(x)));
                },
            }
            assert(all.take(i as int + 1) =~= all.take(i as int).push(all[i as int]));
            i = i + 1;
        }
        assert(all.take(i as int) =~= all);
        filtered_lifecycle_metrics(&self.typed_index_specs, request, &records)
    }
}

/// A filter with the bytes that its value has in index keys: none where it cannot be encoded.
pub struct EncodedFilter {
    pub filter: QueryFilter,
    pub encoded: Option<Vec<u8>>,
}

pub open spec fn encoded_v(f: EncodedFilter) -> (FilterV, Option<Seq<u8>>) {
    (
        f.filter@,
        match f.encoded {
            Some(b) => Some(b@),
            None => None,
        },
    )
}

pub open spec fn all_encoded_v(v: Seq<EncodedFilter>) -> Seq<(FilterV, Option<Seq<u8>>)> {
    v.map_values(|f: EncodedFilter| encoded_v(f))
}

/// Why the filters cannot be held against keys, if so: the first fault of the first faulty one.
pub open spec fn encoded_checked(
    fields: Seq<(Seq<char>, IndexType)>,
    fs: Seq<(FilterV, Option<Seq<u8>>)>,
) -> Result<(), ErrorV>
    decreases fs.len(),
{
    if fs.len() == 0 {
        Ok(())
    } else {
        let f = fs[0].0;
        let at = field_at(fields, f.field, 0);
        if at >= fields.len() {
            Err(ErrorV::Invalid("unindexed-field"@))
        } else if type_of(f.value) != fields[at].1 || json_of_typed(f.value) is Err || fs[0].1 is None {
            Err(ErrorV::Invalid("typed index value is not valid for declared type"@))
        } else {
            encoded_checked(fields, fs.drop_first())
        }
    }
}

/// The components of a key, each after its length: none where it is not made of that many.
pub open spec fn components(key: Seq<u8>, at: int, n: nat) -> Option<Seq<Seq<u8>>>
    decreases n,
{
    if n == 0 {
        if at == key.len() {
            Some(Seq::empty())
        } else {
            None
        }
    } else if at + 4 > key.len() {
        None
    } else {
        let end = at + 4 + be_value(key.subrange(at, at + 4));
        if end > key.len() {
            None
        } else {
            match components(key, end, (n - 1) as nat) {
                None => None,
                Some(rest) => Some(seq![key.subrange(at + 4, end)] + rest),
            }
        }
    }
}

pub open spec fn bytes_stand(a: Seq<u8>, b: Seq<u8>) -> Standing {
    if bytes_lt(a, b) {
        Standing::Below
    } else if bytes_lt(b, a) {
        Standing::Above
    } else {
        Standing::Same
    }
}

/// The components meet every filter.
pub open spec fn components_meet(
    fields: Seq<(Seq<char>, IndexType)>,
    fs: Seq<(FilterV, Option<Seq<u8>>)>,
    parts: Seq<Seq<u8>>,
) -> bool {
    forall|i: int|
        0 <= i < fs.len() ==> op_holds(
            (#[trigger] fs[i]).0.op,
            bytes_stand(parts[field_at(fields, fs[i].0.field, 0)], fs[i].1->Some_0),
        )
}

/// Items per state among the keys that meet the filters.
pub open spec fn key_counts(
    fields: Seq<(Seq<char>, IndexType)>,
    fs: Seq<(FilterV, Option<Seq<u8>>)>,
    rs: Seq<(ItemState, bool, Vec<u8>)>,
) -> Result<QueueMetrics, ErrorV>
    decreases rs.len(),
{
    if rs.len() == 0 {
        Ok(QueueMetrics::zero())
    } else {
        match key_counts(fields, fs, rs.drop_last()) {
            Err(e) => Err(e),
            Ok(c) => if rs.last().1 {
                Ok(c)
            } else {
                match components(rs.last().2@, 0, fields.len()) {
                    None => Err(ErrorV::Storage("invalid canonical index key"@)),
                    Some(parts) => if components_meet(fields, fs, parts) {
                        Ok(counted(c, rs.last().0))
                    } else {
                        Ok(c)
                    },
                }
            },
        }
    }
}

proof fn lemma_key_counts_stop(
    fields: Seq<(Seq<char>, IndexType)>,
    fs: Seq<(FilterV, Option<Seq<u8>>)>,
    rs: Seq<(ItemState, bool, Vec<u8>)>,
    n: int,
)
    requires
        0 <= n <= rs.len(),
        key_counts(fields, fs, rs.take(n)) is Err,
    ensures
        key_counts(fields, fs, rs) == key_counts(fields, fs, rs.take(n)),
    decreases rs.len() - n,
{
    if n == rs.len() {
        assert(rs.take(n) =~= rs);
    } else {
        assert(rs.take(n + 1).drop_last() =~= rs.take(n));
        lemma_key_counts_stop(fields, fs, rs, n + 1);
    }
}

/// The bounds of the component that starts at a place of a key.
pub fn component_at(key: &Vec<u8>, at: usize) -> (r: Option<usize>)
    requires
        at <= key@.len(),
    ensures
        match r {
            Some(end) => at + 4 <= end <= key@.len() && end == at + 4 + be_value(
                key@.subrange(at as int, at + 4),
            ),
            None => at + 4 > key@.len() || at + 4 + be_value(key@.subrange(at as int, at + 4))
                > key@.len(),
        },
{
    let n = key.len();
    if n - at < 4 {
        return None;
    }
    let length = read_be(key.as_slice(), at, at + 4);
    let room = (n - at - 4) as u64;
    if length > room {
        return None;
    }
    Some(at + 4 + length as usize)
}

pub(crate) fn slice_of(key: &Vec<u8>, from: usize, to: usize) -> (r: Vec<u8>)
    requires
        from <= to <= key@.len(),
    ensures
        r@ == key@.subrange(from as int, to as int),
{
    let ghost want = key@.subrange(from as int, to as int);
    let mut out: Vec<u8> = Vec::new();
    let mut i: usize = from;
    while i < to
        invariant
            from <= i <= to <= key@.len(),
            want == key@.subrange(from as int, to as int),
            out@ == want.take(i - from),
        decreases to - i,
    {
        out.push(key[i]);
        assert(want.take(i - from + 1) =~= want.take(i - from).push(want[i - from]));
        i = i + 1;
    }
    assert(want.take(i - from) =~= want);
    out
}

pub open spec fn byte_lists(v: Seq<Vec<u8>>) -> Seq<Seq<u8>> {
    v.map_values(|b: Vec<u8>| b@)
}

fn split_key(key: &Vec<u8>, n: usize) -> (r: Option<Vec<Vec<u8>>>)
    ensures
        (match r {
            Some(p) => Some(byte_lists(p@)),
            None => None,
        }) == components(key@, 0, n as nat),
        r is Some ==> r->Some_0@.len() == n,
{
    let mut parts: Vec<Vec<u8>> = Vec::new();
    let mut at: usize = 0;
    let mut i: usize = 0;
    proof {
        let whole = components(key@, 0, n as nat);
        if whole is Some {
            assert(byte_lists(parts@) + whole->Some_0 =~= whole->Some_0);
        }
    }
    while i < n
        invariant
            i <= n,
            at <= key@.len(),
            parts@.len() == i,
            components(key@, 0, n as nat) == (match components(key@, at as int, (n - i) as nat) {
                None => None,
                Some(rest) => Some(byte_lists(parts@) + rest),
            }),
        decreases n - i,
    {
        let end = match component_at(key, at) {
            Some(e) => e,
            None => return None,
        };
        let ghost before = parts@;
        let part = slice_of(key, at + 4, end);
        parts.push(part);
        proof {
            assert(byte_lists(parts@) =~= byte_lists(before).push(part@));
            match components(key@, end as int, (n - i - 1) as nat) {
                Some(rest) => {
                    assert(byte_lists(before) + (seq![part@] + rest) =~= byte_lists(parts@) + rest);
                },
                None => {},
            }
        }
        at = end;
        i = i + 1;
    }
    if at != key.len() {
        return None;
    }
    assert(byte_lists(parts@) + Seq::<Seq<u8>>::empty() =~= byte_lists(parts@));
    Some(parts)
}

fn check_encoded(fields: &Vec<IndexField>, filters: &Vec<EncodedFilter>) -> (r: EngineResult<()>)
    ensures
        outcome(r) == encoded_checked(index_fields_v(fields@), all_encoded_v(filters@)),
        r is Ok ==> forall|i: int|
            0 <= i < filters@.len() ==> (#[trigger] filters@[i]).encoded is Some && field_at(
                index_fields_v(fields@),
                filters@[i].filter.field@,
                0,
            ) < fields@.len(),
{
    let ghost all = index_fields_v(fields@);
    let ghost fs = all_encoded_v(filters@);
    let mut i: usize = 0;
    assert(fs.skip(0) =~= fs);
    while i < filters.len()
        invariant
            i <= filters@.len(),
            all == index_fields_v(fields@),
            fs == all_encoded_v(filters@),
            encoded_checked(all, fs) == encoded_checked(all, fs.skip(i as int)),
            forall|j: int|
                0 <= j < i ==> (#[trigger] filters@[j]).encoded is Some && field_at(
                    all,
                    filters@[j].filter.field@,
                    0,
                ) < fields@.len(),
        decreases filters@.len() - i,
    {
        proof {
            assert(fs.skip(i as int)[0] == encoded_v(filters@[i as int]));
            assert(fs.skip(i as int).drop_first() =~= fs.skip(i as int + 1));
        }
        let f = &filters[i].filter;
        let at = find_field(fields, f.field.as_str());
        if at >= fields.len() {
            return Err(EngineError::Invalid("unindexed-field"));
        }
        assert(all[at as int] == (fields@[at as int].field@, fields@[at as int].index_type));
        if type_of_value(&f.value) != fields[at].index_type {
            return Err(EngineError::Invalid("typed index value is not valid for declared type"));
        }
        match typed_value_to_json(&f.value) {
            Ok(_) => {},
            Err(e) => return Err(e),
        }
        match &filters[i].encoded {
            Some(_) => {},
            None => return Err(
                EngineError::Invalid("typed index value is not valid for declared type"),
            ),
        }
        i = i + 1;
    }
    Ok(())
}

fn meets_encoded(
    fields: &Vec<IndexField>,
    filters: &Vec<EncodedFilter>,
    parts: &Vec<Vec<u8>>,
) -> (r: bool)
    requires
        parts@.len() == fields@.len(),
        forall|i: int|
            0 <= i < filters@.len() ==> (#[trigger] filters@[i]).encoded is Some && field_at(
                index_fields_v(fields@),
                filters@[i].filter.field@,
                0,
            ) < fields@.len(),
    ensures
        r == components_meet(
            index_fields_v(fields@),
            all_encoded_v(filters@),
            byte_lists(parts@),
        ),
{
    let ghost all = index_fields_v(fields@);
    let ghost fs = all_encoded_v(filters@);
    let ghost ps = byte_lists(parts@);
    let mut i: usize = 0;
    while i < filters.len()
        invariant
            i <= filters@.len(),
            all == index_fields_v(fields@),
            fs == all_encoded_v(filters@),
            ps == byte_lists(parts@),
            parts@.len() == fields@.len(),
            forall|j: int|
                0 <= j < filters@.len() ==> (#[trigger] filters@[j]).encoded is Some && field_at(
                    all,
                    filters@[j].filter.field@,
                    0,
                ) < fields@.len(),
            forall|j: int|
                0 <= j < i ==> op_holds(
                    (#[trigger] fs[j]).0.op,
                    bytes_stand(ps[field_at(all, fs[j].0.field, 0)], fs[j].1->Some_0),
                ),
        decreases filters@.len() - i,
    {
        assert(fs[i as int] == encoded_v(filters@[i as int]));
        assert(filters@[i as int].encoded is Some);
        let at = find_field(fields, filters[i].filter.field.as_str());
        match &filters[i].encoded {
            None => {},
            Some(b) => {
                proof {
                    assert(ps[at as int] == parts@[at as int]@);
                    lemma_lt_asymmetric::<Vec<u8>>(parts@[at as int]@, b@);
                    lemma_lt_asymmetric::<Vec<u8>>(b@, parts@[at as int]@);
                    lemma_bytes_lt_irreflexive(b@);
                }
                let s = bytes_standing(parts[at].as_slice(), b.as_slice());
                assert(s == bytes_stand(parts@[at as int]@, b@));
                if !op_accepts(filters[i].filter.op, s) {
                    return false;
                }
            },
        }
        i = i + 1;
    }
    true
}

/// Items per state among the index keys that meet filters. Each key frames the fields of the index, and
/// each filter comes with the bytes of its value.
pub fn filtered_lifecycle_metrics_by_index_key(
    typed_indexes: &Vec<QueueIndex>,
    index: &Option<String>,
    filters: &Vec<EncodedFilter>,
    records: &Vec<(ItemState, bool, Vec<u8>)>,
) -> (r: EngineResult<QueueMetrics>)
    ensures
        ({
            let specs = typed_specs_v(typed_indexes@);
            let fs = all_encoded_v(filters@);
            match typed_named(specs, opt_text(*index)) {
                Err(e) => outcome(r) == Err::<QueueMetrics, ErrorV>(e),
                Ok(at) => match encoded_checked(specs[at].fields, fs) {
                    Err(e) => outcome(r) == Err::<QueueMetrics, ErrorV>(e),
                    Ok(_) => outcome(r) == key_counts(specs[at].fields, fs, records@),
                },
            }
        }),
{
    let at = match find_typed_index(typed_indexes, index) {
        Ok(at) => at,
        Err(e) => return Err(e),
    };
    let fields = &typed_indexes[at].fields;
    assert(typed_specs_v(typed_indexes@)[at as int] == typed_indexes@[at as int]@);
    match check_encoded(fields, filters) {
        Ok(_) => {},
        Err(e) => return Err(e),
    }
    let ghost all = index_fields_v(fields@);
    let ghost fs = all_encoded_v(filters@);
    let mut metrics = QueueMetrics::none();
    let mut i: usize = 0;
    assert(records@.take(0) =~= Seq::<(ItemState, bool, Vec<u8>)>::empty());
    while i < records.len()
        invariant
            i <= records@.len(),
            all == index_fields_v(fields@),
            fs == all_encoded_v(filters@),
            typed_named(typed_specs_v(typed_indexes@), opt_text(*index)) == Ok::<int, ErrorV>(
                at as int,
            ),
            typed_specs_v(typed_indexes@)[at as int].fields == all,
            encoded_checked(all, fs) is Ok,
            forall|j: int|
                0 <= j < filters@.len() ==> (#[trigger] filters@[j]).encoded is Some && field_at(
                    index_fields_v(fields@),
                    filters@[j].filter.field@,
                    0,
                ) < fields@.len(),
            key_counts(all, fs, records@.take(i as int)) == Ok::<QueueMetrics, ErrorV>(metrics),
            counts_within(metrics, i as nat),
        decreases records@.len() - i,
    {
        proof {
            assert(records@.take(i as int + 1).drop_last() =~= records@.take(i as int));
            assert(records@.take(i as int + 1).last() == records@[i as int]);
        }
        let (state, superseded, key) = &records[i];
        if !*superseded {
            let parts = match split_key(key, fields.len()) {
                Some(p) => p,
                None => {
                    proof {
                        lemma_key_counts_stop(all, fs, records@, i as int + 1);
                    }
                    return Err(
                        EngineError::Storage("invalid canonical index key".to_owned()),
                    );
                },
            };
            if meets_encoded(fields, filters, &parts) {
                metrics = count_state(metrics, *state, Ghost(i as nat));
            }
        }
        i = i + 1;
    }
    assert(records@.take(i as int) =~= records@);
    Ok(metrics)
}

/// A floating-point bound by its bits.
pub type FloatBits = u64;

/// A declared bucket: one value, or the values within bounds.
pub struct BucketRule {
    pub label: String,
    pub exact: Option<FloatBits>,
    pub gt: Option<FloatBits>,
    pub gte: Option<FloatBits>,
    pub lt: Option<FloatBits>,
    pub lte: Option<FloatBits>,
}

/// Both are numbers, and the first is at most the second.
pub open spec fn float_le(a: u64, b: u64) -> bool {
    !float_nan(a) && !float_nan(b) && float_key(a) <= float_key(b)
}

pub open spec fn float_lt(a: u64, b: u64) -> bool {
    !float_nan(a) && !float_nan(b) && float_key(a) < float_key(b)
}

/// The number that a value stands for.
pub open spec fn numeric(v: TypedV) -> Option<u64> {
    match v {
        TypedV::Integer(n) => Some(float_of_int(n)),
        TypedV::Float(b) => Some(b),
        _ => None,
    }
}

/// The value lies in the bucket. A bound that is no number bounds nothing.
pub open spec fn in_bucket(v: TypedV, rule: BucketRule) -> bool {
    match numeric(v) {
        None => false,
        Some(x) => match rule.exact {
            Some(e) => float_key(x) == float_key(e) && !float_nan(x),
            None => {
                &&& !(rule.gt is Some && float_le(x, rule.gt->Some_0))
                &&& !(rule.gte is Some && float_lt(x, rule.gte->Some_0))
                &&& !(rule.lt is Some && float_le(rule.lt->Some_0, x))
                &&& !(rule.lte is Some && float_lt(rule.lte->Some_0, x))
            },
        },
    }
}

fn float_at_most(a: u64, b: u64) -> (r: bool)
    ensures
        r == float_le(a, b),
{
    !is_nan(a) && !is_nan(b) && key_of_float(a) <= key_of_float(b)
}

fn float_below(a: u64, b: u64) -> (r: bool)
    ensures
        r == float_lt(a, b),
{
    !is_nan(a) && !is_nan(b) && key_of_float(a) < key_of_float(b)
}

pub fn value_matches_bucket(value: &TypedValue, rule: &BucketRule) -> (r: bool)
    ensures
        r == in_bucket(value@, *rule),
{
    let x = match value {
        TypedValue::Integer(n) => float_bits_of(*n),
        TypedValue::Float(b) => *b,
        _ => return false,
    };
    match rule.exact {
        Some(e) => return key_of_float(x) == key_of_float(e) && !is_nan(x),
        None => {},
    }
    match rule.gt {
        Some(b) => if float_at_most(x, b) {
            return false;
        },
        None => {},
    }
    match rule.gte {
        Some(b) => if float_below(x, b) {
            return false;
        },
        None => {},
    }
    match rule.lt {
        Some(b) => if float_at_most(b, x) {
            return false;
        },
        None => {},
    }
    match rule.lte {
        Some(b) => if float_below(b, x) {
            return false;
        },
        None => {},
    }
    true
}

pub struct DeclaredBucketSegmentRequest {
    pub index: Option<String>,
    pub filters: Vec<QueryFilter>,
    pub field: String,
    pub buckets: Vec<BucketRule>,
    pub null_bucket_label: String,
    /// The request meets the limits on requests of its kind.
    pub well_formed: bool,
}

#[derive(Debug, PartialEq, Eq)]
pub struct BucketCount {
    pub label: String,
    pub count: u64,
}

pub struct DeclaredBucketSegmentResponse {
    pub buckets: Vec<BucketCount>,
}

pub open spec fn bucket_counts_v(v: Seq<BucketCount>) -> Seq<(Seq<char>, nat)> {
    v.map_values(|b: BucketCount| (b.label@, b.count as nat))
}

/// The place of the first bucket that the value lies in, or the number of buckets.
pub open spec fn bucket_of(rules: Seq<BucketRule>, v: TypedV, from: int) -> int
    decreases rules.len() - from,
{
    if from < 0 || from >= rules.len() {
        rules.len() as int
    } else if in_bucket(v, rules[from]) {
        from
    } else {
        bucket_of(rules, v, from + 1)
    }
}

/// Items per bucket, and items without a value.
pub open spec fn bucketed(
    items: Map<ItemId, Item>,
    rules: Seq<BucketRule>,
    field: Seq<char>,
    index_type: IndexType,
    fs: Seq<FilterV>,
    ids: Seq<ItemId>,
) -> Result<(Seq<nat>, nat), ErrorV>
    decreases ids.len(),
{
    if ids.len() == 0 {
        Ok((Seq::new(rules.len(), |i: int| 0nat), 0))
    } else {
        match bucketed(items, rules, field, index_type, fs, ids.drop_last()) {
            Err(e) => Err(e),
            Ok((counts, nulls)) => match items[ids.last()].entity {
                None => Ok((counts, nulls)),
                Some(doc) => match entity_meets_all(doc.document, fs) {
                    Err(e) => Err(e),
                    Ok(false) => Ok((counts, nulls)),
                    Ok(true) => match field_value(doc.document, field, index_type) {
                        Err(e) => Err(e),
                        Ok(None) => Ok((counts, nulls + 1)),
                        Ok(Some(v)) => {
                            let k = bucket_of(rules, v, 0);
                            if k < rules.len() {
                                Ok((counts.update(k, counts[k] + 1), nulls))
                            } else {
                                Ok((counts, nulls))
                            }
                        },
                    },
                },
            },
        }
    }
}

proof fn lemma_bucketed_stops(
    items: Map<ItemId, Item>,
    rules: Seq<BucketRule>,
    field: Seq<char>,
    index_type: IndexType,
    fs: Seq<FilterV>,
    ids: Seq<ItemId>,
    n: int,
)
    requires
        0 <= n <= ids.len(),
        bucketed(items, rules, field, index_type, fs, ids.take(n)) is Err,
    ensures
        bucketed(items, rules, field, index_type, fs, ids) == bucketed(
            items,
            rules,
            field,
            index_type,
            fs,
            ids.take(n),
        ),
    decreases ids.len() - n,
{
    if n == ids.len() {
        assert(ids.take(n) =~= ids);
    } else {
        assert(ids.take(n + 1).drop_last() =~= ids.take(n));
        lemma_bucketed_stops(items, rules, field, index_type, fs, ids, n + 1);
    }
}

/// The buckets with their counts, the one for items without a value last.
pub open spec fn labelled(
    rules: Seq<BucketRule>,
    counts: Seq<nat>,
    null_label: Seq<char>,
    nulls: nat,
) -> Seq<(Seq<char>, nat)> {
    Seq::new(rules.len(), |i: int| (rules[i].label@, counts[i])).push((null_label, nulls))
}

pub open spec fn segmented(m: Model, q: DeclaredBucketSegmentRequest) -> Result<
    Seq<(Seq<char>, nat)>,
    ErrorV,
> {
    if !q.well_formed {
        Err(ErrorV::Invalid("invalid request"@))
    } else {
        match typed_named(m.typed_index_specs, opt_text(q.index)) {
            Err(e) => Err(e),
            Ok(n) => {
                let fields = m.typed_index_specs[n].fields;
                let at = field_at(fields, q.field@, 0);
                if at >= fields.len() {
                    Err(ErrorV::Invalid("unindexed-field"@))
                } else if !(fields[at].1 is Integer || fields[at].1 is Float) {
                    Err(ErrorV::Invalid("unsupported bucket field"@))
                } else {
                    match bucketed(
                        m.items,
                        q.buckets@,
                        q.field@,
                        fields[at].1,
                        filters_v(q.filters@),
                        listing_of::<u64>(m.items.dom()),
                    ) {
                        Err(e) => Err(e),
                        Ok((counts, nulls)) => Ok(
                            labelled(q.buckets@, counts, q.null_bucket_label@, nulls),
                        ),
                    }
                }
            },
        }
    }
}

fn find_bucket(rules: &Vec<BucketRule>, v: &TypedValue) -> (r: usize)
    ensures
        r == bucket_of(rules@, v@, 0),
        r <= rules@.len(),
{
    let mut i: usize = 0;
    while i < rules.len()
        invariant
            i <= rules@.len(),
            bucket_of(rules@, v@, 0) == bucket_of(rules@, v@, i as int),
        decreases rules@.len() - i,
    {
        if value_matches_bucket(v, &rules[i]) {
            return i;
        }
        i = i + 1;
    }
    i
}

pub open spec fn nats(v: Seq<u64>) -> Seq<nat> {
    v.map_values(|n: u64| n as nat)
}

fn zeros(n: usize) -> (r: Vec<u64>)
    ensures
        nats(r@) == Seq::new(n as nat, |i: int| 0nat),
        r@.len() == n,
        forall|k: int| 0 <= k < r@.len() ==> r@[k] == 0,
{
    let mut out: Vec<u64> = Vec::new();
    let mut i: usize = 0;
    while i < n
        invariant
            i <= n,
            out@.len() == i,
            forall|k: int| 0 <= k < out@.len() ==> out@[k] == 0,
        decreases n - i,
    {
        out.push(0);
        i = i + 1;
    }
    assert(nats(out@) =~= Seq::new(n as nat, |i: int| 0nat));
    out
}

impl ProjectionData {
    fn count_buckets(
        &self,
        request: &DeclaredBucketSegmentRequest,
        index_type: IndexType,
    ) -> (r: EngineResult<(Vec<u64>, u64)>)
        ensures
            ({
                let spec_counts = bucketed(
                    self@.items,
                    request.buckets@,
                    request.field@,
                    index_type,
                    filters_v(request.filters@),
                    listing_of::<u64>(self@.items.dom()),
                );
                match r {
                    Err(e) => spec_counts == Err::<(Seq<nat>, nat), ErrorV>(e@),
                    Ok((c, n)) => spec_counts == Ok::<(Seq<nat>, nat), ErrorV>(
                        (nats(c@), n as nat),
                    ) && c@.len() == request.buckets@.len(),
                }
            }),
    {
        let ids = self.all_ids();
        let ghost fs = filters_v(request.filters@);
        let mut counts = zeros(request.buckets.len());
        let mut nulls: u64 = 0;
        let mut i: usize = 0;
        assert(ids@.take(0) =~= Seq::<ItemId>::empty());
        while i < ids.len()
            invariant
                i <= ids@.len(),
                fs == filters_v(request.filters@),
                ids@ == listing_of::<u64>(self@.items.dom()),
                ids@.to_set() == self@.items.dom(),
                counts@.len() == request.buckets@.len(),
                nulls <= i,
                forall|k: int| 0 <= k < counts@.len() ==> counts@[k] <= i,
                bucketed(
                    self@.items,
                    request.buckets@,
                    request.field@,
                    index_type,
                    fs,
                    ids@.take(i as int),
                ) == Ok::<(Seq<nat>, nat), ErrorV>((nats(counts@), nulls as nat)),
            decreases ids@.len() - i,
        {
            let id = ids[i];
            proof {
                assert(ids@.take(i as int + 1).drop_last() =~= ids@.take(i as int));
                assert(ids@.take(i as int + 1).last() == id);
                assert(ids@.to_set().contains(id));
            }
            match self.record(id) {
                None => {},
                Some(rec) => match &rec.entity_document {
                    None => {},
                    Some(e) => match matches_filters_on_entity(&e.document, &request.filters) {
                        Err(x) => {
                            proof {
                                lemma_bucketed_stops(
                                    self@.items,
                                    request.buckets@,
                                    request.field@,
                                    index_type,
                                    fs,
                                    ids@,
                                    i as int + 1,
                                );
                            }
                            return Err(x);
                        },
                        Ok(false) => {},
                        Ok(true) => match typed_value_for_field(
                            &e.document,
                            request.field.as_str(),
                            index_type,
                        ) {
                            Err(x) => {
                                proof {
                                    lemma_bucketed_stops(
                                        self@.items,
                                        request.buckets@,
                                        request.field@,
                                        index_type,
                                        fs,
                                        ids@,
                                        i as int + 1,
                                    );
                                }
                                return Err(x);
                            },
                            Ok(None) => {
                                nulls = nulls + 1;
                            },
                            Ok(Some(v)) => {
                                let k = find_bucket(&request.buckets, &v);
                                if k < request.buckets.len() {
                                    let ghost before = counts@;
                                    assert(counts@[k as int] <= i);
                                    let n = counts[k] + 1;
                                    counts.set(k, n);
                                    assert(nats(counts@) =~= nats(before).update(
                                        k as int,
                                        n as nat,
                                    ));
                                }
                            },
                        },
                    },
                },
            }
            i = i + 1;
        }
        assert(ids@.take(i as int) =~= ids@);
        Ok((counts, nulls))
    }

    /// Counts the items that meet filters by declared buckets of a number, and those without one.
    pub fn declared_bucket_segment(&self, request: &DeclaredBucketSegmentRequest) -> (r: EngineResult<
        DeclaredBucketSegmentResponse,
    >)
        ensures
            (match r {
                Ok(x) => Ok(bucket_counts_v(x.buckets@)),
                Err(e) => Err(e@),
            }) == segmented(self@, *request),
    {
        if !request.well_formed {
            return Err(EngineError::Invalid("invalid request"));
        }
        let n = match find_typed_index(&self.typed_index_specs, &request.index) {
            Ok(n) => n,
            Err(e) => return Err(e),
        };
        let fields = &self.typed_index_specs[n].fields;
        assert(self@.typed_index_specs[n as int] == self.typed_index_specs@[n as int]@);
        let at = find_field(fields, request.field.as_str());
        if at >= fields.len() {
            return Err(EngineError::Invalid("unindexed-field"));
        }
        let index_type = fields[at].index_type;
        assert(index_fields_v(fields@)[at as int] == (fields@[at as int].field@, index_type));
        let numbers = match index_type {
            IndexType::Integer => true,
            IndexType::Float => true,
            _ => false,
        };
        if !numbers {
            return Err(EngineError::Invalid("unsupported bucket field"));
        }
        let (counts, nulls) = match self.count_buckets(request, index_type) {
            Ok(c) => c,
            Err(e) => return Err(e),
        };
        let ghost all = labelled(
            request.buckets@,
            nats(counts@),
            request.null_bucket_label@,
            nulls as nat,
        );
        let mut buckets: Vec<BucketCount> = Vec::new();
        let mut i: usize = 0;
        assert(bucket_counts_v(buckets@) =~= all.take(0));
        while i < request.buckets.len()
            invariant
                i <= request.buckets@.len(),
                counts@.len() == request.buckets@.len(),
                all == labelled(
                    request.buckets@,
                    nats(counts@),
                    request.null_bucket_label@,
                    nulls as nat,
                ),
                bucket_counts_v(buckets@) == all.take(i as int),
            decreases request.buckets@.len() - i,
        {
            let ghost before = buckets@;
            let b = BucketCount { label: request.buckets[i].label.clone(), count: counts[i] };
            buckets.push(b);
            assert(bucket_counts_v(buckets@) =~= bucket_counts_v(before).push(
                (b.label@, b.count as nat),
            ));
            assert(all.take(i as int + 1) =~= all.take(i as int).push(all[i as int]));
            i = i + 1;
        }
        let ghost before = buckets@;
        let last = BucketCount { label: request.null_bucket_label.clone(), count: nulls };
        buckets.push(last);
        assert(bucket_counts_v(buckets@) =~= bucket_counts_v(before).push(
            (last.label@, last.count as nat),
        ));
        assert(bucket_counts_v(buckets@) =~= all);
        Ok(DeclaredBucketSegmentResponse { buckets })
    }
}

} // verus!
