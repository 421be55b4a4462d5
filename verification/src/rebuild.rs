//! A projection to query, rebuilt from the keys of one typed index.

use crate::encoding::{be_value, lower_i64, read_be, text_from_utf8};
use crate::image::{ImageItemV, ProjectionImage, ProjectionImageItem, copy_index_specs, copy_typed_index, fresh, image_base, image_items_v, restore_each, typed_kinds_of};
use crate::json::{Json, JsonV, json_members, lemma_object_view, member, set_member, with_member};
use crate::model::{Model, run};
use crate::mutation::{FaultV, PlanFault};
use crate::order::{OrdMap, OrdSet};
use crate::planning::{resolve_entity, resolved_entity};
use crate::projection::{ProjectionData, side_v};
use crate::queries::{component_at, slice_of};
use crate::scan::{find_typed_index, typed_named};
use crate::text::{decimal, lemma_next_of, numeral, opt_text, pieces, split, texts};
use crate::typed::{floor_div, json_of_typed, json_outcome, typed_value_to_json};
use crate::types::{EngineError, EngineResult, Entity, EntityV, ErrorV, FieldMap, IndexField, IndexType, ItemId, ItemState, Metadata, QueueDefinition, QueueIndex, QueueIndexV, QueueMetrics, TypedV, TypedValue, UtcTimestamp, epoch_start, field_bytes, index_fields_v, metadata_of, specs_v, typed_specs_v};
use std::sync::Arc;
use vstd::prelude::*;
use vstd::string::*;

verus! {

/// The value that a component of an index key stands for.
pub open spec fn decoded_component(b: Seq<u8>, t: IndexType) -> Option<TypedV> {
    match t {
        IndexType::String => if vstd::utf8::valid_utf8(b) {
            Some(TypedV::String(vstd::utf8::decode_utf8(b)))
        } else {
            None
        },
        IndexType::Integer => if b.len() == 8 {
            Some(TypedV::Integer((be_value(b) - 0x8000_0000_0000_0000) as i64))
        } else {
            None
        },
        IndexType::Float => if b.len() == 8 {
            Some(
                TypedV::Float(
                    if be_value(b) >= 0x8000_0000_0000_0000 {
                        (be_value(b) - 0x8000_0000_0000_0000) as u64
                    } else {
                        (0xffff_ffff_ffff_ffff - be_value(b)) as u64
                    },
                ),
            )
        } else {
            None
        },
        IndexType::Boolean => if b.len() == 1 && b[0] <= 1 {
            Some(TypedV::Bool(b[0] == 1))
        } else {
            None
        },
        IndexType::Datetime => if b.len() == 8 {
            let n = be_value(b) - 0x8000_0000_0000_0000;
            Some(
                TypedV::DateTime(
                    UtcTimestamp {
                        seconds: (n / 1_000_000_000) as i64,
                        nanoseconds: (n % 1_000_000_000) as u32,
                    },
                ),
            )
        } else {
            None
        },
    }
}

fn decode_component(bytes: Vec<u8>, t: IndexType) -> (r: Option<TypedValue>)
    ensures
        (match r {
            Some(v) => Some(v@),
            None => None,
        }) == decoded_component(bytes@, t),
{
    let n = bytes.len();
    match t {
        IndexType::String => match text_from_utf8(bytes) {
            Some(s) => Some(TypedValue::String(s)),
            None => None,
        },
        IndexType::Boolean => if n == 1 && bytes[0] <= 1 {
            Some(TypedValue::Bool(bytes[0] == 1))
        } else {
            None
        },
        _ => {
            if n != 8 {
                return None;
            }
            assert(bytes@.subrange(0, 8) =~= bytes@);
            let v = read_be(bytes.as_slice(), 0, 8);
            match t {
                IndexType::Integer => Some(TypedValue::Integer(lower_i64(v))),
                IndexType::Float => if v >= 0x8000_0000_0000_0000 {
                    Some(TypedValue::Float(v - 0x8000_0000_0000_0000))
                } else {
                    Some(TypedValue::Float(0xffff_ffff_ffff_ffff - v))
                },
                _ => {
                    let nanos = lower_i64(v);
                    let seconds = floor_div(nanos as i128, 1_000_000_000);
                    let rest = nanos as i128 - seconds * 1_000_000_000;
                    Some(
                        TypedValue::DateTime(
                            UtcTimestamp { seconds: seconds as i64, nanoseconds: rest as u32 },
                        ),
                    )
                },
            }
        },
    }
}

pub open spec fn members_v(j: JsonV) -> Seq<(Seq<char>, JsonV)> {
    match j {
        JsonV::Object(m) => m,
        _ => Seq::empty(),
    }
}

/// A document with a value at the end of a path of names. Objects that are missing on the way are made.
pub open spec fn with_path(j: JsonV, parts: Seq<Seq<char>>, value: JsonV) -> Option<JsonV>
    decreases parts.len(),
{
    if !(j is Object) || parts.len() == 0 {
        None
    } else if parts.len() == 1 {
        Some(JsonV::Object(with_member(members_v(j), parts[0], value)))
    } else {
        let child = match member(j, parts[0]) {
            Some(c) => c,
            None => JsonV::Object(Seq::empty()),
        };
        match with_path(child, parts.drop_first(), value) {
            None => None,
            Some(c) => Some(JsonV::Object(with_member(members_v(j), parts[0], c))),
        }
    }
}

/// A document with a value under a dotted name: both under the name itself, and at the end of its path.
pub open spec fn with_dotted(j: JsonV, path: Seq<char>, value: JsonV) -> Result<JsonV, ErrorV> {
    if !(j is Object) {
        Err(ErrorV::Storage("typed index entity is not an object"@))
    } else {
        match with_path(
            JsonV::Object(with_member(members_v(j), path, value)),
            pieces(path, '.', 0),
            value,
        ) {
            Some(d) => Ok(d),
            None => Err(ErrorV::Storage("overlapping typed index paths"@)),
        }
    }
}

fn put_member(j: &Json, name: &String, value: Json) -> (r: Option<Json>)
    ensures
        match r {
            Some(x) => j@ is Object && x@ == JsonV::Object(with_member(members_v(j@), name@, value@)),
            None => !(j@ is Object),
        },
{
    match j.duplicate() {
        Json::Object(m) => {
            proof {
                lemma_object_view(m);
            }
            let mut members = m;
            set_member(&mut members, name.clone(), value);
            proof {
                lemma_object_view(members);
            }
            Some(Json::Object(members))
        },
        _ => None,
    }
}

fn put_path(j: &Json, parts: &Vec<String>, from: usize, value: &Json) -> (r: Option<Json>)
    requires
        from < parts@.len(),
    ensures
        (match r {
            Some(x) => Some(x@),
            None => None,
        }) == with_path(j@, texts(parts@).skip(from as int), value@),
    decreases parts@.len() - from,
{
    let ghost rest = texts(parts@).skip(from as int);
    assert(rest[0] == parts@[from as int]@);
    let is_object = match j {
        Json::Object(_) => true,
        _ => false,
    };
    if !is_object {
        return None;
    }
    let n = parts.len();
    if from + 1 == n {
        return put_member(j, &parts[from], value.duplicate());
    }
    assert(rest.drop_first() =~= texts(parts@).skip(from as int + 1));
    let none: Vec<(String, Json)> = Vec::new();
    proof {
        lemma_object_view(none);
        assert(json_members(none@) =~= Seq::<(Seq<char>, JsonV)>::empty());
    }
    let empty = Json::Object(none);
    let child = match j.get(parts[from].as_str()) {
        Some(c) => c,
        None => &empty,
    };
    match put_path(child, parts, from + 1, value) {
        None => None,
        Some(c) => put_member(j, &parts[from], c),
    }
}

/// Puts a value under a dotted name.
pub fn insert_dotted(root: &Json, path: &String, value: &Json) -> (r: EngineResult<Json>)
    ensures
        json_outcome(r) == with_dotted(root@, path@, value@),
{
    let whole = match put_member(root, path, value.duplicate()) {
        Some(d) => d,
        None => return Err(
            EngineError::Storage("typed index entity is not an object".to_owned()),
        ),
    };
    let parts = split(path.as_str(), '.');
    proof {
        lemma_pieces_some(path@, '.', 0);
        assert(texts(parts@).skip(0) =~= texts(parts@));
    }
    match put_path(&whole, &parts, 0, value) {
        Some(d) => Ok(d),
        None => Err(EngineError::Storage("overlapping typed index paths".to_owned())),
    }
}

proof fn lemma_pieces_some(s: Seq<char>, c: char, from: int)
    requires
        0 <= from <= s.len(),
    ensures
        pieces(s, c, from).len() >= 1,
{
    lemma_next_of(s, c, from);
}

/// The document that a key stands for, from one of its fields on.
pub open spec fn document_from(
    fields: Seq<(Seq<char>, IndexType)>,
    key: Seq<u8>,
    at: int,
    doc: JsonV,
) -> Result<JsonV, ErrorV>
    decreases fields.len(),
{
    let bad = Err(ErrorV::Storage("invalid canonical index key"@));
    if fields.len() == 0 {
        if at == key.len() {
            Ok(doc)
        } else {
            bad
        }
    } else if at + 4 > key.len() || at + 4 + be_value(key.subrange(at, at + 4)) > key.len() {
        bad
    } else {
        let end = at + 4 + be_value(key.subrange(at, at + 4));
        match decoded_component(key.subrange(at + 4, end), fields[0].1) {
            None => bad,
            Some(v) => match json_of_typed(v) {
                Err(e) => Err(e),
                Ok(j) => match with_dotted(doc, fields[0].0, j) {
                    Err(e) => Err(e),
                    Ok(d) => document_from(fields.drop_first(), key, end, d),
                },
            },
        }
    }
}

/// The document that a key stands for. An item without a key has an empty one.
pub open spec fn key_document(
    fields: Seq<(Seq<char>, IndexType)>,
    key: Option<Seq<u8>>,
) -> Result<JsonV, ErrorV> {
    let empty = JsonV::Object(Seq::empty());
    match key {
        None => Ok(empty),
        Some(k) => document_from(fields, k, 0, empty),
    }
}

fn document_of(fields: &Vec<IndexField>, key: &Option<Vec<u8>>) -> (r: EngineResult<Json>)
    ensures
        json_outcome(r) == key_document(
            index_fields_v(fields@),
            match key {
                Some(k) => Some(k@),
                None => None,
            },
        ),
{
    let ghost all = index_fields_v(fields@);
    let none: Vec<(String, Json)> = Vec::new();
    proof {
        lemma_object_view(none);
        assert(json_members(none@) =~= Seq::<(Seq<char>, JsonV)>::empty());
    }
    let mut doc = Json::Object(none);
    let bytes = match key {
        None => return Ok(doc),
        Some(k) => k,
    };
    let ghost whole = document_from(all, bytes@, 0, doc@);
    let mut at: usize = 0;
    let mut i: usize = 0;
    assert(all.skip(0) =~= all);
    while i < fields.len()
        invariant
            i <= fields@.len(),
            at <= bytes@.len(),
            all == index_fields_v(fields@),
            whole == document_from(all.skip(i as int), bytes@, at as int, doc@),
            *key == Some(*bytes),
            whole == key_document(all, Some(bytes@)),
        decreases fields@.len() - i,
    {
        proof {
            assert(all.skip(i as int)[0] == (
                fields@[i as int].field@,
                fields@[i as int].index_type,
            ));
            assert(all.skip(i as int).drop_first() =~= all.skip(i as int + 1));
        }
        let end = match component_at(bytes, at) {
            Some(e) => e,
            None => return Err(
                EngineError::Storage("invalid canonical index key".to_owned()),
            ),
        };
        let typed = match decode_component(slice_of(bytes, at + 4, end), fields[i].index_type) {
            Some(v) => v,
            None => return Err(
                EngineError::Storage("invalid canonical index key".to_owned()),
            ),
        };
        let value = match typed_value_to_json(&typed) {
            Ok(j) => j,
            Err(e) => return Err(e),
        };
        match insert_dotted(&doc, &fields[i].field, &value) {
            Ok(d) => {
                doc = d;
            },
            Err(e) => return Err(e),
        }
        at = end;
        i = i + 1;
    }
    if at != bytes.len() {
        return Err(EngineError::Storage("invalid canonical index key".to_owned()));
    }
    Ok(doc)
}

/// The item of a row: pending, with the document that its key stands for.
pub open spec fn query_item(id: ItemId, seq: u64, entity: EntityV) -> ImageItemV {
    ImageItemV {
        item_id: id,
        client_item_key: "query-"@ + numeral(id as nat),
        priority: None,
        not_before: None,
        eligible_since: Some(epoch_start()),
        group_key: None,
        cohort_size: None,
        payload: None,
        fields: Map::empty(),
        metadata: Map::empty(),
        gate_keys: Seq::empty(),
        entity_document: Some(entity),
        state: ItemState::Pending,
        item_version: 1,
        attempt_count: 0,
        max_attempts: 1,
        created_seq: seq,
        lease_token: None,
        lease_expires_at: None,
        lease_is_cohort: false,
        worker_id: None,
        fenced: false,
        superseded: false,
        terminal_at: None,
        terminal_position: None,
    }
}

/// The items of the rows, in order.
pub open spec fn query_items(
    fields: Seq<(Seq<char>, IndexType)>,
    rows: Seq<(ItemId, Option<Vec<u8>>)>,
    known: Seq<Arc<Entity>>,
) -> Result<Seq<ImageItemV>, FaultV>
    decreases rows.len(),
{
    if rows.len() == 0 {
        Ok(Seq::empty())
    } else {
        let (id, key) = rows.last();
        match query_items(fields, rows.drop_last(), known) {
            Err(e) => Err(e),
            Ok(items) => match key_document(
                fields,
                match key {
                    Some(k) => Some(k@),
                    None => None,
                },
            ) {
                Err(e) => Err(FaultV::Failed(e)),
                Ok(d) => match resolved_entity(None, Some(d), known) {
                    Err(x) => Err(FaultV::Unknown(x)),
                    Ok(e) => Ok(
                        items.push(query_item(id, (rows.len() - 1) as u64, e->Some_0)),
                    ),
                },
            },
        }
    }
}

proof fn lemma_items_stop(
    fields: Seq<(Seq<char>, IndexType)>,
    rows: Seq<(ItemId, Option<Vec<u8>>)>,
    known: Seq<Arc<Entity>>,
    n: int,
)
    requires
        0 <= n <= rows.len(),
        query_items(fields, rows.take(n), known) is Err,
    ensures
        query_items(fields, rows, known) == query_items(fields, rows.take(n), known),
    decreases rows.len() - n,
{
    if n == rows.len() {
        assert(rows.take(n) =~= rows);
    } else {
        assert(rows.take(n + 1).drop_last() =~= rows.take(n));
        lemma_items_stop(fields, rows, known, n + 1);
    }
}

/// A queue of the definition with one typed index, and no items yet.
pub open spec fn query_base(d: QueueDefinition, index: QueueIndexV, n: nat) -> Model {
    let m = fresh(
        d.priority_model,
        d.ordering_mode,
        d.max_rank_error,
        d.recurrence,
        specs_v(d.secondary_indexes@),
    );
    Model {
        index_kinds: typed_kinds_of(m.index_kinds, seq![index]),
        typed_index_specs: seq![index],
        policy: d.eligibility_policy,
        next_seq: n as u64,
        ..m
    }
}

/// What rebuilding comes to.
pub open spec fn query_rebuilt(
    d: QueueDefinition,
    index: Option<Seq<char>>,
    rows: Seq<(ItemId, Option<Vec<u8>>)>,
    known: Seq<Arc<Entity>>,
) -> Result<Model, FaultV> {
    let specs = typed_specs_v(d.typed_indexes@);
    match typed_named(specs, index) {
        Err(e) => Err(FaultV::Failed(e)),
        Ok(at) => match query_items(specs[at].fields, rows, known) {
            Err(e) => Err(e),
            Ok(items) => {
                let (m, r) = run(query_base(d, specs[at], rows.len()), items, restore_each());
                match r {
                    Ok(_) => Ok(m),
                    Err(e) => Err(FaultV::Failed(e)),
                }
            },
        },
    }
}

fn item_of_row(id: ItemId, seq: u64, entity: Arc<Entity>) -> (r: ProjectionImageItem)
    ensures
        r@ == query_item(id, seq, entity@),
{
    let client_item_key = "query-".to_owned().concat(decimal(id).as_str());
    let fields: FieldMap = OrdMap::new();
    let metadata: Metadata = OrdMap::new();
    let gate_keys: Vec<String> = Vec::new();
    proof {
        assert(field_bytes(fields) =~= Map::<Seq<char>, Seq<u8>>::empty());
        assert(metadata_of(metadata) =~= Map::<Seq<char>, JsonV>::empty());
        assert(texts(gate_keys@) =~= Seq::<Seq<char>>::empty());
    }
    ProjectionImageItem {
        item_id: id,
        client_item_key,
        priority: None,
        not_before: None,
        eligible_since: Some(UtcTimestamp { seconds: 0, nanoseconds: 0 }),
        group_key: None,
        cohort_size: None,
        payload: None,
        fields: Arc::new(fields),
        metadata: Arc::new(metadata),
        gate_keys: Arc::new(gate_keys),
        entity_document: Some(entity),
        state: ItemState::Pending,
        item_version: 1,
        attempt_count: 0,
        max_attempts: 1,
        created_seq: seq,
        lease_token: None,
        lease_expires_at: None,
        lease_is_cohort: false,
        worker_id: None,
        fenced: false,
        superseded: false,
        terminal_at: None,
        terminal_position: None,
    }
}

/// Rebuilds what it takes to query one typed index from the keys that are stored for it. A row without a
/// key has no values. `known` holds the entities of documents whose keys have been worked out.
pub fn query_projection_from_index_keys(
    definition: &QueueDefinition,
    index_name: &Option<String>,
    records: &Vec<(ItemId, Option<Vec<u8>>)>,
    known: &Vec<Arc<Entity>>,
) -> (r: Result<ProjectionData, PlanFault>)
    ensures
        (match r {
            Ok(p) => Ok(p@),
            Err(e) => Err(e@),
        }) == query_rebuilt(*definition, opt_text(*index_name), records@, known@),
{
    let at = match find_typed_index(&definition.typed_indexes, index_name) {
        Ok(at) => at,
        Err(e) => return Err(PlanFault::Failed(e)),
    };
    let index = &definition.typed_indexes[at];
    let ghost specs = typed_specs_v(definition.typed_indexes@);
    assert(specs[at as int] == index@);
    let ghost all = index_fields_v(index.fields@);
    let mut items: Vec<ProjectionImageItem> = Vec::new();
    let mut i: usize = 0;
    assert(records@.take(0) =~= Seq::<(ItemId, Option<Vec<u8>>)>::empty());
    assert(image_items_v(items@) =~= Seq::<ImageItemV>::empty());
    while i < records.len()
        invariant
            i <= records@.len(),
            all == index_fields_v(index.fields@),
            specs == typed_specs_v(definition.typed_indexes@),
            specs[at as int].fields == all,
            typed_named(specs, opt_text(*index_name)) == Ok::<int, ErrorV>(at as int),
            items@.len() == i,
            query_items(all, records@.take(i as int), known@) == Ok::<Seq<ImageItemV>, FaultV>(
                image_items_v(items@),
            ),
        decreases records@.len() - i,
    {
        proof {
            assert(records@.take(i as int + 1).drop_last() =~= records@.take(i as int));
            assert(records@.take(i as int + 1).last() == records@[i as int]);
            if query_items(all, records@.take(i as int + 1), known@) is Err {
                lemma_items_stop(all, records@, known@, i as int + 1);
            }
        }
        let doc = match document_of(&index.fields, &records[i].1) {
            Ok(d) => d,
            Err(e) => return Err(PlanFault::Failed(e)),
        };
        let entity = match resolve_entity(&None, Some(doc), known) {
            Err(d) => return Err(PlanFault::Unknown(d)),
            Ok(e) => e,
        };
        match entity {
            None => {},
            Some(e) => {
                let ghost before = items@;
                let item = item_of_row(records[i].0, i as u64, e);
                items.push(item);
                assert(image_items_v(items@) =~= image_items_v(before).push(item@));
            },
        }
        i = i + 1;
    }
    assert(records@.take(i as int) =~= records@);
    let n = items.len() as u64;
    let mut one: Vec<QueueIndex> = Vec::new();
    one.push(copy_typed_index(index));
    let query_definition = QueueDefinition {
        priority_model: definition.priority_model,
        ordering_mode: definition.ordering_mode,
        max_rank_error: definition.max_rank_error,
        recurrence: definition.recurrence,
        eligibility_policy: definition.eligibility_policy,
        cohort_completion_bound_ms: definition.cohort_completion_bound_ms,
        request_id_retention_ms: definition.request_id_retention_ms,
        client_item_key_retention_ms: definition.client_item_key_retention_ms,
        terminal_retention_ms: definition.terminal_retention_ms,
        secondary_indexes: copy_index_specs(&definition.secondary_indexes),
        typed_indexes: one,
    };
    let image = ProjectionImage {
        high_water: None,
        paused: false,
        pause_drain_intake: false,
        blocked_gates: OrdSet::new(),
        next_seq: n,
        items,
        side_records: OrdMap::new(),
        instance_fences: OrdMap::new(),
        metrics: QueueMetrics::none(),
    };
    proof {
        assert(typed_specs_v(query_definition.typed_indexes@) =~= seq![index@]);
        assert(side_v(image.side_records@) =~= Map::<Seq<u8>, Seq<u8>>::empty());
        assert(image.instance_fences@ =~= Map::<Seq<u8>, u64>::empty());
        assert(image.blocked_gates@ =~= Set::<Seq<char>>::empty());
        assert(image_base(query_definition, image) == query_base(
            *definition,
            specs[at as int],
            records@.len(),
        ));
    }
    match ProjectionData::from_image(&query_definition, &image) {
        Ok(p) => Ok(p),
        Err(e) => Err(PlanFault::Failed(e)),
    }
}

} // verus!
