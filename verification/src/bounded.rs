//! Mutations of all items that meet a condition on a typed index.

use crate::indexing::{IndexKeyV, index_checked, open_to_update, reserved};
use crate::item::ItemRecord;
use crate::json::{Json, JsonV, json_members, lemma_object_view, set_member, with_member};
use crate::model::{Model, index_keys, room, run, update_each, updated_ids};
use crate::mutation::{FaultV, PlanFault};
use crate::order::{OrdMap, lemma_ascending_distinct, listing_of};
use crate::planning::{doc_of, resolve_entity, resolved_entity};
use crate::projection::{ProjectionData, copy_fields, copy_key};
use crate::scan::{RowV, find_typed_index, lemma_found_stops, range_scan_matches, range_scan_row, rows_found, typed_named};
use crate::shared::{bytes_of, bytes_share};
use crate::text::opt_text;
use crate::typed::{QueryFilter, filters_v, json_of_typed, json_outcome, typed_value_to_json};
use crate::types::{EngineError, EngineResult, Entity, EntityV, ErrorV, FieldMap, IndexField, ItemId, ItemState, NotBeforeUpdate, PayloadUpdate, PriorityUpdate, QueueCommand, TypedValue, UpdateFieldsCommand, field_bytes, index_fields_v, keys_view, opt_doc};
use bytes::Bytes;
use std::sync::Arc;
use vstd::prelude::*;

verus! {

/// A field to set, with the bytes that its value is stored as, or why there are none.
pub struct SetField {
    pub name: String,
    pub value: TypedValue,
    pub stored: Result<Bytes, String>,
}

pub struct BoundedMutationRequest {
    pub index: Option<String>,
    pub filters: Vec<QueryFilter>,
    pub set_fields: Vec<SetField>,
    pub max_scan_rows: u32,
}

#[derive(Clone, Copy, PartialEq, Eq, Structural, Debug)]
pub enum MutationOutcome {
    NotFound,
    Conflict,
    Updated,
}

#[derive(Clone, Copy, PartialEq, Eq, Structural, Debug)]
pub struct MutationResult {
    pub item_id: ItemId,
    pub outcome: MutationOutcome,
}

pub struct BoundedMutationResponse {
    pub results: Vec<MutationResult>,
}

/// An update, and the version that the item must still have.
pub struct BoundedMutationUpdate {
    pub command: UpdateFieldsCommand,
    pub expected_item_version: u64,
}

pub struct BoundedMutationPlan {
    pub response: BoundedMutationResponse,
    pub updates: Vec<BoundedMutationUpdate>,
}

pub ghost struct BoundedUpdateV {
    pub item_id: ItemId,
    pub entity: EntityV,
    pub fields: Map<Seq<char>, Seq<u8>>,
    pub version: u64,
}

/// The command sets the document and the fields, and nothing else.
pub open spec fn sets_only(c: UpdateFieldsCommand, v: BoundedUpdateV) -> bool {
    &&& c.item_id == v.item_id
    &&& c.client_item_key is None
    &&& c.expected_item_version is None
    &&& c.field_ops@.len() == 0
    &&& c.payload is Keep
    &&& c.set_priority is Keep
    &&& c.set_not_before is Keep
    &&& c.set_entity_document is Some
    &&& c.set_entity_document->Some_0@ == v.entity
    &&& c.set_fields is Some
    &&& field_bytes(*c.set_fields->Some_0) == v.fields
    &&& c.set_metadata is None
    &&& c.set_gate_keys is None
    &&& !c.api001_batch
}

pub open spec fn updates_say(us: Seq<BoundedMutationUpdate>, vs: Seq<BoundedUpdateV>) -> bool {
    us.len() == vs.len() && forall|k: int|
        0 <= k < us.len() ==> sets_only((#[trigger] us[k]).command, vs[k])
            && us[k].expected_item_version == vs[k].version
}

/// A document with fields set.
pub open spec fn merged_document(doc: Option<JsonV>, sets: Seq<SetField>) -> Result<JsonV, ErrorV>
    decreases sets.len(),
{
    if sets.len() == 0 {
        match doc {
            None => Ok(JsonV::Object(Seq::empty())),
            Some(JsonV::Object(m)) => Ok(JsonV::Object(m)),
            Some(_) => Err(ErrorV::Invalid("typed index entity is not an object"@)),
        }
    } else {
        match merged_document(doc, sets.drop_last()) {
            Err(e) => Err(e),
            Ok(d) => match json_of_typed(sets.last().value@) {
                Err(e) => Err(e),
                Ok(j) => Ok(JsonV::Object(with_member(d->Object_0, sets.last().name@, j))),
            },
        }
    }
}

proof fn lemma_merged_stops(doc: Option<JsonV>, sets: Seq<SetField>, n: int)
    requires
        0 <= n <= sets.len(),
        merged_document(doc, sets.take(n)) is Err,
    ensures
        merged_document(doc, sets) == merged_document(doc, sets.take(n)),
    decreases sets.len() - n,
{
    if n == sets.len() {
        assert(sets.take(n) =~= sets);
    } else {
        assert(sets.take(n + 1).drop_last() =~= sets.take(n));
        lemma_merged_stops(doc, sets, n + 1);
    }
}

/// Fields with values set.
pub open spec fn merged_fields(
    fields: Map<Seq<char>, Seq<u8>>,
    sets: Seq<SetField>,
) -> Result<Map<Seq<char>, Seq<u8>>, ErrorV>
    decreases sets.len(),
{
    if sets.len() == 0 {
        Ok(fields)
    } else {
        match merged_fields(fields, sets.drop_last()) {
            Err(e) => Err(e),
            Ok(f) => match sets.last().stored {
                Err(t) => Err(ErrorV::Storage(t@)),
                Ok(b) => Ok(f.insert(sets.last().name@, bytes_of(b))),
            },
        }
    }
}

proof fn lemma_merged_fields_stop(fields: Map<Seq<char>, Seq<u8>>, sets: Seq<SetField>, n: int)
    requires
        0 <= n <= sets.len(),
        merged_fields(fields, sets.take(n)) is Err,
    ensures
        merged_fields(fields, sets) == merged_fields(fields, sets.take(n)),
    decreases sets.len() - n,
{
    if n == sets.len() {
        assert(sets.take(n) =~= sets);
    } else {
        assert(sets.take(n + 1).drop_last() =~= sets.take(n));
        lemma_merged_fields_stop(fields, sets, n + 1);
    }
}

pub fn merge_entity_document(entity: &Option<Arc<Entity>>, set_fields: &Vec<SetField>) -> (r:
    EngineResult<Json>)
    ensures
        json_outcome(r) == merged_document(doc_of(opt_doc(*entity)), set_fields@),
{
    let ghost start = doc_of(opt_doc(*entity));
    let none: Vec<(String, Json)> = Vec::new();
    proof {
        lemma_object_view(none);
        assert(json_members(none@) =~= Seq::<(Seq<char>, JsonV)>::empty());
        assert(set_fields@.take(0) =~= Seq::<SetField>::empty());
    }
    let mut members = match entity {
        None => none,
        Some(e) => match e.document.duplicate() {
            Json::Object(m) => {
                proof {
                    lemma_object_view(m);
                }
                m
            },
            _ => {
                proof {
                    lemma_merged_stops(start, set_fields@, 0);
                }
                return Err(EngineError::Invalid("typed index entity is not an object"));
            },
        },
    };
    let mut i: usize = 0;
    while i < set_fields.len()
        invariant
            i <= set_fields@.len(),
            start == doc_of(opt_doc(*entity)),
            merged_document(start, set_fields@.take(i as int)) == Ok::<JsonV, ErrorV>(
                JsonV::Object(json_members(members@)),
            ),
        decreases set_fields@.len() - i,
    {
        proof {
            assert(set_fields@.take(i as int + 1).drop_last() =~= set_fields@.take(i as int));
            assert(set_fields@.take(i as int + 1).last() == set_fields@[i as int]);
        }
        match typed_value_to_json(&set_fields[i].value) {
            Ok(j) => {
                set_member(&mut members, set_fields[i].name.clone(), j);
            },
            Err(e) => {
                proof {
                    lemma_merged_stops(start, set_fields@, i as int + 1);
                }
                return Err(e);
            },
        }
        i = i + 1;
    }
    proof {
        assert(set_fields@.take(i as int) =~= set_fields@);
        lemma_object_view(members);
    }
    Ok(Json::Object(members))
}

pub fn merge_field_bytes(fields: &FieldMap, set_fields: &Vec<SetField>) -> (r: EngineResult<FieldMap>)
    ensures
        (match r {
            Ok(f) => Ok(field_bytes(f)),
            Err(e) => Err(e@),
        }) == merged_fields(field_bytes(*fields), set_fields@),
{
    let ghost start = field_bytes(*fields);
    let mut out = copy_fields(fields);
    let mut i: usize = 0;
    assert(set_fields@.take(0) =~= Seq::<SetField>::empty());
    while i < set_fields.len()
        invariant
            i <= set_fields@.len(),
            start == field_bytes(*fields),
            merged_fields(start, set_fields@.take(i as int)) == Ok::<
                Map<Seq<char>, Seq<u8>>,
                ErrorV,
            >(field_bytes(out)),
        decreases set_fields@.len() - i,
    {
        proof {
            assert(set_fields@.take(i as int + 1).drop_last() =~= set_fields@.take(i as int));
            assert(set_fields@.take(i as int + 1).last() == set_fields@[i as int]);
        }
        match &set_fields[i].stored {
            Err(t) => {
                proof {
                    lemma_merged_fields_stop(start, set_fields@, i as int + 1);
                }
                return Err(EngineError::Storage(t.clone()));
            },
            Ok(b) => {
                let ghost before = out;
                out.insert(set_fields[i].name.clone(), bytes_share(b));
                assert(field_bytes(out) =~= field_bytes(before).insert(
                    set_fields@[i as int].name@,
                    bytes_of(*b),
                ));
            },
        }
        i = i + 1;
    }
    assert(set_fields@.take(i as int) =~= set_fields@);
    Ok(out)
}

/// What the rows come to so far: a result for each, the updates, and the unique keys spoken for.
pub ghost struct BoundedV {
    pub results: Seq<MutationResult>,
    pub updates: Seq<BoundedUpdateV>,
    pub held: Map<IndexKeyV, ItemId>,
}

/// The update of an item that may be changed.
pub open spec fn bounded_update(
    m: Model,
    id: ItemId,
    sets: Seq<SetField>,
    known: Seq<Arc<Entity>>,
) -> Result<(BoundedUpdateV, Seq<IndexKeyV>), FaultV> {
    let i = m.items[id];
    match merged_document(doc_of(i.entity), sets) {
        Err(e) => Err(FaultV::Failed(e)),
        Ok(d) => match merged_fields(i.fields, sets) {
            Err(e) => Err(FaultV::Failed(e)),
            Ok(fields) => match resolved_entity(i.entity, Some(d), known) {
                Err(x) => Err(FaultV::Unknown(x)),
                Ok(entity) => match index_checked(m, id, fields, entity, None) {
                    Err(e) => Err(FaultV::Failed(e)),
                    Ok(_) => Ok(
                        (
                            BoundedUpdateV {
                                item_id: id,
                                entity: entity->Some_0,
                                fields,
                                version: i.item_version,
                            },
                            index_keys(m, fields, entity)->Ok_0,
                        ),
                    ),
                },
            },
        },
    }
}

pub open spec fn bounded_plan(
    m: Model,
    sets: Seq<SetField>,
    ids: Seq<ItemId>,
    known: Seq<Arc<Entity>>,
) -> Result<BoundedV, FaultV>
    decreases ids.len(),
{
    if ids.len() == 0 {
        Ok(BoundedV { results: Seq::empty(), updates: Seq::empty(), held: Map::empty() })
    } else {
        let id = ids.last();
        let refused = MutationResult { item_id: id, outcome: MutationOutcome::Conflict };
        match bounded_plan(m, sets, ids.drop_last(), known) {
            Err(e) => Err(e),
            Ok(t) => if !open_to_update(m, id) {
                Ok(BoundedV { results: t.results.push(refused), ..t })
            } else {
                match bounded_update(m, id, sets, known) {
                    Err(e) => Err(e),
                    Ok((u, keys)) => match reserved(m, t.held, id, keys) {
                        None => Ok(BoundedV { results: t.results.push(refused), ..t }),
                        Some(h) => Ok(
                            BoundedV {
                                results: t.results.push(
                                    MutationResult {
                                        item_id: id,
                                        outcome: MutationOutcome::Updated,
                                    },
                                ),
                                updates: t.updates.push(u),
                                held: h,
                            },
                        ),
                    },
                }
            },
        }
    }
}

proof fn lemma_bounded_stops(
    m: Model,
    sets: Seq<SetField>,
    ids: Seq<ItemId>,
    known: Seq<Arc<Entity>>,
    n: int,
)
    requires
        0 <= n <= ids.len(),
        bounded_plan(m, sets, ids.take(n), known) is Err,
    ensures
        bounded_plan(m, sets, ids, known) == bounded_plan(m, sets, ids.take(n), known),
    decreases ids.len() - n,
{
    if n == ids.len() {
        assert(ids.take(n) =~= ids);
    } else {
        assert(ids.take(n + 1).drop_last() =~= ids.take(n));
        lemma_bounded_stops(m, sets, ids, known, n + 1);
    }
}

pub open spec fn row_ids(rows: Seq<RowV>) -> Seq<ItemId> {
    rows.map_values(|r: RowV| r.item_id)
}

/// What a bounded mutation comes to.
pub open spec fn bounded(m: Model, q: BoundedMutationRequest, known: Seq<Arc<Entity>>) -> Result<
    BoundedV,
    FaultV,
> {
    if q.max_scan_rows == 0 {
        Err(FaultV::Failed(ErrorV::Invalid("invalid page size"@)))
    } else {
        match typed_named(m.typed_index_specs, opt_text(q.index)) {
            Err(e) => Err(FaultV::Failed(e)),
            Ok(at) => match rows_found(
                m.items,
                m.typed_index_specs[at].fields,
                filters_v(q.filters@),
                listing_of::<u64>(m.items.dom()),
            ) {
                Err(e) => Err(FaultV::Failed(e)),
                Ok(rows) => bounded_plan(m, q.set_fields@, row_ids(rows), known),
            },
        }
    }
}

impl ProjectionData {
    /// The items whose rows meet the filters, by identifier.
    fn rows_meeting(&self, fields: &Vec<IndexField>, filters: &Vec<QueryFilter>) -> (r: EngineResult<
        Vec<ItemId>,
    >)
        ensures
            ({
                let found = rows_found(
                    self@.items,
                    index_fields_v(fields@),
                    filters_v(filters@),
                    listing_of::<u64>(self@.items.dom()),
                );
                match r {
                    Err(e) => found == Err::<Seq<RowV>, ErrorV>(e@),
                    Ok(ids) => found is Ok && ids@ == row_ids(found->Ok_0) && ids@.len()
                        <= self@.items.dom().len() && forall|k: int|
                        0 <= k < ids@.len() ==> self@.items.contains_key(#[trigger] ids@[k]),
                }
            }),
    {
        let ghost all = index_fields_v(fields@);
        let ghost fs = filters_v(filters@);
        let ids = self.all_ids();
        let mut out: Vec<ItemId> = Vec::new();
        let mut i: usize = 0;
        assert(ids@.take(0) =~= Seq::<ItemId>::empty());
        proof {
            lemma_ascending_distinct::<u64>(ids@);
            ids@.unique_seq_to_set();
            assert(out@ =~= row_ids(Seq::<RowV>::empty()));
        }
        while i < ids.len()
            invariant
                i <= ids@.len(),
                all == index_fields_v(fields@),
                fs == filters_v(filters@),
                ids@ == listing_of::<u64>(self@.items.dom()),
                ids@.to_set() == self@.items.dom(),
                rows_found(self@.items, all, fs, ids@.take(i as int)) is Ok,
                out@ == row_ids(rows_found(self@.items, all, fs, ids@.take(i as int))->Ok_0),
                out@.len() <= i,
                forall|k: int|
                    0 <= k < out@.len() ==> self@.items.contains_key(#[trigger] out@[k]),
            decreases ids@.len() - i,
        {
            let id = ids[i];
            let ghost so_far = rows_found(self@.items, all, fs, ids@.take(i as int))->Ok_0;
            proof {
                assert(ids@.take(i as int + 1).drop_last() =~= ids@.take(i as int));
                assert(ids@.take(i as int + 1).last() == id);
                assert(ids@.to_set().contains(id));
                if rows_found(self@.items, all, fs, ids@.take(i as int + 1)) is Err {
                    lemma_found_stops(self@.items, all, fs, ids@, i as int + 1);
                }
            }
            match self.record(id) {
                None => {},
                Some(rec) => match &rec.entity_document {
                    None => {},
                    Some(entity) => match range_scan_row(fields, id, &entity.document) {
                        Err(e) => return Err(e),
                        Ok(None) => {},
                        Ok(Some(row)) => match range_scan_matches(fields, filters, &row) {
                            Err(e) => return Err(e),
                            Ok(false) => {},
                            Ok(true) => {
                                assert(row_ids(so_far.push(row@)) =~= row_ids(so_far).push(id));
                                out.push(id);
                            },
                        },
                    },
                },
            }
            i = i + 1;
        }
        assert(ids@.take(i as int) =~= ids@);
        Ok(out)
    }

    fn plan_update(&self, rec: &ItemRecord, id: ItemId, set_fields: &Vec<SetField>, known: &Vec<
        Arc<Entity>,
    >) -> (r: Result<(BoundedMutationUpdate, Vec<(String, Vec<u8>)>), PlanFault>)
        requires
            self@.items.contains_key(id),
            self@.items[id] == rec@,
        ensures
            ({
                let plan = bounded_update(self@, id, set_fields@, known@);
                match r {
                    Err(e) => plan == Err::<(BoundedUpdateV, Seq<IndexKeyV>), FaultV>(e@),
                    Ok((u, keys)) => plan is Ok && sets_only(u.command, plan->Ok_0.0)
                        && u.expected_item_version == plan->Ok_0.0.version && keys_view(keys@)
                        == plan->Ok_0.1,
                }
            }),
    {
        let doc = match merge_entity_document(&rec.entity_document, set_fields) {
            Ok(d) => d,
            Err(e) => return Err(PlanFault::Failed(e)),
        };
        let fields = match merge_field_bytes(&rec.fields, set_fields) {
            Ok(f) => f,
            Err(e) => return Err(PlanFault::Failed(e)),
        };
        let entity = match resolve_entity(&rec.entity_document, Some(doc), known) {
            Ok(e) => e,
            Err(d) => return Err(PlanFault::Unknown(d)),
        };
        match self.index_validate_with_entity(id, &fields, &entity, None) {
            Ok(_) => {},
            Err(e) => return Err(PlanFault::Failed(e)),
        }
        let keys = match self.record_index_keys(&fields, &entity) {
            Ok(k) => k,
            Err(e) => return Err(PlanFault::Failed(e)),
        };
        let command = UpdateFieldsCommand {
            item_id: id,
            client_item_key: None,
            expected_item_version: None,
            field_ops: Vec::new(),
            payload: PayloadUpdate::Keep,
            set_priority: PriorityUpdate::Keep,
            set_not_before: NotBeforeUpdate::Keep,
            set_entity_document: entity,
            set_fields: Some(Arc::new(fields)),
            set_metadata: None,
            set_gate_keys: None,
            api001_batch: false,
        };
        Ok(
            (BoundedMutationUpdate { command, expected_item_version: rec.item_version }, keys),
        )
    }

    /// Plans an update of every item whose row meets the filters, without changing anything. Items that
    /// are not open to updates, and those that would collide with an earlier one, are conflicts.
    pub fn plan_bounded_mutation(
        &self,
        request: &BoundedMutationRequest,
        known: &Vec<Arc<Entity>>,
    ) -> (r: Result<BoundedMutationPlan, PlanFault>)
        ensures
            match r {
                Err(e) => bounded(self@, *request, known@) == Err::<BoundedV, FaultV>(e@),
                Ok(plan) => bounded(self@, *request, known@) is Ok && plan.response.results@
                    == bounded(self@, *request, known@)->Ok_0.results && updates_say(
                    plan.updates@,
                    bounded(self@, *request, known@)->Ok_0.updates,
                ) && plan.updates@.len() <= self@.items.dom().len(),
            },
    {
        if request.max_scan_rows == 0 {
            return Err(PlanFault::Failed(EngineError::Invalid("invalid page size")));
        }
        let at = match find_typed_index(&self.typed_index_specs, &request.index) {
            Ok(at) => at,
            Err(e) => return Err(PlanFault::Failed(e)),
        };
        let fields = &self.typed_index_specs[at].fields;
        assert(self@.typed_index_specs[at as int] == self.typed_index_specs@[at as int]@);
        let ids = match self.rows_meeting(fields, &request.filters) {
            Ok(ids) => ids,
            Err(e) => return Err(PlanFault::Failed(e)),
        };
        let ghost sets = request.set_fields@;
        let mut results: Vec<MutationResult> = Vec::new();
        let mut updates: Vec<BoundedMutationUpdate> = Vec::new();
        let mut held: OrdMap<(String, Vec<u8>), ItemId> = OrdMap::new();
        let mut i: usize = 0;
        assert(ids@.take(0) =~= Seq::<ItemId>::empty());
        while i < ids.len()
            invariant
                i <= ids@.len(),
                sets == request.set_fields@,
                ids@.len() <= self@.items.dom().len(),
                forall|k: int|
                    0 <= k < ids@.len() ==> self@.items.contains_key(#[trigger] ids@[k]),
                bounded(self@, *request, known@) == bounded_plan(self@, sets, ids@, known@),
                bounded_plan(self@, sets, ids@.take(i as int), known@) is Ok,
                results@ == bounded_plan(self@, sets, ids@.take(i as int), known@)->Ok_0.results,
                held@ == bounded_plan(self@, sets, ids@.take(i as int), known@)->Ok_0.held,
                updates_say(
                    updates@,
                    bounded_plan(self@, sets, ids@.take(i as int), known@)->Ok_0.updates,
                ),
                updates@.len() <= i,
            decreases ids@.len() - i,
        {
            let id = ids[i];
            let ghost was = bounded_plan(self@, sets, ids@.take(i as int), known@)->Ok_0;
            proof {
                assert(self@.items.contains_key(ids@[i as int]));
                assert(ids@.take(i as int + 1).drop_last() =~= ids@.take(i as int));
                assert(ids@.take(i as int + 1).last() == id);
                if bounded_plan(self@, sets, ids@.take(i as int + 1), known@) is Err {
                    lemma_bounded_stops(self@, sets, ids@, known@, i as int + 1);
                }
            }
            match self.record(id) {
                None => {},
                Some(rec) => {
                    let pending = match rec.state {
                        ItemState::Pending => true,
                        _ => false,
                    };
                    if !pending || rec.fenced || rec.superseded {
                        results.push(
                            MutationResult { item_id: id, outcome: MutationOutcome::Conflict },
                        );
                    } else {
                        let (update, keys) = match self.plan_update(
                            rec,
                            id,
                            &request.set_fields,
                            known,
                        ) {
                            Ok(p) => p,
                            Err(e) => return Err(e),
                        };
                        let mut trial = copy_held(&held);
                        if !self.reserve(&mut trial, id, &keys) {
                            results.push(
                                MutationResult {
                                    item_id: id,
                                    outcome: MutationOutcome::Conflict,
                                },
                            );
                        } else {
                            held = trial;
                            let ghost before = updates@;
                            updates.push(update);
                            proof {
                                let now = bounded_plan(
                                    self@,
                                    sets,
                                    ids@.take(i as int + 1),
                                    known@,
                                )->Ok_0.updates;
                                assert forall|k: int| 0 <= k < updates@.len() implies sets_only(
                                    (#[trigger] updates@[k]).command,
                                    now[k],
                                ) && updates@[k].expected_item_version == now[k].version by {
                                    if k < before.len() {
                                        assert(updates@[k] == before[k]);
                                    }
                                }
                            }
                            results.push(
                                MutationResult { item_id: id, outcome: MutationOutcome::Updated },
                            );
                        }
                    }
                },
            }
            i = i + 1;
        }
        assert(ids@.take(i as int) =~= ids@);
        Ok(BoundedMutationPlan { response: BoundedMutationResponse { results }, updates })
    }

    /// Updates every item whose row meets the filters. What was done before a failure stays.
    pub fn bounded_mutation(
        &mut self,
        request: &BoundedMutationRequest,
        known: &Vec<Arc<Entity>>,
    ) -> (r: Result<BoundedMutationResponse, PlanFault>)
        requires
            bounded(old(self)@, *request, known@) is Ok ==> room(
                old(self)@,
                reached_ids(bounded(old(self)@, *request, known@)->Ok_0.updates).to_set(),
                bounded(old(self)@, *request, known@)->Ok_0.updates.len(),
            ),
        ensures
            match bounded(old(self)@, *request, known@) {
                Err(e) => final(self)@ == old(self)@ && r is Err && r->Err_0@ == e,
                Ok(plan) => exists|cs: Seq<UpdateFieldsCommand>|
                    #![trigger run(old(self)@, cs, update_each(None))]
                    carried_out(cs, plan.updates) && final(self)@ == run(
                        old(self)@,
                        cs,
                        update_each(None),
                    ).0 && (match run(old(self)@, cs, update_each(None)).1 {
                        Ok(_) => r is Ok && r->Ok_0.results@ == plan.results,
                        Err(e) => r is Err && r->Err_0@ == FaultV::Failed(e),
                    }),
            },
    {
        let plan = match self.plan_bounded_mutation(request, known) {
            Ok(p) => p,
            Err(e) => return Err(e),
        };
        let ghost vs = bounded(self@, *request, known@)->Ok_0.updates;
        let ghost all = plan.updates@;
        let mut rest = plan.updates;
        let mut backward: Vec<UpdateFieldsCommand> = Vec::new();
        let total = rest.len();
        while rest.len() > 0
            invariant
                rest@.len() + backward@.len() == all.len(),
                total == all.len(),
                rest@ == all.take(rest@.len() as int),
                forall|k: int|
                    0 <= k < backward@.len() ==> (#[trigger] backward@[k]) == all[all.len() - 1
                        - k].command,
            decreases rest@.len(),
        {
            match rest.pop() {
                Some(u) => {
                    backward.push(u.command);
                },
                None => {},
            }
        }
        let mut commands: Vec<UpdateFieldsCommand> = Vec::new();
        while backward.len() > 0
            invariant
                backward@.len() + commands@.len() == all.len(),
                forall|k: int|
                    0 <= k < backward@.len() ==> (#[trigger] backward@[k]) == all[all.len() - 1
                        - k].command,
                forall|k: int| 0 <= k < commands@.len() ==> (#[trigger] commands@[k]) == all[k].command,
            decreases backward@.len(),
        {
            match backward.pop() {
                Some(c) => {
                    commands.push(c);
                },
                None => {},
            }
        }
        let ghost start = self@;
        let command = QueueCommand::UpdateFieldsBatch(commands);
        proof {
            assert(carried_out(commands@, vs)) by {
                assert forall|k: int| 0 <= k < commands@.len() implies sets_only(
                    #[trigger] commands@[k],
                    vs[k],
                ) by {
                    assert(sets_only(all[k].command, vs[k]));
                }
            }
            assert(updated_ids(commands@) =~= reached_ids(vs)) by {
                assert forall|k: int| 0 <= k < commands@.len() implies #[trigger] updated_ids(
                    commands@,
                )[k] == reached_ids(vs)[k] by {
                    assert(sets_only(commands@[k], vs[k]));
                }
            }
        }
        match self.apply_command(&command) {
            Ok(_) => Ok(plan.response),
            Err(e) => Err(PlanFault::Failed(e)),
        }
    }
}

/// The items that some updates are of, in order.
pub open spec fn reached_ids(vs: Seq<BoundedUpdateV>) -> Seq<ItemId> {
    vs.map_values(|v: BoundedUpdateV| v.item_id)
}

/// The commands do what the updates say, in order.
pub open spec fn carried_out(cs: Seq<UpdateFieldsCommand>, vs: Seq<BoundedUpdateV>) -> bool {
    cs.len() == vs.len() && forall|k: int| 0 <= k < cs.len() ==> sets_only(#[trigger] cs[k], vs[k])
}

fn copy_held(m: &OrdMap<(String, Vec<u8>), ItemId>) -> (r: OrdMap<(String, Vec<u8>), ItemId>)
    ensures
        r@ == m@,
{
    let n = m.len();
    let ghost keys = m.listing();
    let mut out: OrdMap<(String, Vec<u8>), ItemId> = OrdMap::new();
    let mut i: usize = 0;
    while i < n
        invariant
            i <= n,
            n == keys.len(),
            n == m.values().len(),
            keys == m.listing(),
            forall|j: int|
                0 <= j < n ==> m@.contains_key(#[trigger] keys[j]) && m@[keys[j]] == m.values()[j],
            forall|j: int| 0 <= j < i ==> out@.contains_key(#[trigger] keys[j]),
            forall|k: IndexKeyV| #[trigger]
                out@.contains_key(k) ==> m@.contains_key(k) && out@[k] == m@[k],
        decreases n - i,
    {
        let key = copy_key(m.key_at(i));
        let v = *m.value_at(i);
        assert(m@.contains_key(keys[i as int]));
        out.insert(key, v);
        i = i + 1;
    }
    proof {
        assert forall|k: IndexKeyV| m@.contains_key(k) implies out@.contains_key(k) by {
            assert(keys.contains(k));
            let j = choose|j: int| 0 <= j < keys.len() && keys[j] == k;
            assert(out@.contains_key(keys[j]));
        }
        assert(out@ =~= m@);
    }
    out
}

/// Every item that met the filters gets one result, in the order of identifiers.
pub proof fn law_every_row_is_answered(
    m: Model,
    sets: Seq<SetField>,
    ids: Seq<ItemId>,
    known: Seq<Arc<Entity>>,
)
    requires
        bounded_plan(m, sets, ids, known) is Ok,
    ensures
        bounded_plan(m, sets, ids, known)->Ok_0.results.map_values(|r: MutationResult| r.item_id)
            == ids,
    decreases ids.len(),
{
    let f = |r: MutationResult| r.item_id;
    let rs = bounded_plan(m, sets, ids, known)->Ok_0.results;
    if ids.len() > 0 {
        law_every_row_is_answered(m, sets, ids.drop_last(), known);
        let prior = bounded_plan(m, sets, ids.drop_last(), known)->Ok_0.results;
        assert(rs.map_values(f) =~= prior.map_values(f).push(ids.last()));
        assert(ids =~= ids.drop_last().push(ids.last()));
    } else {
        assert(rs.map_values(f) =~= ids);
    }
}

} // verus!
