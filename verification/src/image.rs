//! Portable images of a queue.

use crate::checked::{legible, readable};
use crate::consistency::{consistent, counts_exact, expires_at, gates_known, held, in_state, keyed, leases_exact, lemma_counts_put, lemma_gates_joined, lemma_places_move};
use crate::eligibility::{EligV, EligibilityIndex};
use crate::history::numbered;
use crate::item::{Item, ItemRecord, client_key, explicit_client_item_key, explicit_key_of};
use crate::json::JsonV;
use crate::model::{Model, Step, counted, enter_if, gates_joined, index_keys, indexed, put, ready, run};
use crate::order::{OrdMap, OrdSet, lemma_ascending_distinct, lemma_listing_exists, listing_of};
use crate::projection::{ProjectionData, items_v, side_v};
use crate::shared::{KeyTable, bytes_of, bytes_share, fx_keys, fx_new, share};
use crate::text::{clone_bytes, clone_opt_text, clone_texts, numeral, opt_text, texts};
use crate::types::{CommandPosition, EligibilityPolicy, EngineResult, Entity, EntityV, ErrorV, FieldMap, GateKeyPolicy, IndexField, IndexSpec, IndexSpecV, ItemId, ItemState, Metadata, OrderingMode, PositionV, PriorityModel, PriorityV, PriorityValue, QueueDefinition, QueueIndex, QueueIndexV, QueueMetrics, RecurrencePolicy, UtcTimestamp, clone_opt_position, clone_opt_priority, epoch_start, field_bytes, index_fields_v, keys_view, metadata_of, opt_bytes, opt_doc, opt_position, opt_priority, outcome, share_opt_bytes, share_opt_doc, specs_v, typed_specs_v};
use bytes::Bytes;
use rustc_hash::FxHashMap;
use std::sync::Arc;
use vstd::prelude::*;

verus! {

/// One item of an image.
pub struct ProjectionImageItem {
    pub item_id: ItemId,
    pub client_item_key: String,
    pub priority: Option<PriorityValue>,
    pub not_before: Option<UtcTimestamp>,
    pub eligible_since: Option<UtcTimestamp>,
    pub group_key: Option<String>,
    pub cohort_size: Option<u64>,
    pub payload: Option<Bytes>,
    pub fields: Arc<FieldMap>,
    pub metadata: Arc<Metadata>,
    pub gate_keys: Arc<Vec<String>>,
    pub entity_document: Option<Arc<Entity>>,
    pub state: ItemState,
    pub item_version: u64,
    pub attempt_count: u32,
    pub max_attempts: u32,
    pub created_seq: u64,
    pub lease_token: Option<String>,
    pub lease_expires_at: Option<UtcTimestamp>,
    pub lease_is_cohort: bool,
    pub worker_id: Option<String>,
    pub fenced: bool,
    pub superseded: bool,
    pub terminal_at: Option<UtcTimestamp>,
    pub terminal_position: Option<CommandPosition>,
}

pub ghost struct ImageItemV {
    pub item_id: ItemId,
    pub client_item_key: Seq<char>,
    pub priority: Option<PriorityV>,
    pub not_before: Option<UtcTimestamp>,
    pub eligible_since: Option<UtcTimestamp>,
    pub group_key: Option<Seq<char>>,
    pub cohort_size: Option<u64>,
    pub payload: Option<Seq<u8>>,
    pub fields: Map<Seq<char>, Seq<u8>>,
    pub metadata: Map<Seq<char>, JsonV>,
    pub gate_keys: Seq<Seq<char>>,
    pub entity_document: Option<EntityV>,
    pub state: ItemState,
    pub item_version: u64,
    pub attempt_count: u32,
    pub max_attempts: u32,
    pub created_seq: u64,
    pub lease_token: Option<Seq<char>>,
    pub lease_expires_at: Option<UtcTimestamp>,
    pub lease_is_cohort: bool,
    pub worker_id: Option<Seq<char>>,
    pub fenced: bool,
    pub superseded: bool,
    pub terminal_at: Option<UtcTimestamp>,
    pub terminal_position: Option<PositionV>,
}

impl ProjectionImageItem {
    pub open spec fn view(&self) -> ImageItemV {
        ImageItemV {
            item_id: self.item_id,
            client_item_key: self.client_item_key@,
            priority: opt_priority(self.priority),
            not_before: self.not_before,
            eligible_since: self.eligible_since,
            group_key: opt_text(self.group_key),
            cohort_size: self.cohort_size,
            payload: opt_bytes(self.payload),
            fields: field_bytes(*self.fields),
            metadata: metadata_of(*self.metadata),
            gate_keys: texts(self.gate_keys@),
            entity_document: opt_doc(self.entity_document),
            state: self.state,
            item_version: self.item_version,
            attempt_count: self.attempt_count,
            max_attempts: self.max_attempts,
            created_seq: self.created_seq,
            lease_token: opt_text(self.lease_token),
            lease_expires_at: self.lease_expires_at,
            lease_is_cohort: self.lease_is_cohort,
            worker_id: opt_text(self.worker_id),
            fenced: self.fenced,
            superseded: self.superseded,
            terminal_at: self.terminal_at,
            terminal_position: opt_position(self.terminal_position),
        }
    }

    /// The image of a record.
    pub fn of(rec: &ItemRecord) -> (r: ProjectionImageItem)
        ensures
            r@ == image_of(rec@),
    {
        ProjectionImageItem {
            item_id: rec.item_id,
            client_item_key: rec.client_item_key(),
            priority: clone_opt_priority(&rec.priority),
            not_before: rec.not_before,
            eligible_since: Some(rec.eligible_since),
            group_key: clone_opt_text(&rec.group_key),
            cohort_size: rec.cohort_size,
            payload: share_opt_bytes(&rec.payload),
            fields: share(&rec.fields),
            metadata: share(&rec.metadata),
            gate_keys: share(&rec.gate_keys),
            entity_document: share_opt_doc(&rec.entity_document),
            state: rec.state,
            item_version: rec.item_version,
            attempt_count: rec.attempt_count,
            max_attempts: rec.max_attempts,
            created_seq: rec.created_seq,
            lease_token: clone_opt_text(&rec.lease_token),
            lease_expires_at: rec.lease_expires_at,
            lease_is_cohort: rec.lease_is_cohort,
            worker_id: clone_opt_text(&rec.worker_id),
            fenced: rec.fenced,
            superseded: rec.superseded,
            terminal_at: rec.terminal_at,
            terminal_position: clone_opt_position(rec.terminal_position.as_ref()),
        }
    }

    /// The record that an image stands for. An image without the time since which the item is eligible
    /// gives its schedule, or else the start of the epoch.
    pub fn record(&self) -> (r: ItemRecord)
        ensures
            r@ == imaged(self@),
    {
        let eligible_since = match self.eligible_since {
            Some(t) => t,
            None => match self.not_before {
                Some(t) => t,
                None => UtcTimestamp { seconds: 0, nanoseconds: 0 },
            },
        };
        ItemRecord {
            item_id: self.item_id,
            explicit_client_item_key: explicit_client_item_key(
                self.item_id,
                self.client_item_key.clone(),
            ),
            priority: clone_opt_priority(&self.priority),
            not_before: self.not_before,
            eligible_since,
            group_key: clone_opt_text(&self.group_key),
            cohort_size: self.cohort_size,
            payload: share_opt_bytes(&self.payload),
            fields: share(&self.fields),
            metadata: share(&self.metadata),
            gate_keys: share(&self.gate_keys),
            entity_document: share_opt_doc(&self.entity_document),
            state: self.state,
            item_version: self.item_version,
            attempt_count: self.attempt_count,
            max_attempts: self.max_attempts,
            created_seq: self.created_seq,
            lease_token: clone_opt_text(&self.lease_token),
            lease_expires_at: self.lease_expires_at,
            lease_is_cohort: self.lease_is_cohort,
            worker_id: clone_opt_text(&self.worker_id),
            fenced: self.fenced,
            superseded: self.superseded,
            terminal_at: self.terminal_at,
            terminal_position: clone_opt_position(self.terminal_position.as_ref()),
        }
    }
}

pub open spec fn image_of(i: Item) -> ImageItemV {
    ImageItemV {
        item_id: i.item_id,
        client_item_key: client_key(i),
        priority: i.priority,
        not_before: i.not_before,
        eligible_since: Some(i.eligible_since),
        group_key: i.group_key,
        cohort_size: i.cohort_size,
        payload: i.payload,
        fields: i.fields,
        metadata: i.metadata,
        gate_keys: i.gate_keys,
        entity_document: i.entity,
        state: i.state,
        item_version: i.item_version,
        attempt_count: i.attempt_count,
        max_attempts: i.max_attempts,
        created_seq: i.created_seq,
        lease_token: i.lease_token,
        lease_expires_at: i.lease_expires_at,
        lease_is_cohort: i.lease_is_cohort,
        worker_id: i.worker_id,
        fenced: i.fenced,
        superseded: i.superseded,
        terminal_at: i.terminal_at,
        terminal_position: i.terminal_position,
    }
}

pub open spec fn imaged(v: ImageItemV) -> Item {
    Item {
        item_id: v.item_id,
        explicit_key: explicit_key_of(v.item_id, v.client_item_key),
        priority: v.priority,
        not_before: v.not_before,
        eligible_since: match v.eligible_since {
            Some(t) => t,
            None => match v.not_before {
                Some(t) => t,
                None => epoch_start(),
            },
        },
        group_key: v.group_key,
        cohort_size: v.cohort_size,
        payload: v.payload,
        fields: v.fields,
        metadata: v.metadata,
        gate_keys: v.gate_keys,
        entity: v.entity_document,
        state: v.state,
        item_version: v.item_version,
        attempt_count: v.attempt_count,
        max_attempts: v.max_attempts,
        created_seq: v.created_seq,
        lease_token: v.lease_token,
        lease_expires_at: v.lease_expires_at,
        lease_is_cohort: v.lease_is_cohort,
        worker_id: v.worker_id,
        fenced: v.fenced,
        superseded: v.superseded,
        terminal_at: v.terminal_at,
        terminal_position: v.terminal_position,
    }
}

/// An item comes back from its image as it was, unless its stored key is the one it has anyway.
pub proof fn law_item_image_round_trip(i: Item)
    requires
        i.explicit_key != Some(numeral(i.item_id as nat)),
    ensures
        imaged(image_of(i)) == i,
{
}

/// A queue's state at a place in its log. The items are the source of everything that can be rebuilt.
pub struct ProjectionImage {
    pub high_water: Option<CommandPosition>,
    pub paused: bool,
    pub pause_drain_intake: bool,
    pub blocked_gates: OrdSet<String>,
    pub next_seq: u64,
    pub items: Vec<ProjectionImageItem>,
    pub side_records: OrdMap<Vec<u8>, Bytes>,
    pub instance_fences: OrdMap<Vec<u8>, u64>,
    pub metrics: QueueMetrics,
}

pub open spec fn image_items_v(v: Seq<ProjectionImageItem>) -> Seq<ImageItemV> {
    v.map_values(|x: ProjectionImageItem| x@)
}

/// The items of a queue by creation.
pub open spec fn creation_pairs(m: Model) -> Set<(u64, u64)> {
    Set::new(
        |p: (u64, u64)| m.items.contains_key(p.1) && m.items[p.1].created_seq == p.0,
    )
}

/// The items of a queue in the order of their creation.
pub open spec fn image_list(m: Model) -> Seq<ImageItemV> {
    listing_of::<(u64, u64)>(creation_pairs(m)).map_values(
        |p: (u64, u64)| image_of(m.items[p.1]),
    )
}

/// Whether each index is unique, the last declaration of a name deciding.
pub open spec fn kinds_of(
    kinds: Map<Seq<char>, bool>,
    specs: Seq<IndexSpecV>,
) -> Map<Seq<char>, bool>
    decreases specs.len(),
{
    if specs.len() == 0 {
        kinds
    } else {
        kinds_of(kinds, specs.drop_last()).insert(specs.last().name, specs.last().unique)
    }
}

pub open spec fn typed_kinds_of(
    kinds: Map<Seq<char>, bool>,
    specs: Seq<QueueIndexV>,
) -> Map<Seq<char>, bool>
    decreases specs.len(),
{
    if specs.len() == 0 {
        kinds
    } else {
        typed_kinds_of(kinds, specs.drop_last()).insert(specs.last().name, specs.last().unique)
    }
}

/// A queue without items.
pub open spec fn fresh(
    priority_model: PriorityModel,
    ordering_mode: OrderingMode,
    max_rank_error: u32,
    recurrence: RecurrencePolicy,
    specs: Seq<IndexSpecV>,
) -> Model {
    Model {
        items: Map::empty(),
        leased: Set::empty(),
        by_consumer: Set::empty(),
        by_expiry: Set::empty(),
        by_key: Map::empty(),
        eligible: Set::empty(),
        compact: true,
        metrics: QueueMetrics::zero(),
        next_seq: 0,
        priority_model,
        ordering_mode,
        max_rank_error,
        recurrence,
        paused: false,
        pause_drain_intake: false,
        blocked_gates: Set::empty(),
        policy: EligibilityPolicy {
            gate_keys: GateKeyPolicy::Dynamic,
            max_gate_keys_per_item: None,
            max_gates_per_request: None,
        },
        gate_members: Set::empty(),
        index_kinds: kinds_of(Map::empty(), specs),
        unique: Map::empty(),
        multi: Set::empty(),
        index_specs: specs,
        typed_index_specs: Seq::empty(),
        side_records: Map::empty(),
        instance_fences: Map::empty(),
    }
}

/// A queue as its definition sets it up.
pub open spec fn defined(d: QueueDefinition) -> Model {
    let m = fresh(
        d.priority_model,
        d.ordering_mode,
        d.max_rank_error,
        d.recurrence,
        specs_v(d.secondary_indexes@),
    );
    Model {
        index_kinds: typed_kinds_of(m.index_kinds, typed_specs_v(d.typed_indexes@)),
        typed_index_specs: typed_specs_v(d.typed_indexes@),
        policy: d.eligibility_policy,
        ..m
    }
}

/// An item of an image is found again: under its gates, its key, its index keys and at its place.
pub open spec fn relisted(m: Model, i: Item) -> Step {
    let id = i.item_id;
    let m1 = gates_joined(m, id, i.gate_keys);
    let m2 = match i.explicit_key {
        Some(k) if !i.superseded => Model { by_key: m1.by_key.insert(k, id), ..m1 },
        _ => m1,
    };
    let keys = if i.superseded {
        Ok(Seq::empty())
    } else {
        index_keys(m2, i.fields, i.entity)
    };
    match keys {
        Err(e) => (m2, Err(e)),
        Ok(keys) => (
            enter_if(indexed(m2, id, keys), ready(m, i) && !i.superseded, i),
            Ok(()),
        ),
    }
}

/// The lease of an item of an image counts again, and so does the item.
pub open spec fn recalled(m: Model, i: Item) -> Model {
    let id = i.item_id;
    put(
        Model {
            leased: if held(i) {
                m.leased.insert(id)
            } else {
                m.leased
            },
            by_consumer: match i.lease_token {
                Some(t) if held(i) => m.by_consumer.insert((t, id)),
                _ => m.by_consumer,
            },
            by_expiry: match i.lease_expires_at {
                Some(e) if expires_at(i, e) => m.by_expiry.insert((e, id)),
                _ => m.by_expiry,
            },
            metrics: if i.superseded {
                m.metrics
            } else {
                counted(m.metrics, i.state)
            },
            next_seq: later_seq(m.next_seq, i.created_seq),
            ..m
        },
        id,
        i,
    )
}

/// One item of an image is put back, with everything that is rebuilt from it.
pub open spec fn restored(m: Model, i: Item) -> Step {
    let (n, r) = relisted(m, i);
    match r {
        Err(e) => (n, Err(e)),
        Ok(_) => (recalled(n, i), Ok(())),
    }
}

/// The creation counter after an item with a creation number is known.
pub open spec fn later_seq(next: u64, created: u64) -> u64 {
    let after = if created == u64::MAX {
        u64::MAX
    } else {
        (created + 1) as u64
    };
    if next < after {
        after
    } else {
        next
    }
}

pub open spec fn restore_each() -> spec_fn(Model, ImageItemV) -> Step {
    |m: Model, v: ImageItemV| restored(m, imaged(v))
}

/// A queue without its items, as an image leaves it.
pub open spec fn image_base(d: QueueDefinition, image: ProjectionImage) -> Model {
    Model {
        paused: image.paused,
        pause_drain_intake: image.pause_drain_intake,
        blocked_gates: image.blocked_gates@,
        next_seq: image.next_seq,
        side_records: side_v(image.side_records@),
        instance_fences: image.instance_fences@,
        ..defined(d)
    }
}

/// The queue that an image stands for.
pub open spec fn rebuilt(d: QueueDefinition, image: ProjectionImage) -> Step {
    run(image_base(d, image), image_items_v(image.items@), restore_each())
}

fn copy_side_records(m: &OrdMap<Vec<u8>, Bytes>) -> (r: OrdMap<Vec<u8>, Bytes>)
    ensures
        side_v(r@) == side_v(m@),
{
    let n = m.len();
    let ghost keys = m.listing();
    let mut out: OrdMap<Vec<u8>, Bytes> = OrdMap::new();
    let mut i: usize = 0;
    while i < n
        invariant
            i <= n,
            n == m.listing().len(),
            n == m.values().len(),
            keys == m.listing(),
            forall|j: int|
                0 <= j < n ==> m@.contains_key(#[trigger] m.listing()[j]) && m@[m.listing()[j]]
                    == m.values()[j],
            forall|k: Seq<u8>| #[trigger]
                out@.contains_key(k) ==> m@.contains_key(k) && bytes_of(out@[k]) == bytes_of(m@[k]),
            forall|j: int| 0 <= j < i ==> out@.contains_key(#[trigger] keys[j]),
        decreases n - i,
    {
        let ghost before = out@;
        assert(m@.contains_key(keys[i as int]));
        let value = bytes_share(m.value_at(i));
        out.insert(clone_bytes(m.key_at(i)), value);
        assert forall|j: int| 0 <= j < i + 1 implies out@.contains_key(#[trigger] keys[j]) by {
            if j < i {
                assert(before.contains_key(keys[j]));
            }
        }
        i = i + 1;
    }
    proof {
        assert forall|k: Seq<u8>| m@.contains_key(k) implies out@.contains_key(k) by {
            assert(keys.contains(k));
            let j = choose|j: int| 0 <= j < keys.len() && keys[j] == k;
            assert(out@.contains_key(keys[j]));
        }
        assert(side_v(out@) =~= side_v(m@));
    }
    out
}

fn copy_fences(m: &OrdMap<Vec<u8>, u64>) -> (r: OrdMap<Vec<u8>, u64>)
    ensures
        r@ == m@,
{
    let n = m.len();
    let ghost keys = m.listing();
    let mut out: OrdMap<Vec<u8>, u64> = OrdMap::new();
    let mut i: usize = 0;
    while i < n
        invariant
            i <= n,
            n == m.listing().len(),
            n == m.values().len(),
            keys == m.listing(),
            forall|j: int|
                0 <= j < n ==> m@.contains_key(#[trigger] m.listing()[j]) && m@[m.listing()[j]]
                    == m.values()[j],
            forall|k: Seq<u8>| #[trigger]
                out@.contains_key(k) ==> m@.contains_key(k) && out@[k] == m@[k],
            forall|j: int| 0 <= j < i ==> out@.contains_key(#[trigger] keys[j]),
        decreases n - i,
    {
        let ghost before = out@;
        assert(m@.contains_key(keys[i as int]));
        out.insert(clone_bytes(m.key_at(i)), *m.value_at(i));
        assert forall|j: int| 0 <= j < i + 1 implies out@.contains_key(#[trigger] keys[j]) by {
            if j < i {
                assert(before.contains_key(keys[j]));
            }
        }
        i = i + 1;
    }
    proof {
        assert forall|k: Seq<u8>| m@.contains_key(k) implies out@.contains_key(k) by {
            assert(keys.contains(k));
            let j = choose|j: int| 0 <= j < keys.len() && keys[j] == k;
            assert(out@.contains_key(keys[j]));
        }
        assert(out@ =~= m@);
    }
    out
}

fn copy_gates(s: &OrdSet<String>) -> (r: OrdSet<String>)
    ensures
        r@ == s@,
{
    let n = s.len();
    let ghost keys = s.listing();
    let mut out: OrdSet<String> = OrdSet::new();
    let mut i: usize = 0;
    while i < n
        invariant
            i <= n,
            n == s.listing().len(),
            keys == s.listing(),
            out@.subset_of(s@),
            forall|j: int| 0 <= j < i ==> out@.contains(#[trigger] keys[j]),
        decreases n - i,
    {
        let ghost before = out@;
        assert(keys.contains(keys[i as int]));
        out.insert(s.at(i).clone());
        assert forall|j: int| 0 <= j < i + 1 implies out@.contains(#[trigger] keys[j]) by {
            if j < i {
                assert(before.contains(keys[j]));
            }
        }
        i = i + 1;
    }
    proof {
        assert forall|k: Seq<char>| s@.contains(k) implies out@.contains(k) by {
            assert(keys.contains(k));
            let j = choose|j: int| 0 <= j < keys.len() && keys[j] == k;
            assert(out@.contains(keys[j]));
        }
        assert(out@ =~= s@);
    }
    out
}

fn copy_index_spec(s: &IndexSpec) -> (r: IndexSpec)
    ensures
        r@ == s@,
{
    IndexSpec { name: s.name.clone(), fields: clone_texts(&s.fields), unique: s.unique }
}

pub(crate) fn copy_index_specs(specs: &Vec<IndexSpec>) -> (r: Vec<IndexSpec>)
    ensures
        specs_v(r@) == specs_v(specs@),
{
    let mut out: Vec<IndexSpec> = Vec::new();
    let mut i: usize = 0;
    while i < specs.len()
        invariant
            i <= specs@.len(),
            specs_v(out@) == specs_v(specs@).take(i as int),
        decreases specs@.len() - i,
    {
        let ghost before = out@;
        let c = copy_index_spec(&specs[i]);
        out.push(c);
        assert(specs_v(out@) =~= specs_v(before).push(c@));
        assert(specs_v(specs@).take(i as int + 1) =~= specs_v(specs@).take(i as int).push(
            specs@[i as int]@,
        ));
        i = i + 1;
    }
    assert(specs_v(specs@).take(i as int) =~= specs_v(specs@));
    out
}

/// A copy of a typed index declaration.
pub fn copy_typed_index(s: &QueueIndex) -> (r: QueueIndex)
    ensures
        r@ == s@,
{
    let mut fields: Vec<IndexField> = Vec::new();
    let mut i: usize = 0;
    while i < s.fields.len()
        invariant
            i <= s.fields@.len(),
            index_fields_v(fields@) == index_fields_v(s.fields@).take(i as int),
        decreases s.fields@.len() - i,
    {
        let ghost before = fields@;
        let f = IndexField {
            field: s.fields[i].field.clone(),
            index_type: s.fields[i].index_type,
        };
        fields.push(f);
        assert(index_fields_v(fields@) =~= index_fields_v(before).push((f.field@, f.index_type)));
        assert(index_fields_v(s.fields@).take(i as int + 1) =~= index_fields_v(s.fields@).take(
            i as int,
        ).push(index_fields_v(s.fields@)[i as int]));
        i = i + 1;
    }
    assert(index_fields_v(s.fields@).take(i as int) =~= index_fields_v(s.fields@));
    QueueIndex { name: s.name.clone(), fields, unique: s.unique }
}

impl ProjectionData {
    /// A queue without items.
    pub fn new(
        priority_model: PriorityModel,
        ordering_mode: OrderingMode,
        max_rank_error: u32,
        recurrence: RecurrencePolicy,
        specs: &Vec<IndexSpec>,
    ) -> (r: ProjectionData)
        ensures
            r@ == fresh(
                priority_model,
                ordering_mode,
                max_rank_error,
                recurrence,
                specs_v(specs@),
            ),
    {
        let ghost all = specs_v(specs@);
        let mut index_kinds: OrdMap<String, bool> = OrdMap::new();
        let mut i: usize = 0;
        assert(all.take(0) =~= Seq::<IndexSpecV>::empty());
        while i < specs.len()
            invariant
                i <= specs@.len(),
                all == specs_v(specs@),
                index_kinds@ == kinds_of(Map::empty(), all.take(i as int)),
            decreases specs@.len() - i,
        {
            proof {
                let t = all.take(i as int + 1);
                assert(t.drop_last() =~= all.take(i as int));
                assert(t.last() == specs@[i as int]@);
            }
            index_kinds.insert(specs[i].name.clone(), specs[i].unique);
            i = i + 1;
        }
        assert(all.take(i as int) =~= all);
        let r = ProjectionData {
            items: fx_new(),
            leased_ids: OrdSet::new(),
            leased_by_consumer: OrdSet::new(),
            ordinary_leases_by_expiry: OrdSet::new(),
            by_key: KeyTable::new(),
            eligible: EligibilityIndex::new(),
            metrics: QueueMetrics::none(),
            next_seq: 0,
            priority_model,
            ordering_mode,
            max_rank_error,
            recurrence,
            paused: false,
            pause_drain_intake: false,
            blocked_gates: OrdSet::new(),
            policy: EligibilityPolicy {
                gate_keys: GateKeyPolicy::Dynamic,
                max_gate_keys_per_item: None,
                max_gates_per_request: None,
            },
            gate_members: OrdSet::new(),
            index_kinds,
            unique: OrdMap::new(),
            multi: OrdSet::new(),
            index_specs: copy_index_specs(specs),
            typed_index_specs: Vec::new(),
            side_records: OrdMap::new(),
            instance_fences: OrdMap::new(),
        };
        proof {
            assert(items_v(r.items@) =~= Map::<ItemId, Item>::empty());
            assert(r.by_key@ =~= Map::<Seq<char>, u64>::empty());
            assert(side_v(r.side_records@) =~= Map::<Seq<u8>, Seq<u8>>::empty());
            assert(typed_specs_v(r.typed_index_specs@) =~= Seq::<QueueIndexV>::empty());
        }
        r
    }

    /// The queue with typed indexes.
    pub fn with_typed_indexes(self, specs: &Vec<QueueIndex>) -> (r: ProjectionData)
        ensures
            r@ == (Model {
                index_kinds: typed_kinds_of(self@.index_kinds, typed_specs_v(specs@)),
                typed_index_specs: typed_specs_v(specs@),
                ..self@
            }),
    {
        let mut p = self;
        let ghost start = p@;
        let ghost all = typed_specs_v(specs@);
        let mut copies: Vec<QueueIndex> = Vec::new();
        let mut i: usize = 0;
        assert(all.take(0) =~= Seq::<QueueIndexV>::empty());
        assert(typed_specs_v(copies@) =~= all.take(0));
        while i < specs.len()
            invariant
                i <= specs@.len(),
                all == typed_specs_v(specs@),
                typed_specs_v(copies@) == all.take(i as int),
                p@ == (Model {
                    index_kinds: typed_kinds_of(start.index_kinds, all.take(i as int)),
                    ..start
                }),
            decreases specs@.len() - i,
        {
            proof {
                let t = all.take(i as int + 1);
                assert(t.drop_last() =~= all.take(i as int));
                assert(t.last() == specs@[i as int]@);
                assert(t =~= all.take(i as int).push(specs@[i as int]@));
            }
            let ghost before = copies@;
            let c = copy_typed_index(&specs[i]);
            p.index_kinds.insert(c.name.clone(), c.unique);
            copies.push(c);
            assert(typed_specs_v(copies@) =~= typed_specs_v(before).push(c@));
            i = i + 1;
        }
        assert(all.take(i as int) =~= all);
        p.typed_index_specs = copies;
        p
    }

    pub fn with_eligibility_policy(self, policy: EligibilityPolicy) -> (r: ProjectionData)
        ensures
            r@ == (Model { policy, ..self@ }),
    {
        let mut p = self;
        p.policy = policy;
        p
    }

    /// The complete state of the queue, with its items in the order of their creation.
    pub fn to_image(&self, high_water: Option<CommandPosition>) -> (r: ProjectionImage)
        ensures
            r.high_water == high_water,
            r.paused == self@.paused,
            r.pause_drain_intake == self@.pause_drain_intake,
            r.blocked_gates@ == self@.blocked_gates,
            r.next_seq == self@.next_seq,
            image_items_v(r.items@) == image_list(self@),
            side_v(r.side_records@) == self@.side_records,
            r.instance_fences@ == self@.instance_fences,
            r.metrics == self@.metrics,
    {
        let keys = fx_keys(&self.items);
        let mut order: OrdSet<(u64, u64)> = OrdSet::new();
        let mut i: usize = 0;
        while i < keys.len()
            invariant
                i <= keys@.len(),
                keys@.to_set() == self.items@.dom(),
                order@.subset_of(creation_pairs(self@)),
                forall|j: int|
                    0 <= j < i ==> order@.contains(
                        (self@.items[#[trigger] keys@[j]].created_seq, keys@[j]),
                    ),
            decreases keys@.len() - i,
        {
            let ghost before = order@;
            assert(keys@.contains(keys@[i as int]));
            assert(self.items@.dom().contains(keys@[i as int]));
            match self.record(keys[i]) {
                Some(rec) => {
                    order.insert((rec.created_seq, keys[i]));
                },
                None => {},
            }
            assert forall|j: int| 0 <= j < i + 1 implies order@.contains(
                (self@.items[#[trigger] keys@[j]].created_seq, keys@[j]),
            ) by {
                if j < i {
                    assert(before.contains((self@.items[keys@[j]].created_seq, keys@[j])));
                }
            }
            i = i + 1;
        }
        proof {
            assert forall|p: (u64, u64)| creation_pairs(self@).contains(p) implies order@.contains(
                p,
            ) by {
                assert(keys@.to_set().contains(p.1));
                let j = choose|j: int| 0 <= j < keys@.len() && keys@[j] == p.1;
                assert(order@.contains((self@.items[keys@[j]].created_seq, keys@[j])));
            }
            assert(order@ =~= creation_pairs(self@));
        }
        let n = order.len();
        let ghost list = image_list(self@);
        let mut items: Vec<ProjectionImageItem> = Vec::new();
        let mut k: usize = 0;
        assert(image_items_v(items@) =~= list.take(0));
        while k < n
            invariant
                k <= n,
                n == order.listing().len(),
                order@ == creation_pairs(self@),
                listing_of::<(u64, u64)>(creation_pairs(self@)) == order.listing(),
                list == image_list(self@),
                image_items_v(items@) == list.take(k as int),
            decreases n - k,
        {
            let ghost p = order.listing()[k as int];
            proof {
                assert(order.listing().contains(p));
                assert(order@.contains(p));
                assert(list[k as int] == image_of(self@.items[p.1]));
                assert(list.take(k as int + 1) =~= list.take(k as int).push(list[k as int]));
            }
            match self.record(order.at(k).1) {
                Some(rec) => {
                    let ghost before = items@;
                    let item = ProjectionImageItem::of(rec);
                    items.push(item);
                    assert(image_items_v(items@) =~= image_items_v(before).push(item@));
                },
                None => {},
            }
            k = k + 1;
        }
        assert(list.take(k as int) =~= list);
        ProjectionImage {
            high_water,
            paused: self.paused,
            pause_drain_intake: self.pause_drain_intake,
            blocked_gates: copy_gates(&self.blocked_gates),
            next_seq: self.next_seq,
            items,
            side_records: copy_side_records(&self.side_records),
            instance_fences: copy_fences(&self.instance_fences),
            metrics: self.metrics,
        }
    }

    fn relist(&mut self, rec: &ItemRecord) -> (r: EngineResult<()>)
        ensures
            (final(self)@, outcome(r)) == relisted(old(self)@, rec@),
    {
        let id = rec.item_id;
        let now_ready = self.is_ready(rec) && !rec.superseded;
        self.join_gates(id, &rec.gate_keys);
        if !rec.superseded {
            match &rec.explicit_client_item_key {
                Some(k) => {
                    self.by_key.insert(k.clone(), id);
                },
                None => {},
            }
        }
        let ghost m2 = self@;
        let keys = if rec.superseded {
            Vec::new()
        } else {
            match self.record_index_keys(&rec.fields, &rec.entity_document) {
                Ok(k) => k,
                Err(e) => {
                    return Err(e);
                },
            }
        };
        assert(rec.superseded ==> keys_view(keys@) =~= Seq::<(Seq<char>, Seq<u8>)>::empty());
        self.index_insert_keys(id, &keys);
        proof {
            crate::apply::lemma_indexed_frame(m2, id, keys_view(keys@));
        }
        if now_ready {
            self.enter(rec);
        }
        Ok(())
    }

    fn recall(&mut self, rec: ItemRecord)
        requires
            counts_room_metrics(old(self)@, 1),
        ensures
            final(self)@ == recalled(old(self)@, rec@),
    {
        let id = rec.item_id;
        if let ItemState::Leased = rec.state {
            if !rec.superseded {
                match &rec.lease_token {
                    Some(t) => {
                        self.leased_ids.insert(id);
                        let pair = (t.clone(), id);
                        self.leased_by_consumer.insert(pair);
                    },
                    None => {},
                }
                match rec.lease_expires_at {
                    Some(e) => {
                        if !rec.lease_is_cohort {
                            self.ordinary_leases_by_expiry.insert((e, id));
                        }
                    },
                    None => {},
                }
            }
        }
        if !rec.superseded {
            self.count_one(rec.state);
        }
        let after: u64 = if rec.created_seq == u64::MAX {
            u64::MAX
        } else {
            rec.created_seq + 1
        };
        if self.next_seq < after {
            self.next_seq = after;
        }
        self.put_record(id, rec);
    }

    /// Puts one item of an image back.
    fn restore(&mut self, rec: ItemRecord) -> (r: EngineResult<()>)
        requires
            counts_room_metrics(old(self)@, 1),
        ensures
            (final(self)@, outcome(r)) == restored(old(self)@, rec@),
    {
        proof {
            lemma_relisted_frame(self@, rec@);
        }
        match self.relist(&rec) {
            Ok(_) => {},
            Err(e) => {
                return Err(e);
            },
        }
        self.recall(rec);
        Ok(())
    }

    fn count_one(&mut self, state: ItemState)
        requires
            counts_room_metrics(old(self)@, 1),
        ensures
            final(self)@ == (Model { metrics: counted(old(self)@.metrics, state), ..old(self)@ }),
    {
        match state {
            ItemState::Pending => {
                self.metrics.pending = self.metrics.pending + 1;
            },
            ItemState::Leased => {
                self.metrics.leased = self.metrics.leased + 1;
            },
            ItemState::Complete => {
                self.metrics.complete = self.metrics.complete + 1;
                self.metrics.resident_terminal_count = self.metrics.resident_terminal_count + 1;
            },
            ItemState::Failed => {
                self.metrics.failed = self.metrics.failed + 1;
                self.metrics.resident_terminal_count = self.metrics.resident_terminal_count + 1;
            },
        }
    }

    /// Rebuilds a queue from an image: lookups, places, leases, indexes and counts follow from the
    /// items.
    pub fn from_image(definition: &QueueDefinition, image: &ProjectionImage) -> (r: EngineResult<
        ProjectionData,
    >)
        ensures
            match r {
                Ok(p) => rebuilt(*definition, *image) == (p@, Ok::<(), ErrorV>(())),
                Err(e) => rebuilt(*definition, *image).1 == Err::<(), ErrorV>(e@),
            },
    {
        let ghost base = image_base(*definition, *image);
        let ghost all = image_items_v(image.items@);
        let mut p = ProjectionData::new(
            definition.priority_model,
            definition.ordering_mode,
            definition.max_rank_error,
            definition.recurrence,
            &definition.secondary_indexes,
        ).with_typed_indexes(&definition.typed_indexes).with_eligibility_policy(
            definition.eligibility_policy,
        );
        p.paused = image.paused;
        p.pause_drain_intake = image.pause_drain_intake;
        p.blocked_gates = copy_gates(&image.blocked_gates);
        p.next_seq = image.next_seq;
        p.side_records = copy_side_records(&image.side_records);
        p.instance_fences = copy_fences(&image.instance_fences);
        assert(p@ == base);
        let ghost f = restore_each();
        let items = &image.items;
        let total = items.len();
        let mut done: usize = 0;
        assert(all.skip(0) =~= all);
        while done < total
            invariant
                done <= total,
                total == all.len(),
                total == items@.len(),
                all == image_items_v(items@),
                f == restore_each(),
                counts_room_metrics(p@, (total - done) as nat),
                run(p@, all.skip(done as int), f) == run(base, all, f),
                rebuilt(*definition, *image) == run(base, all, f),
            decreases total - done,
        {
            let rec = items[done].record();
            proof {
                assert(all.skip(done as int)[0] == items@[done as int]@);
                assert(all.skip(done as int).drop_first() =~= all.skip(done as int + 1));
                lemma_restore_counts(p@, rec@, (total - done) as nat);
            }
            match p.restore(rec) {
                Ok(_) => {},
                Err(e) => {
                    return Err(e);
                },
            }
            done = done + 1;
        }
        assert(all.skip(done as int) =~= Seq::<ImageItemV>::empty());
        Ok(p)
    }
}

/// The metrics can go up `n` more times.
pub open spec fn counts_room_metrics(m: Model, n: nat) -> bool {
    &&& m.metrics.pending + n <= u64::MAX
    &&& m.metrics.leased + n <= u64::MAX
    &&& m.metrics.complete + n <= u64::MAX
    &&& m.metrics.failed + n <= u64::MAX
    &&& m.metrics.resident_terminal_count + n <= u64::MAX
}

proof fn lemma_relisted_frame(m: Model, i: Item)
    ensures
        relisted(m, i).0 == (Model {
            gate_members: relisted(m, i).0.gate_members,
            by_key: relisted(m, i).0.by_key,
            unique: relisted(m, i).0.unique,
            multi: relisted(m, i).0.multi,
            eligible: relisted(m, i).0.eligible,
            compact: relisted(m, i).0.compact,
            ..m
        }),
        relisted(m, i).0.gate_members == gates_joined(m, i.item_id, i.gate_keys).gate_members,
        relisted(m, i).1 is Ok ==> {
            let n = enter_if(m, ready(m, i) && !i.superseded, i);
            relisted(m, i).0.eligible == n.eligible && relisted(m, i).0.compact == n.compact
        },
{
    let id = i.item_id;
    let m1 = gates_joined(m, id, i.gate_keys);
    let m2 = match i.explicit_key {
        Some(k) if !i.superseded => Model { by_key: m1.by_key.insert(k, id), ..m1 },
        _ => m1,
    };
    let keys = if i.superseded {
        Ok(Seq::empty())
    } else {
        index_keys(m2, i.fields, i.entity)
    };
    match keys {
        Ok(keys) => {
            crate::apply::lemma_indexed_frame(m2, id, keys);
        },
        Err(_) => {},
    }
}

proof fn lemma_restore_counts(m: Model, i: Item, k: nat)
    requires
        counts_room_metrics(m, k),
        k >= 1,
    ensures
        counts_room_metrics(restored(m, i).0, (k - 1) as nat),
{
    lemma_relisted_frame(m, i);
}

/// An item of an image that is not there yet keeps the state consistent.
pub proof fn law_restore_keeps(m: Model, i: Item)
    requires
        consistent(m),
        counts_room_metrics(m, 1),
        !m.items.contains_key(i.item_id),
        restored(m, i).1 is Ok,
    ensures
        consistent(restored(m, i).0),
        restored(m, i).0.items == m.items.insert(i.item_id, i),
{
    let id = i.item_id;
    let n = restored(m, i).0;
    lemma_relisted_frame(m, i);
    lemma_places_move(m, n, id, i, i, false, ready(m, i) && !i.superseded);
    lemma_counts_put(m, id, i);
    lemma_gates_joined(m, id, i.gate_keys);
    assert(gates_known(n)) by {
        assert forall|x: ItemId, k: Seq<char>|
            n.items.contains_key(x) && !n.items[x].superseded && #[trigger]
            n.items[x].gate_keys.contains(k) implies n.gate_members.contains((k, x)) by {
            if x != id {
                assert(m.items[x].gate_keys.contains(k));
            }
        }
    }
    assert(leases_exact(n)) by {
        assert forall|x: ItemId| #[trigger]
            n.leased.contains(x) <==> n.items.contains_key(x) && held(n.items[x]) by {
            assert(m.leased.contains(x) <==> m.items.contains_key(x) && held(m.items[x]));
        }
        assert forall|p: (Seq<char>, ItemId)| #[trigger]
            n.by_consumer.contains(p) <==> n.items.contains_key(p.1) && held(n.items[p.1])
                && n.items[p.1].lease_token == Some(p.0) by {
            assert(m.by_consumer.contains(p) <==> m.items.contains_key(p.1) && held(m.items[p.1])
                && m.items[p.1].lease_token == Some(p.0));
        }
        assert forall|p: (UtcTimestamp, ItemId)| #[trigger]
            n.by_expiry.contains(p) <==> n.items.contains_key(p.1) && expires_at(
                n.items[p.1],
                p.0,
            ) by {
            assert(m.by_expiry.contains(p) <==> m.items.contains_key(p.1) && expires_at(
                m.items[p.1],
                p.0,
            ));
        }
    }
}

/// Items by their own identifiers, later ones deciding.
pub open spec fn table_of(list: Seq<ImageItemV>, items: Map<ItemId, Item>) -> Map<ItemId, Item>
    decreases list.len(),
{
    if list.len() == 0 {
        items
    } else {
        table_of(list.drop_first(), items.insert(list[0].item_id, imaged(list[0])))
    }
}

/// No item of the list has the identifier of another, or of one that is there.
pub open spec fn distinct_items(list: Seq<ImageItemV>, items: Map<ItemId, Item>) -> bool {
    &&& forall|a: int, b: int|
        0 <= a < b < list.len() ==> (#[trigger] list[a]).item_id != (#[trigger] list[b]).item_id
    &&& forall|a: int| 0 <= a < list.len() ==> !items.contains_key((#[trigger] list[a]).item_id)
}

proof fn lemma_restore_run(m: Model, list: Seq<ImageItemV>)
    requires
        consistent(m),
        counts_room_metrics(m, list.len()),
        distinct_items(list, m.items),
        run(m, list, restore_each()).1 is Ok,
    ensures
        consistent(run(m, list, restore_each()).0),
        run(m, list, restore_each()).0.items == table_of(list, m.items),
    decreases list.len(),
{
    if list.len() > 0 {
        let i = imaged(list[0]);
        let n = restored(m, i).0;
        assert(restored(m, i).1 is Ok);
        law_restore_keeps(m, i);
        lemma_restore_counts(m, i, list.len());
        let rest = list.drop_first();
        assert(distinct_items(rest, n.items)) by {
            assert forall|a: int, b: int| 0 <= a < b < rest.len() implies (
            #[trigger] rest[a]).item_id != (#[trigger] rest[b]).item_id by {
                assert(rest[a] == list[a + 1] && rest[b] == list[b + 1]);
            }
            assert forall|a: int| 0 <= a < rest.len() implies !n.items.contains_key(
                (#[trigger] rest[a]).item_id,
            ) by {
                assert(rest[a] == list[a + 1]);
                assert(list[0].item_id != list[a + 1].item_id);
            }
        }
        lemma_restore_run(n, rest);
    }
}

/// A queue rebuilt from an image is consistent, and holds the items of the image.
pub proof fn law_import_is_consistent(d: QueueDefinition, image: ProjectionImage)
    requires
        distinct_items(image_items_v(image.items@), Map::empty()),
        rebuilt(d, image).1 is Ok,
    ensures
        consistent(rebuilt(d, image).0),
        rebuilt(d, image).0.items == table_of(image_items_v(image.items@), Map::empty()),
{
    let base = image_base(d, image);
    lemma_empty_is_consistent(base);
    assert(image.items.len() == image.items@.len());
    lemma_restore_run(base, image_items_v(image.items@));
}

/// A queue without items is consistent.
pub proof fn lemma_empty_is_consistent(m: Model)
    requires
        m.items == Map::<ItemId, Item>::empty(),
        m.leased == Set::<ItemId>::empty(),
        m.by_consumer == Set::<(Seq<char>, ItemId)>::empty(),
        m.by_expiry == Set::<(UtcTimestamp, ItemId)>::empty(),
        m.eligible == Set::<EligV>::empty(),
        m.gate_members == Set::<(Seq<char>, ItemId)>::empty(),
        m.metrics == QueueMetrics::zero(),
    ensures
        consistent(m),
{
    assert(in_state(m.items, ItemState::Pending) =~= Set::<ItemId>::empty());
    assert(in_state(m.items, ItemState::Leased) =~= Set::<ItemId>::empty());
    assert(in_state(m.items, ItemState::Complete) =~= Set::<ItemId>::empty());
    assert(in_state(m.items, ItemState::Failed) =~= Set::<ItemId>::empty());
}

/// Every stored key of a queue is one that its item would not have anyway.
pub open spec fn keys_proper(m: Model) -> bool {
    forall|id: ItemId| #[trigger]
        m.items.contains_key(id) ==> m.items[id].explicit_key != Some(numeral(id as nat))
}

proof fn lemma_table_of_listing(m: Model, l: Seq<(u64, u64)>, items: Map<ItemId, Item>)
    requires
        keyed(m),
        keys_proper(m),
        forall|j: int| 0 <= j < l.len() ==> m.items.contains_key((#[trigger] l[j]).1),
        forall|id: ItemId| #[trigger] items.contains_key(id) ==> m.items.contains_key(id)
            && items[id] == m.items[id],
    ensures
        ({
            let list = l.map_values(|p: (u64, u64)| image_of(m.items[p.1]));
            let t = table_of(list, items);
            &&& forall|id: ItemId| #[trigger]
                t.contains_key(id) <==> items.contains_key(id) || exists|j: int|
                    0 <= j < l.len() && (#[trigger] l[j]).1 == id
            &&& forall|id: ItemId| #[trigger]
                t.contains_key(id) ==> m.items.contains_key(id) && t[id] == m.items[id]
        }),
    decreases l.len(),
{
    let list = l.map_values(|p: (u64, u64)| image_of(m.items[p.1]));
    if l.len() > 0 {
        let id = l[0].1;
        assert(m.items.contains_key(l[0].1));
        law_item_image_round_trip(m.items[id]);
        assert(list[0] == image_of(m.items[id]));
        let rest = l.drop_first();
        let next = items.insert(id, m.items[id]);
        assert(rest.map_values(|p: (u64, u64)| image_of(m.items[p.1])) =~= list.drop_first());
        assert forall|j: int| 0 <= j < rest.len() implies m.items.contains_key(
            (#[trigger] rest[j]).1,
        ) by {
            assert(rest[j] == l[j + 1]);
        }
        lemma_table_of_listing(m, rest, next);
        let t = table_of(list, items);
        assert(list[0].item_id == id);
        assert(t == table_of(list.drop_first(), next));
        assert forall|x: ItemId| #[trigger]
            t.contains_key(x) <==> items.contains_key(x) || exists|j: int|
                0 <= j < l.len() && (#[trigger] l[j]).1 == x by {
            assert(t.contains_key(x) <==> next.contains_key(x) || exists|j: int|
                0 <= j < rest.len() && (#[trigger] rest[j]).1 == x);
            if exists|j: int| 0 <= j < rest.len() && (#[trigger] rest[j]).1 == x {
                let j = choose|j: int| 0 <= j < rest.len() && (#[trigger] rest[j]).1 == x;
                assert(l[j + 1].1 == x);
            }
            if exists|j: int| 0 <= j < l.len() && (#[trigger] l[j]).1 == x {
                let j = choose|j: int| 0 <= j < l.len() && (#[trigger] l[j]).1 == x;
                if j > 0 {
                    assert(rest[j - 1].1 == x);
                }
            }
            assert(l[0].1 == id);
        }
    }
}

/// Items with readable documents, all known to the counter, are put back without failure.
proof fn lemma_restore_succeeds(m: Model, list: Seq<ImageItemV>)
    requires
        forall|k: int| 0 <= k < list.len() ==> put_back(m, #[trigger] list[k]),
    ensures
        run(m, list, restore_each()).1 is Ok,
        run(m, list, restore_each()).0.next_seq == m.next_seq,
    decreases list.len(),
{
    if list.len() > 0 {
        let i = imaged(list[0]);
        assert(put_back(m, list[0]));
        lemma_relisted_frame(m, i);
        let n = restored(m, i).0;
        let rest = list.drop_first();
        assert forall|k: int| 0 <= k < rest.len() implies put_back(n, #[trigger] rest[k]) by {
            assert(rest[k] == list[k + 1]);
        }
        lemma_restore_succeeds(n, rest);
    }
}

/// The keys of the item's document are known, and its number is one that the queue has gone past.
spec fn put_back(m: Model, v: ImageItemV) -> bool {
    legible(v.entity_document) && v.created_seq < m.next_seq
}

/// An image gives back what was exported: the rebuilding succeeds, whatever definition it is given, and
/// the queue holds the same items, counts them the same, goes on from the same number, is paused as it
/// was, has the same blocked gates, side records and fences, and agrees with its items. So its own image
/// is the same.
pub proof fn law_image_round_trip(m: Model, d: QueueDefinition, image: ProjectionImage)
    requires
        keyed(m),
        counts_exact(m),
        readable(m),
        numbered(m),
        keys_proper(m),
        image_items_v(image.items@) == image_list(m),
        image.next_seq == m.next_seq,
        image.paused == m.paused,
        image.pause_drain_intake == m.pause_drain_intake,
        image.blocked_gates@ == m.blocked_gates,
        side_v(image.side_records@) == m.side_records,
        image.instance_fences@ == m.instance_fences,
    ensures
        rebuilt(d, image).1 is Ok,
        ({
            let n = rebuilt(d, image).0;
            &&& n.items == m.items
            &&& image_list(n) == image_list(m)
            &&& n.metrics == m.metrics
            &&& n.next_seq == m.next_seq
            &&& n.paused == m.paused
            &&& n.pause_drain_intake == m.pause_drain_intake
            &&& n.blocked_gates == m.blocked_gates
            &&& n.side_records == m.side_records
            &&& n.instance_fences == m.instance_fences
            &&& consistent(n)
        }),
{
    let pairs = creation_pairs(m);
    let l = listing_of::<(u64, u64)>(pairs);
    let list = image_list(m);
    assert(pairs.finite()) by {
        let f = |id: ItemId| (m.items[id].created_seq, id);
        m.items.dom().lemma_map_finite(f);
        assert(pairs =~= m.items.dom().map(f)) by {
            assert forall|p: (u64, u64)| pairs.contains(p) == m.items.dom().map(f).contains(p) by {
                if pairs.contains(p) {
                    assert(m.items.dom().contains(p.1) && f(p.1) == p);
                }
            }
        }
    }
    lemma_listing_exists::<(u64, u64)>(pairs);
    lemma_ascending_distinct::<(u64, u64)>(l);
    assert forall|j: int| 0 <= j < l.len() implies m.items.contains_key((#[trigger] l[j]).1)
        && m.items[l[j].1].created_seq == l[j].0 by {
        assert(l.to_set().contains(l[j]));
    }
    assert(distinct_items(list, Map::<ItemId, Item>::empty())) by {
        assert forall|a: int, b: int| 0 <= a < b < list.len() implies (
        #[trigger] list[a]).item_id != (#[trigger] list[b]).item_id by {
            assert(list[a] == image_of(m.items[l[a].1]));
            assert(list[b] == image_of(m.items[l[b].1]));
            assert(m.items.contains_key(l[a].1) && m.items.contains_key(l[b].1));
            assert(l[a] != l[b]);
        }
    }
    assert forall|k: int| 0 <= k < list.len() implies put_back(
        image_base(d, image),
        #[trigger] list[k],
    ) by {
        assert(list[k] == image_of(m.items[l[k].1]));
        assert(m.items.contains_key(l[k].1));
    }
    lemma_restore_succeeds(image_base(d, image), list);
    law_import_is_consistent(d, image);
    lemma_table_of_listing(m, l, Map::empty());
    lemma_rebuilt_frame(image_base(d, image), list);
    let n = rebuilt(d, image).0;
    assert(n.items =~= m.items) by {
        assert forall|id: ItemId| m.items.contains_key(id) implies n.items.contains_key(id) by {
            let p = (m.items[id].created_seq, id);
            assert(pairs.contains(p));
            assert(l.to_set().contains(p));
            let j = choose|j: int| 0 <= j < l.len() && l[j] == p;
            assert(l[j].1 == id);
        }
    }
    assert(creation_pairs(n) =~= pairs);
    assert(image_list(n) =~= list);
}

proof fn lemma_rebuilt_frame(m: Model, list: Seq<ImageItemV>)
    ensures
        ({
            let n = run(m, list, restore_each()).0;
            &&& n.paused == m.paused
            &&& n.pause_drain_intake == m.pause_drain_intake
            &&& n.blocked_gates == m.blocked_gates
            &&& n.side_records == m.side_records
            &&& n.instance_fences == m.instance_fences
        }),
    decreases list.len(),
{
    if list.len() > 0 {
        lemma_relisted_frame(m, imaged(list[0]));
        lemma_rebuilt_frame(restored(m, imaged(list[0])).0, list.drop_first());
    }
}

} // verus!
