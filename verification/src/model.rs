//! What a queue's projection holds, and what each command makes of it.

use crate::eligibility::{EligV, is_plain, key_of, removed_place};
use crate::item::{Item, PushV, pushed_item};
use crate::order::listing_of;
use crate::text::{opt_text, texts};
use crate::types::{EligibilityPolicy, EntityV, ErrorV, FinalizeKind, FinalizeOutcome, GateChange, IndexSpecV, ItemEvent, ItemId, ItemState, NotBeforeUpdate, OrderingMode, PayloadUpdate, PositionV, PriorityModel, PriorityUpdate, PushItem, QueueCommand, QueueIndexV, QueueMetrics, RecurrencePolicy, ReplacePendingCommand, ResolvedItemMutation, ResolvedItemMutationAction, ResolvedItemValues, SideRecord, UpdateFieldsCommand, UtcTimestamp, field_bytes, metadata_of, next_state, opt_bytes, opt_doc, opt_priority, ts_lt, ts_max};
use bytes::Bytes;
use vstd::prelude::*;

verus! {

/// The state of a queue.
pub ghost struct Model {
    pub items: Map<ItemId, Item>,
    /// The leased items.
    pub leased: Set<ItemId>,
    /// The leased items by the token of their lease.
    pub by_consumer: Set<(Seq<char>, ItemId)>,
    /// The ordinary leases by when they expire.
    pub by_expiry: Set<(UtcTimestamp, ItemId)>,
    /// The items that clients gave a key of their own.
    pub by_key: Map<Seq<char>, ItemId>,
    /// The places of the items that may be claimed.
    pub eligible: Set<EligV>,
    /// Only the creation order of the places is kept.
    pub compact: bool,
    pub metrics: QueueMetrics,
    pub next_seq: u64,
    pub priority_model: PriorityModel,
    pub ordering_mode: OrderingMode,
    pub max_rank_error: u32,
    pub recurrence: RecurrencePolicy,
    pub paused: bool,
    pub pause_drain_intake: bool,
    pub blocked_gates: Set<Seq<char>>,
    pub policy: EligibilityPolicy,
    /// The items under each gate key.
    pub gate_members: Set<(Seq<char>, ItemId)>,
    /// Whether each index is unique.
    pub index_kinds: Map<Seq<char>, bool>,
    /// The holder of each key of a unique index.
    pub unique: Map<(Seq<char>, Seq<u8>), ItemId>,
    /// The holders of each key of the other indexes.
    pub multi: Set<((Seq<char>, Seq<u8>), ItemId)>,
    pub index_specs: Seq<IndexSpecV>,
    pub typed_index_specs: Seq<QueueIndexV>,
    /// Opaque records that are no work.
    pub side_records: Map<Seq<u8>, Seq<u8>>,
    pub instance_fences: Map<Seq<u8>, u64>,
}

/// A state and how the command that made it ended. What was done before a failure stays.
pub type Step = (Model, Result<(), ErrorV>);

/// One step for each member of a list, up to the first that fails.
pub open spec fn run<A>(m: Model, list: Seq<A>, f: spec_fn(Model, A) -> Step) -> Step
    decreases list.len(),
{
    if list.len() == 0 {
        (m, Ok(()))
    } else {
        let (n, r) = f(m, list[0]);
        match r {
            Err(e) => (n, Err(e)),
            Ok(_) => run(n, list.drop_first(), f),
        }
    }
}

/// Some gate that the item stands under is blocked.
pub open spec fn gated(blocked: Set<Seq<char>>, keys: Seq<Seq<char>>) -> bool {
    exists|i: int| 0 <= i < keys.len() && blocked.contains(#[trigger] keys[i])
}

/// The item may be claimed, but for its schedule.
pub open spec fn ready(m: Model, i: Item) -> bool {
    i.state is Pending && !gated(m.blocked_gates, i.gate_keys)
}

/// The item takes its place among the eligible.
pub open spec fn enter(m: Model, i: Item) -> Model {
    let k = key_of(i, m.priority_model);
    Model { eligible: m.eligible.insert(k), compact: m.compact && is_plain(k), ..m }
}

/// The item gives up its place.
pub open spec fn leave(m: Model, i: Item) -> Model {
    Model {
        eligible: removed_place(m.eligible, m.compact, key_of(i, m.priority_model)),
        ..m
    }
}

pub open spec fn enter_if(m: Model, cause: bool, i: Item) -> Model {
    if cause {
        enter(m, i)
    } else {
        m
    }
}

pub open spec fn leave_if(m: Model, cause: bool, i: Item) -> Model {
    if cause {
        leave(m, i)
    } else {
        m
    }
}

pub open spec fn less_one(n: u64) -> u64 {
    if n > 0 {
        (n - 1) as u64
    } else {
        0
    }
}

pub open spec fn counted(c: QueueMetrics, s: ItemState) -> QueueMetrics {
    match s {
        ItemState::Pending => QueueMetrics { pending: (c.pending + 1) as u64, ..c },
        ItemState::Leased => QueueMetrics { leased: (c.leased + 1) as u64, ..c },
        ItemState::Complete => QueueMetrics {
            complete: (c.complete + 1) as u64,
            resident_terminal_count: (c.resident_terminal_count + 1) as u64,
            ..c
        },
        ItemState::Failed => QueueMetrics {
            failed: (c.failed + 1) as u64,
            resident_terminal_count: (c.resident_terminal_count + 1) as u64,
            ..c
        },
    }
}

pub open spec fn uncounted(c: QueueMetrics, s: ItemState) -> QueueMetrics {
    match s {
        ItemState::Pending => QueueMetrics { pending: less_one(c.pending), ..c },
        ItemState::Leased => QueueMetrics { leased: less_one(c.leased), ..c },
        ItemState::Complete => QueueMetrics {
            complete: less_one(c.complete),
            resident_terminal_count: less_one(c.resident_terminal_count),
            ..c
        },
        ItemState::Failed => QueueMetrics {
            failed: less_one(c.failed),
            resident_terminal_count: less_one(c.resident_terminal_count),
            ..c
        },
    }
}

pub open spec fn recounted(c: QueueMetrics, before: ItemState, after: ItemState) -> QueueMetrics {
    if before == after {
        c
    } else {
        counted(uncounted(c, before), after)
    }
}

/// The counts leave superseded items out, so such an item changes its state uncounted.
pub open spec fn recounted_live(
    c: QueueMetrics,
    superseded: bool,
    before: ItemState,
    after: ItemState,
) -> QueueMetrics {
    if superseded {
        c
    } else {
        recounted(c, before, after)
    }
}

/// The item under its identifier in the table.
pub open spec fn put(m: Model, id: ItemId, i: Item) -> Model {
    Model { items: m.items.insert(id, i), ..m }
}

/// The raw key of an index: the values of its fields, each after its length.
pub open spec fn raw_key(
    fields: Map<Seq<char>, Seq<u8>>,
    names: Seq<Seq<char>>,
) -> Option<Seq<u8>>
    decreases names.len(),
{
    if names.len() == 0 {
        Some(Seq::empty())
    } else {
        match raw_key(fields, names.drop_last()) {
            None => None,
            Some(k) => if fields.contains_key(names.last()) {
                Some(k + component(fields[names.last()]))
            } else {
                None
            },
        }
    }
}

/// A value after its length in four bytes.
pub open spec fn component(value: Seq<u8>) -> Seq<u8> {
    crate::encoding::be_bytes((value.len() % 0x1_0000_0000) as nat, 4) + value
}

/// The keys of an item under the raw indexes that cover it.
pub open spec fn raw_keys(specs: Seq<IndexSpecV>, fields: Map<Seq<char>, Seq<u8>>) -> Seq<
    (Seq<char>, Seq<u8>),
>
    decreases specs.len(),
{
    if specs.len() == 0 {
        Seq::empty()
    } else {
        let before = raw_keys(specs.drop_last(), fields);
        match raw_key(fields, specs.last().fields) {
            Some(k) => before.push((specs.last().name, k)),
            None => before,
        }
    }
}

/// The keys of an item under all indexes that cover it.
pub open spec fn index_keys(
    m: Model,
    fields: Map<Seq<char>, Seq<u8>>,
    entity: Option<EntityV>,
) -> Result<Seq<(Seq<char>, Seq<u8>)>, ErrorV> {
    let raw = raw_keys(m.index_specs, fields);
    match entity {
        None => Ok(raw),
        Some(e) => match e.keys {
            Ok(k) => Ok(raw + k),
            Err(t) => Err(ErrorV::Storage(t)),
        },
    }
}

pub open spec fn index_one(m: Model, id: ItemId, key: (Seq<char>, Seq<u8>)) -> Model {
    if !m.index_kinds.contains_key(key.0) {
        m
    } else if m.index_kinds[key.0] {
        Model { unique: m.unique.insert(key, id), ..m }
    } else {
        Model { multi: m.multi.insert((key, id)), ..m }
    }
}

/// The item is found under the keys.
pub open spec fn indexed(m: Model, id: ItemId, keys: Seq<(Seq<char>, Seq<u8>)>) -> Model
    decreases keys.len(),
{
    if keys.len() == 0 {
        m
    } else {
        index_one(indexed(m, id, keys.drop_last()), id, keys.last())
    }
}

pub open spec fn unindex_one(m: Model, id: ItemId, key: (Seq<char>, Seq<u8>)) -> Model {
    if !m.index_kinds.contains_key(key.0) {
        m
    } else if m.index_kinds[key.0] {
        if m.unique.contains_key(key) && m.unique[key] == id {
            Model { unique: m.unique.remove(key), ..m }
        } else {
            m
        }
    } else {
        Model { multi: m.multi.remove((key, id)), ..m }
    }
}

/// The item is no longer found under the keys.
pub open spec fn unindexed(m: Model, id: ItemId, keys: Seq<(Seq<char>, Seq<u8>)>) -> Model
    decreases keys.len(),
{
    if keys.len() == 0 {
        m
    } else {
        unindex_one(unindexed(m, id, keys.drop_last()), id, keys.last())
    }
}

/// The members of one list that another lacks, in order.
pub open spec fn lacking(
    keys: Seq<(Seq<char>, Seq<u8>)>,
    other: Seq<(Seq<char>, Seq<u8>)>,
) -> Seq<(Seq<char>, Seq<u8>)>
    decreases keys.len(),
{
    if keys.len() == 0 {
        Seq::empty()
    } else {
        let before = lacking(keys.drop_last(), other);
        if other.contains(keys.last()) {
            before
        } else {
            before.push(keys.last())
        }
    }
}

/// The item moves from its old index keys to its new ones.
pub open spec fn reindexed(
    m: Model,
    id: ItemId,
    old_keys: Seq<(Seq<char>, Seq<u8>)>,
    new_keys: Seq<(Seq<char>, Seq<u8>)>,
) -> Model {
    indexed(unindexed(m, id, lacking(old_keys, new_keys)), id, lacking(new_keys, old_keys))
}

/// The item moves from its old gate keys to its new ones.
pub open spec fn regated(m: Model, id: ItemId, before: Seq<Seq<char>>, after: Seq<Seq<char>>) -> Model {
    Model {
        gate_members: Set::new(
            |p: (Seq<char>, ItemId)|
                if p.1 == id && before.contains(p.0) && !after.contains(p.0) {
                    false
                } else {
                    m.gate_members.contains(p) || (p.1 == id && after.contains(p.0)
                        && !before.contains(p.0))
                },
        ),
        ..m
    }
}

/// The item stands under its gate keys.
pub open spec fn gates_joined(m: Model, id: ItemId, keys: Seq<Seq<char>>) -> Model {
    Model {
        gate_members: Set::new(
            |p: (Seq<char>, ItemId)|
                m.gate_members.contains(p) || (p.1 == id && keys.contains(p.0)),
        ),
        ..m
    }
}

/// A new item takes its place, its key and its gates. What stood under its identifier gives up its
/// place first.
pub open spec fn announced(m: Model, i: Item) -> Model {
    let id = i.item_id;
    let m1 = leave_if(
        m,
        m.items.contains_key(id) && ready(m, m.items[id]) && !m.items[id].superseded,
        m.items[id],
    );
    let m2 = enter_if(m1, ready(m, i), i);
    let m3 = match i.explicit_key {
        Some(k) => Model { by_key: m2.by_key.insert(k, id), ..m2 },
        None => m2,
    };
    gates_joined(m3, id, i.gate_keys)
}

/// A new pending item. Where its index keys cannot be told, it gets no entry in the table.
pub open spec fn inserted(m: Model, p: PushV, at: Option<UtcTimestamp>) -> Step {
    let i = pushed_item(p, m.next_seq, at);
    let n = announced(Model { next_seq: (m.next_seq + 1) as u64, ..m }, i);
    match index_keys(n, i.fields, i.entity) {
        Err(e) => (n, Err(e)),
        Ok(keys) => {
            let n1 = put(indexed(n, i.item_id, keys), i.item_id, i);
            (
                Model {
                    metrics: QueueMetrics {
                        pending: (n1.metrics.pending + 1) as u64,
                        ..n1.metrics
                    },
                    ..n1
                },
                Ok(()),
            )
        },
    }
}

/// An item in its next state.
pub open spec fn moved(
    i: Item,
    state: ItemState,
    at: Option<UtcTimestamp>,
    pos: Option<PositionV>,
) -> Item {
    Item {
        state,
        item_version: (i.item_version + 1) as u64,
        worker_id: if state is Leased {
            i.worker_id
        } else {
            None
        },
        terminal_at: if state.terminal() {
            at
        } else if i.state.terminal() {
            None
        } else {
            i.terminal_at
        },
        terminal_position: if state.terminal() {
            pos
        } else if i.state.terminal() {
            None
        } else {
            i.terminal_position
        },
        ..i
    }
}

/// The lease of an item is found nowhere.
pub open spec fn unleased(
    m: Model,
    id: ItemId,
    token: Option<Seq<char>>,
    expires: Option<UtcTimestamp>,
) -> Model {
    Model {
        leased: m.leased.remove(id),
        by_expiry: match expires {
            Some(e) => m.by_expiry.remove((e, id)),
            None => m.by_expiry,
        },
        by_consumer: match token {
            Some(t) => m.by_consumer.remove((t, id)),
            None => m.by_consumer,
        },
        ..m
    }
}

/// One step of an item's life.
pub open spec fn transitioned(
    m: Model,
    id: ItemId,
    ev: ItemEvent,
    at: Option<UtcTimestamp>,
    pos: Option<PositionV>,
) -> Step {
    if !m.items.contains_key(id) {
        (m, Err(ErrorV::NotFound))
    } else {
        let i = m.items[id];
        if i.superseded {
            (m, Err(ErrorV::Superseded))
        } else {
            match next_state(i.state, ev) {
                None => (m, Err(ErrorV::Invalid("illegal lifecycle transition"@))),
                Some(state) => {
                    let j = moved(i, state, at, pos);
                    let m1 = put(m, id, j);
                    let m2 = if i.state is Leased && !(state is Leased) {
                        unleased(m1, id, i.lease_token, i.lease_expires_at)
                    } else {
                        m1
                    };
                    let m3 = leave_if(m2, ready(m, i), i);
                    let m4 = enter_if(m3, ready(m, j), j);
                    (Model { metrics: recounted(m4.metrics, i.state, state), ..m4 }, Ok(()))
                },
            }
        }
    }
}

/// An item is handed to a worker.
pub open spec fn claimed(
    m: Model,
    id: ItemId,
    token: Seq<char>,
    expires: UtcTimestamp,
    worker: Option<Seq<char>>,
    cohort: bool,
) -> Step {
    let (n, r) = transitioned(m, id, ItemEvent::Claim, None, None);
    match r {
        Err(e) => (n, Err(e)),
        Ok(_) => {
            let i = n.items[id];
            let j = Item {
                lease_token: Some(token),
                lease_expires_at: Some(expires),
                lease_is_cohort: cohort,
                worker_id: if cohort {
                    i.worker_id
                } else {
                    worker
                },
                attempt_count: (i.attempt_count + 1) as u32,
                ..i
            };
            let n2 = put(n, id, j);
            (
                Model {
                    leased: n2.leased.insert(id),
                    by_consumer: n2.by_consumer.insert((token, id)),
                    by_expiry: if cohort {
                        n2.by_expiry
                    } else {
                        n2.by_expiry.insert((expires, id))
                    },
                    ..n2
                },
                Ok(()),
            )
        },
    }
}

pub open spec fn without_expiry(m: Model, id: ItemId, expires: Option<UtcTimestamp>) -> Model {
    match expires {
        Some(e) => Model { by_expiry: m.by_expiry.remove((e, id)), ..m },
        None => m,
    }
}

/// A lease gets a new expiry.
pub open spec fn renewed(m: Model, id: ItemId, expires: UtcTimestamp) -> Step {
    if !m.items.contains_key(id) {
        (m, Err(ErrorV::NotFound))
    } else {
        let i = m.items[id];
        let n = put(
            without_expiry(m, id, i.lease_expires_at),
            id,
            Item {
                lease_expires_at: Some(expires),
                item_version: (i.item_version + 1) as u64,
                ..i
            },
        );
        (Model { by_expiry: n.by_expiry.insert((expires, id)), ..n }, Ok(()))
    }
}

/// A lease passes to a new holder.
pub open spec fn reassigned(m: Model, id: ItemId, token: Seq<char>, expires: UtcTimestamp) -> Step {
    if !m.items.contains_key(id) {
        (m, Err(ErrorV::NotFound))
    } else {
        let i = m.items[id];
        let n = put(
            without_expiry(m, id, i.lease_expires_at),
            id,
            Item {
                lease_token: Some(token),
                lease_expires_at: Some(expires),
                attempt_count: (i.attempt_count + 1) as u32,
                item_version: (i.item_version + 1) as u64,
                ..i
            },
        );
        (
            Model {
                by_expiry: n.by_expiry.insert((expires, id)),
                by_consumer: (match i.lease_token {
                    Some(t) => n.by_consumer.remove((t, id)),
                    None => n.by_consumer,
                }).insert((token, id)),
                ..n
            },
            Ok(()),
        )
    }
}

/// Fields set or dropped, in order.
pub open spec fn edited_fields(
    fields: Map<Seq<char>, Seq<u8>>,
    ops: Seq<(String, Option<Bytes>)>,
) -> Map<Seq<char>, Seq<u8>>
    decreases ops.len(),
{
    if ops.len() == 0 {
        fields
    } else {
        let before = edited_fields(fields, ops.drop_last());
        match ops.last().1 {
            Some(v) => before.insert(ops.last().0@, crate::shared::bytes_of(v)),
            None => before.remove(ops.last().0@),
        }
    }
}

/// The fields of an item after an update.
pub open spec fn updated_fields(i: Item, c: UpdateFieldsCommand) -> Map<Seq<char>, Seq<u8>> {
    edited_fields(
        match c.set_fields {
            Some(f) => field_bytes(*f),
            None => i.fields,
        },
        c.field_ops@,
    )
}

/// The entity of an item after an update.
pub open spec fn updated_entity(i: Item, c: UpdateFieldsCommand) -> Option<EntityV> {
    match c.set_entity_document {
        Some(d) => Some(d@),
        None => i.entity,
    }
}

pub open spec fn updated_item(i: Item, c: UpdateFieldsCommand, at: Option<UtcTimestamp>) -> Item {
    let now = match at {
        Some(t) => t,
        None => i.eligible_since,
    };
    Item {
        fields: updated_fields(i, c),
        payload: match c.payload {
            PayloadUpdate::Keep => i.payload,
            PayloadUpdate::Replace(p) => opt_bytes(p),
        },
        metadata: match c.set_metadata {
            Some(x) => metadata_of(*x),
            None => i.metadata,
        },
        gate_keys: match c.set_gate_keys {
            Some(k) => texts(k@),
            None => i.gate_keys,
        },
        entity: updated_entity(i, c),
        priority: match c.set_priority {
            PriorityUpdate::Keep => i.priority,
            PriorityUpdate::Replace(p) => opt_priority(p),
        },
        not_before: match c.set_not_before {
            NotBeforeUpdate::Keep => i.not_before,
            NotBeforeUpdate::Replace(nb) => nb,
        },
        eligible_since: match c.set_not_before {
            NotBeforeUpdate::Keep => i.eligible_since,
            NotBeforeUpdate::Replace(nb) => if c.api001_batch {
                i.eligible_since
            } else {
                ts_max(
                    match nb {
                        Some(t) => t,
                        None => now,
                    },
                    now,
                )
            },
        },
        item_version: (i.item_version + 1) as u64,
        ..i
    }
}

/// The update can move the item among the eligible.
pub open spec fn moves_place(c: UpdateFieldsCommand) -> bool {
    c.set_priority is Replace || c.set_not_before is Replace || c.set_gate_keys is Some
}

/// The values of a live item change.
pub open spec fn updated(m: Model, c: UpdateFieldsCommand, at: Option<UtcTimestamp>) -> Step {
    let id = c.item_id;
    if !m.items.contains_key(id) {
        (m, Err(ErrorV::NotFound))
    } else {
        let i = m.items[id];
        match index_keys(m, i.fields, i.entity) {
            Err(e) => (m, Err(e)),
            Ok(old_keys) => match index_keys(m, updated_fields(i, c), updated_entity(i, c)) {
                Err(e) => (m, Err(e)),
                Ok(new_keys) => {
                    let j = updated_item(i, c, at);
                    let m1 = reindexed(put(m, id, j), id, old_keys, new_keys);
                    let m2 = regated(m1, id, i.gate_keys, j.gate_keys);
                    let m3 = leave_if(m2, moves_place(c) && ready(m, i), i);
                    (enter_if(m3, moves_place(c) && ready(m, j), j), Ok(()))
                },
            },
        }
    }
}

/// An item's record is gone from the table; this takes it out of everything else.
pub open spec fn forgotten(m: Model, i: Item) -> Step {
    let id = i.item_id;
    let m1 = if i.superseded {
        m
    } else {
        Model { metrics: uncounted(m.metrics, i.state), ..m }
    };
    let m2 = match i.explicit_key {
        Some(k) => Model { by_key: m1.by_key.remove(k), ..m1 },
        None => m1,
    };
    let m3 = regated(m2, id, i.gate_keys, Seq::empty());
    let m4 = leave_if(m3, i.state is Pending, i);
    let m5 = if i.state is Leased {
        unleased(m4, id, i.lease_token, i.lease_expires_at)
    } else {
        m4
    };
    match index_keys(m5, i.fields, i.entity) {
        Err(e) => (m5, Err(e)),
        Ok(keys) => (unindexed(m5, id, keys), Ok(())),
    }
}

pub open spec fn purged(m: Model, id: ItemId) -> Step {
    if m.items.contains_key(id) {
        forgotten(Model { items: m.items.remove(id), ..m }, m.items[id])
    } else {
        (m, Ok(()))
    }
}

/// The values that a mutation resolved take the place of an item's own.
pub open spec fn replaced_item(
    i: Item,
    v: ResolvedItemValues,
    lease_ends: bool,
    at: Option<UtcTimestamp>,
    pos: Option<PositionV>,
) -> Item {
    Item {
        state: v.state,
        item_version: v.item_version,
        priority: opt_priority(v.priority),
        not_before: v.not_before,
        eligible_since: v.eligible_since,
        payload: opt_bytes(v.payload),
        fields: field_bytes(*v.fields),
        metadata: metadata_of(*v.metadata),
        gate_keys: texts(v.gate_keys@),
        entity: opt_doc(v.entity_document),
        lease_token: if lease_ends {
            None
        } else {
            i.lease_token
        },
        lease_expires_at: if lease_ends {
            None
        } else {
            i.lease_expires_at
        },
        lease_is_cohort: if lease_ends {
            false
        } else {
            i.lease_is_cohort
        },
        worker_id: if lease_ends {
            None
        } else {
            i.worker_id
        },
        fenced: if lease_ends {
            false
        } else {
            i.fenced
        },
        terminal_at: if v.state.terminal() {
            at
        } else {
            None
        },
        terminal_position: if v.state.terminal() {
            pos
        } else {
            None
        },
        ..i
    }
}

/// The index keys of the values that a mutation resolved.
pub open spec fn values_keys(m: Model, v: ResolvedItemValues) -> Result<
    Seq<(Seq<char>, Seq<u8>)>,
    ErrorV,
> {
    index_keys(m, field_bytes(*v.fields), opt_doc(v.entity_document))
}

/// The lease of the item does not outlive the mutation.
pub open spec fn ends_lease(i: Item, v: ResolvedItemValues) -> bool {
    i.state is Leased && (v.invalidate_lease || !(v.state is Leased))
}

/// An item that is about to be replaced gives up its place and, where it ends, its lease.
pub open spec fn withdrawn(m: Model, id: ItemId, i: Item, lease_ends: bool) -> Model {
    let m1 = leave_if(m, ready(m, i) && !i.superseded, i);
    if lease_ends {
        unleased(
            m1,
            id,
            i.lease_token,
            if i.lease_is_cohort {
                None
            } else {
                i.lease_expires_at
            },
        )
    } else {
        m1
    }
}

/// The new values of an item take effect everywhere.
pub open spec fn settled(
    m: Model,
    id: ItemId,
    i: Item,
    j: Item,
    old_keys: Seq<(Seq<char>, Seq<u8>)>,
    new_keys: Seq<(Seq<char>, Seq<u8>)>,
) -> Model {
    let m1 = reindexed(put(m, id, j), id, old_keys, new_keys);
    let m2 = regated(m1, id, i.gate_keys, j.gate_keys);
    let m3 = Model { metrics: recounted_live(m2.metrics, i.superseded, i.state, j.state), ..m2 };
    enter_if(m3, ready(m, j) && !j.superseded, j)
}

pub open spec fn replaced(
    m: Model,
    id: ItemId,
    v: ResolvedItemValues,
    at: Option<UtcTimestamp>,
    pos: Option<PositionV>,
) -> Step {
    if !m.items.contains_key(id) {
        (m, Err(ErrorV::NotFound))
    } else {
        let i = m.items[id];
        match index_keys(m, i.fields, i.entity) {
            Err(e) => (m, Err(e)),
            Ok(old_keys) => {
                let n = withdrawn(m, id, i, ends_lease(i, v));
                match values_keys(n, v) {
                    Err(e) => (n, Err(e)),
                    Ok(new_keys) => (
                        settled(
                            n,
                            id,
                            i,
                            replaced_item(i, v, ends_lease(i, v), at, pos),
                            old_keys,
                            new_keys,
                        ),
                        Ok(()),
                    ),
                }
            },
        }
    }
}

pub open spec fn mutated(
    m: Model,
    x: ResolvedItemMutation,
    at: Option<UtcTimestamp>,
    pos: Option<PositionV>,
) -> Step {
    match x.action {
        ResolvedItemMutationAction::Purge => purged(m, x.item_id),
        ResolvedItemMutationAction::Replace(v) => replaced(m, x.item_id, v, at, pos),
    }
}

/// The items that stand under one of the gates.
pub open spec fn under_gates(m: Model, keys: Seq<Seq<char>>) -> Set<ItemId> {
    Set::new(
        |id: ItemId|
            exists|k: Seq<char>| #[trigger]
                m.gate_members.contains((k, id)) && keys.contains(k),
    )
}

pub open spec fn gates_after(
    blocked_gates: Set<Seq<char>>,
    keys: Seq<Seq<char>>,
    blocked: bool,
) -> Set<Seq<char>> {
    if blocked {
        blocked_gates.union(keys.to_set())
    } else {
        blocked_gates.difference(keys.to_set())
    }
}

/// An item whose gates changed gives up or takes its place.
pub open spec fn gate_settled(m: Model, before: Set<Seq<char>>, id: ItemId) -> Step {
    if m.items.contains_key(id) && m.items[id].state is Pending && !m.items[id].superseded {
        let i = m.items[id];
        let was = gated(before, i.gate_keys);
        let now = gated(m.blocked_gates, i.gate_keys);
        (enter_if(leave_if(m, !was && now, i), was && !now, i), Ok(()))
    } else {
        (m, Ok(()))
    }
}

pub open spec fn gate_settle(before: Set<Seq<char>>) -> spec_fn(Model, ItemId) -> Step {
    |m: Model, id: ItemId| gate_settled(m, before, id)
}

/// Gates are blocked or opened, and the items under them follow.
pub open spec fn gates_changed(m: Model, keys: Seq<Seq<char>>, blocked: bool) -> Step {
    let ids = listing_of::<u64>(under_gates(m, keys));
    let n = Model { blocked_gates: gates_after(m.blocked_gates, keys, blocked), ..m };
    run(n, ids, gate_settle(m.blocked_gates))
}

/// What a finalization means for an item: a retry that used up its deliveries fails, and a rearm past
/// the end of its series completes.
pub open spec fn final_event(m: Model, o: FinalizeOutcome) -> Result<ItemEvent, ErrorV> {
    match o.kind {
        FinalizeKind::Complete => Ok(ItemEvent::FinalizeComplete),
        FinalizeKind::Fail => Ok(ItemEvent::FinalizeFail),
        FinalizeKind::Retry => if !m.items.contains_key(o.item_id) {
            Err(ErrorV::NotFound)
        } else if m.items[o.item_id].attempt_count >= m.items[o.item_id].max_attempts {
            Ok(ItemEvent::FinalizeFail)
        } else {
            Ok(ItemEvent::FinalizeRetry)
        },
        FinalizeKind::Release => Ok(ItemEvent::FinalizeRelease),
        FinalizeKind::Rearm => Ok(
            if series_over(m.recurrence, o.not_before) {
                ItemEvent::FinalizeComplete
            } else {
                ItemEvent::FinalizeRearm
            },
        ),
    }
}

pub open spec fn series_over(r: RecurrencePolicy, next: Option<UtcTimestamp>) -> bool {
    match (next, r.until) {
        (Some(nb), Some(until)) => r.mode is Recurring && ts_lt(until, nb),
        _ => false,
    }
}

/// An item after its lease was given up.
pub open spec fn released_item(i: Item) -> Item {
    Item {
        lease_token: None,
        lease_expires_at: None,
        lease_is_cohort: false,
        fenced: false,
        ..i
    }
}

/// An item that goes back to pending gets its next schedule.
pub open spec fn rescheduled_item(i: Item, o: FinalizeOutcome, at: Option<UtcTimestamp>) -> Item {
    let now = match at {
        Some(t) => t,
        None => i.eligible_since,
    };
    if !(i.state is Pending) {
        i
    } else {
        match (o.kind, o.not_before) {
            (FinalizeKind::Rearm, Some(nb)) => Item {
                attempt_count: 0,
                not_before: Some(nb),
                eligible_since: ts_max(nb, now),
                ..i
            },
            (FinalizeKind::Rearm, None) => Item { attempt_count: 0, eligible_since: now, ..i },
            (FinalizeKind::Retry, Some(nb)) => Item {
                not_before: Some(nb),
                eligible_since: nb,
                ..i
            },
            _ => i,
        }
    }
}

/// The lease of a finalized item is given up, and it gets its next schedule.
pub open spec fn handed_back(m: Model, o: FinalizeOutcome, at: Option<UtcTimestamp>) -> Model {
    let i = released_item(m.items[o.item_id]);
    let j = rescheduled_item(i, o, at);
    let n = put(m, o.item_id, j);
    let rekey = ready(m, i) && key_of(i, m.priority_model) != key_of(j, m.priority_model);
    enter_if(leave_if(n, rekey, i), rekey, j)
}

pub open spec fn finalized(
    m: Model,
    o: FinalizeOutcome,
    at: Option<UtcTimestamp>,
    pos: Option<PositionV>,
) -> Step {
    match final_event(m, o) {
        Err(e) => (m, Err(e)),
        Ok(ev) => {
            let (n, r) = transitioned(m, o.item_id, ev, at, pos);
            match r {
                Err(e) => (n, Err(e)),
                Ok(_) => (handed_back(n, o, at), Ok(())),
            }
        },
    }
}

/// An item gives way to another: it loses its place, its index entries and its gates, and is counted no
/// more.
pub open spec fn retired(m: Model, id: ItemId) -> Step {
    if m.items.contains_key(id) {
        let i = m.items[id];
        match index_keys(m, i.fields, i.entity) {
            Err(e) => (m, Err(e)),
            Ok(keys) => {
                let m1 = put(m, id, Item { superseded: true, ..i });
                let m2 = leave_if(m1, i.state is Pending, i);
                let m3 = if i.superseded {
                    m2
                } else {
                    Model { metrics: uncounted(m2.metrics, i.state), ..m2 }
                };
                let m4 = unindexed(m3, id, keys);
                (regated(m4, id, i.gate_keys, Seq::empty()), Ok(()))
            },
        }
    } else {
        (m, Ok(()))
    }
}

/// A pending item is replaced under its client key.
pub open spec fn superseded(m: Model, c: ReplacePendingCommand, at: Option<UtcTimestamp>) -> Step {
    let cleared = retired(m, c.superseded_item_id);
    match cleared.1 {
        Err(e) => (cleared.0, Err(e)),
        Ok(_) => inserted(
            Model { by_key: cleared.0.by_key.remove(c.client_item_key@), ..cleared.0 },
            c.replacement@,
            at,
        ),
    }
}

/// A lease ran out: the item goes back to pending.
pub open spec fn lapsed(m: Model, id: ItemId) -> Step {
    let (n, r) = transitioned(m, id, ItemEvent::LeaseExpired, None, None);
    match r {
        Err(e) => (n, Err(e)),
        Ok(_) => {
            let i = n.items[id];
            (
                put(
                    n,
                    id,
                    Item {
                        lease_token: None,
                        lease_expires_at: None,
                        lease_is_cohort: false,
                        ..i
                    },
                ),
                Ok(()),
            )
        },
    }
}

/// The live items of a group.
pub open spec fn live_group(m: Model, group: Seq<char>) -> Set<ItemId> {
    Set::new(
        |id: ItemId|
            m.items.contains_key(id) && m.items[id].group_key == Some(group)
                && !m.items[id].state.terminal(),
    )
}

/// One member of a cohort that did not complete fails, and its lease ends.
pub open spec fn cohort_failed(
    m: Model,
    id: ItemId,
    at: Option<UtcTimestamp>,
    pos: Option<PositionV>,
) -> Step {
    if !m.items.contains_key(id) {
        (m, Ok(()))
    } else {
        let i = m.items[id];
        let j = Item {
            state: ItemState::Failed,
            item_version: (i.item_version + 1) as u64,
            terminal_at: at,
            terminal_position: pos,
            ..i
        };
        let m1 = leave_if(put(m, id, j), i.state is Pending, i);
        let m2 = Model {
            metrics: recounted_live(m1.metrics, i.superseded, i.state, ItemState::Failed),
            ..m1
        };
        let m3 = if i.state is Leased {
            unleased(
                m2,
                id,
                i.lease_token,
                if i.lease_is_cohort {
                    None
                } else {
                    i.lease_expires_at
                },
            )
        } else {
            m2
        };
        (m3, Ok(()))
    }
}

pub open spec fn fenced(m: Model, id: ItemId, on: bool) -> Step {
    if m.items.contains_key(id) {
        (put(m, id, Item { fenced: on, ..m.items[id] }), Ok(()))
    } else {
        (m, Ok(()))
    }
}

pub open spec fn side_written(m: Model, r: SideRecord) -> Step {
    (
        Model {
            side_records: m.side_records.insert(r.key@, crate::shared::bytes_of(r.payload)),
            ..m
        },
        Ok(()),
    )
}

pub open spec fn insert_each(at: Option<UtcTimestamp>) -> spec_fn(Model, PushItem) -> Step {
    |m: Model, p: PushItem| inserted(m, p@, at)
}

pub open spec fn claim_each(
    token: Seq<char>,
    expires: UtcTimestamp,
    worker: Option<Seq<char>>,
    cohort: bool,
) -> spec_fn(Model, ItemId) -> Step {
    |m: Model, id: ItemId| claimed(m, id, token, expires, worker, cohort)
}

pub open spec fn renew_each(expires: UtcTimestamp) -> spec_fn(Model, ItemId) -> Step {
    |m: Model, id: ItemId| renewed(m, id, expires)
}

pub open spec fn reassign_each(token: Seq<char>, expires: UtcTimestamp) -> spec_fn(
    Model,
    ItemId,
) -> Step {
    |m: Model, id: ItemId| reassigned(m, id, token, expires)
}

pub open spec fn update_each(at: Option<UtcTimestamp>) -> spec_fn(
    Model,
    UpdateFieldsCommand,
) -> Step {
    |m: Model, c: UpdateFieldsCommand| updated(m, c, at)
}

pub open spec fn mutate_each(at: Option<UtcTimestamp>, pos: Option<PositionV>) -> spec_fn(
    Model,
    ResolvedItemMutation,
) -> Step {
    |m: Model, x: ResolvedItemMutation| mutated(m, x, at, pos)
}

pub open spec fn gate_each() -> spec_fn(Model, GateChange) -> Step {
    |m: Model, g: GateChange| gates_changed(m, texts(g.gate_keys@), g.blocked)
}

pub open spec fn finalize_each(at: Option<UtcTimestamp>, pos: Option<PositionV>) -> spec_fn(
    Model,
    FinalizeOutcome,
) -> Step {
    |m: Model, o: FinalizeOutcome| finalized(m, o, at, pos)
}

pub open spec fn lapse_each() -> spec_fn(Model, ItemId) -> Step {
    |m: Model, id: ItemId| lapsed(m, id)
}

pub open spec fn cohort_fail_each(at: Option<UtcTimestamp>, pos: Option<PositionV>) -> spec_fn(
    Model,
    ItemId,
) -> Step {
    |m: Model, id: ItemId| cohort_failed(m, id, at, pos)
}

pub open spec fn fence_each(on: bool) -> spec_fn(Model, ItemId) -> Step {
    |m: Model, id: ItemId| fenced(m, id, on)
}

pub open spec fn side_each() -> spec_fn(Model, SideRecord) -> Step {
    |m: Model, r: SideRecord| side_written(m, r)
}

pub open spec fn purge_each() -> spec_fn(Model, ItemId) -> Step {
    |m: Model, id: ItemId| purged(m, id)
}

/// What a committed command makes of a queue. `at` is when it was made, `pos` where it stands in the
/// log.
pub open spec fn applied(
    m: Model,
    at: Option<UtcTimestamp>,
    pos: Option<PositionV>,
    cmd: QueueCommand,
) -> Step {
    match cmd {
        QueueCommand::CreateQueue => (m, Ok(())),
        QueueCommand::Push(items) => run(m, items@, insert_each(at)),
        QueueCommand::Claim(c) => run(
            m,
            c.item_ids@,
            claim_each(c.lease_token@, c.lease_expires_at, opt_text(c.worker_id), false),
        ),
        QueueCommand::CohortClaim(c) => run(
            m,
            c.item_ids@,
            claim_each(c.lease_token@, c.lease_expires_at, None, true),
        ),
        QueueCommand::RenewLease(c) => run(m, c.item_ids@, renew_each(c.lease_expires_at)),
        QueueCommand::CohortRenewLease(_) => (m, Ok(())),
        QueueCommand::ReassignLease(c) => run(
            m,
            c.item_ids@,
            reassign_each(c.lease_token@, c.lease_expires_at),
        ),
        QueueCommand::UpdateFields(c) => updated(m, c, at),
        QueueCommand::UpdateFieldsBatch(cs) => run(m, cs@, update_each(at)),
        QueueCommand::MutateItems(c) => {
            let (n, r) = run(m, c.items@, mutate_each(at, pos));
            match r {
                Err(e) => (n, Err(e)),
                Ok(_) => run(n, c.gate_changes@, gate_each()),
            }
        },
        QueueCommand::Finalize(outcomes) => run(m, outcomes@, finalize_each(at, pos)),
        QueueCommand::CohortFinalize(_) => (m, Ok(())),
        QueueCommand::ReplacePending(c) => superseded(m, c, at),
        QueueCommand::LeaseExpired(ids) => run(m, ids@, lapse_each()),
        QueueCommand::CohortExpired(group) => run(
            m,
            listing_of::<u64>(live_group(m, group@)),
            cohort_fail_each(at, pos),
        ),
        QueueCommand::FenceLease(ids) => run(m, ids@, fence_each(true)),
        QueueCommand::UnfenceLease(ids) => run(m, ids@, fence_each(false)),
        QueueCommand::PauseQueue(drain) => (
            Model { paused: true, pause_drain_intake: drain, ..m },
            Ok(()),
        ),
        QueueCommand::ResumeQueue => (
            Model { paused: false, pause_drain_intake: false, ..m },
            Ok(()),
        ),
        QueueCommand::SetGates(g) => gates_changed(m, texts(g.gate_keys@), g.blocked),
        QueueCommand::WriteSideRecords(rs) => run(m, rs@, side_each()),
        QueueCommand::AdvanceInstanceFence(c) => (
            Model { instance_fences: m.instance_fences.insert(c.instance_key@, c.next), ..m },
            Ok(()),
        ),
        QueueCommand::PurgeItems(c) => run(m, c.item_ids@, purge_each()),
    }
}

/// The counts of a queue, and the counters of some of its items, can go up `n` more times.
pub open spec fn room(m: Model, ids: Set<ItemId>, n: nat) -> bool {
    &&& counts_room(m, n)
    &&& forall|id: ItemId| #[trigger]
        m.items.contains_key(id) && ids.contains(id) ==> m.items[id].item_version + n <= u64::MAX
            && m.items[id].attempt_count + n <= u32::MAX
}

/// The counts of a queue, and the counters of one of its items, can go up once more.
pub open spec fn room_for(m: Model, id: ItemId) -> bool {
    &&& counts_room(m, 1)
    &&& m.items.contains_key(id) ==> m.items[id].item_version < u64::MAX
        && m.items[id].attempt_count < u32::MAX
}

/// The metrics and the creation counter can go up `n` more times.
pub open spec fn counts_room(m: Model, n: nat) -> bool {
    &&& m.metrics.pending + n <= u64::MAX
    &&& m.metrics.leased + n <= u64::MAX
    &&& m.metrics.complete + n <= u64::MAX
    &&& m.metrics.failed + n <= u64::MAX
    &&& m.metrics.resident_terminal_count + n <= u64::MAX
    &&& m.next_seq + n <= u64::MAX
}

pub open spec fn updated_ids(cs: Seq<UpdateFieldsCommand>) -> Seq<ItemId> {
    cs.map_values(|c: UpdateFieldsCommand| c.item_id)
}

pub open spec fn settled_ids(os: Seq<FinalizeOutcome>) -> Seq<ItemId> {
    os.map_values(|o: FinalizeOutcome| o.item_id)
}

/// The items that a command steps.
pub open spec fn stepped(m: Model, cmd: QueueCommand) -> Set<ItemId> {
    match cmd {
        QueueCommand::Claim(c) => c.item_ids@.to_set(),
        QueueCommand::CohortClaim(c) => c.item_ids@.to_set(),
        QueueCommand::RenewLease(c) => c.item_ids@.to_set(),
        QueueCommand::ReassignLease(c) => c.item_ids@.to_set(),
        QueueCommand::UpdateFields(c) => set![c.item_id],
        QueueCommand::UpdateFieldsBatch(cs) => updated_ids(cs@).to_set(),
        QueueCommand::Finalize(outcomes) => settled_ids(outcomes@).to_set(),
        QueueCommand::LeaseExpired(ids) => ids@.to_set(),
        QueueCommand::CohortExpired(group) => live_group(m, group@),
        _ => Set::empty(),
    }
}

/// How many steps a command takes at most.
pub open spec fn steps_of(m: Model, cmd: QueueCommand) -> nat {
    match cmd {
        QueueCommand::Claim(c) => c.item_ids@.len(),
        QueueCommand::CohortClaim(c) => c.item_ids@.len(),
        QueueCommand::RenewLease(c) => c.item_ids@.len(),
        QueueCommand::ReassignLease(c) => c.item_ids@.len(),
        QueueCommand::UpdateFields(_) => 1,
        QueueCommand::UpdateFieldsBatch(cs) => cs@.len(),
        QueueCommand::Finalize(outcomes) => outcomes@.len(),
        QueueCommand::LeaseExpired(ids) => ids@.len(),
        QueueCommand::CohortExpired(group) => live_group(m, group@).len(),
        _ => 0,
    }
}

/// The counters that a command moves do not run over.
pub open spec fn fits(m: Model, cmd: QueueCommand) -> bool {
    match cmd {
        QueueCommand::MutateItems(c) => counts_room(m, c.items@.len()),
        QueueCommand::Push(items) => counts_room(m, items@.len()),
        QueueCommand::ReplacePending(_) => counts_room(m, 1),
        _ => room(m, stepped(m, cmd), steps_of(m, cmd)),
    }
}

} // verus!
