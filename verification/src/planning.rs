//! What a mutation request makes of one item, resolved before anything is committed.

use crate::apply::edit_fields;
use crate::indexing::{IndexKeyV, index_checked};
use crate::item::{Item, ItemRecord};
use crate::json::{EntityEditOperation, Json, JsonV, apply_entity_edit, edited_document, opt_json, same_json};
use crate::model::{Model, edited_fields};
use crate::order::{OrdSet, listing_of};
use crate::predicate::{begins_with, gate_key_valid, is_lease_active, leads, lease_active, metadata_equal, same_fields, same_metadata, same_texts, valid_gate_keys};
use crate::projection::{ProjectionData, copy_key};
use crate::shared::share;
use crate::text::{contains_text, same_text, texts};
use crate::types::{Entity, EntityV, GateKeyPolicy, IndexFields, ItemState, Metadata, PriorityModelKind, PriorityV, PriorityValue, ResolvedItemMutation, ResolvedItemMutationAction, ResolvedItemValues, UtcTimestamp, clone_opt_priority, field_bytes, keys_view, metadata_of, opt_bytes, opt_doc, opt_priority, same_opt_bytes, same_opt_priority, share_opt_bytes, ts_max};
use bytes::Bytes;
use std::sync::Arc;
use vstd::prelude::*;

verus! {

/// Whether a value is kept or replaced.
pub enum BatchUpdateValue<T> {
    Keep,
    Replace(T),
}

#[derive(Clone, Copy, PartialEq, Eq, Structural, Debug)]
pub enum LifecyclePatch {
    Keep,
    SetPending,
    SetComplete,
    SetFailed,
    Purge,
}

/// What a mutation demands of the item's lease.
pub enum LeaseGuard {
    RejectActive,
    RequireActive,
    /// The lease is live and has this token.
    Match(String),
    InvalidateActive,
}

/// Gate keys to take away, alone or by how they begin, and gate keys to add.
pub struct GateKeyPatch {
    pub add: Vec<String>,
    pub remove: Vec<String>,
    pub remove_prefixes: Vec<String>,
}

pub struct EntityEdit {
    pub pointer: String,
    pub operation: EntityEditOperation,
}

/// A change of an item's values.
pub struct ItemPatch {
    pub lifecycle: LifecyclePatch,
    pub priority: BatchUpdateValue<Option<PriorityValue>>,
    pub not_before: BatchUpdateValue<Option<UtcTimestamp>>,
    pub payload: BatchUpdateValue<Option<Bytes>>,
    pub metadata: BatchUpdateValue<Arc<Metadata>>,
    pub gate_keys: GateKeyPatch,
    pub field_edits: Vec<(String, Option<Bytes>)>,
    /// One of the edited fields is not the caller's to write.
    pub edits_reserved: bool,
    pub entity_edits: Vec<EntityEdit>,
}

#[derive(Clone, Copy, PartialEq, Eq, Structural, Debug)]
pub enum ItemMutationPrecondition {
    Predicate,
    ActiveLease,
}

/// What a mutation comes to for one item.
#[derive(Clone, Copy, PartialEq, Eq, Structural, Debug)]
pub enum ItemMutationOutcome {
    Updated { item_version: u64, state: ItemState },
    WouldUpdate { item_version: u64, state: ItemState },
    Purged,
    WouldPurge,
    NoChange,
    NotFound,
    Conflict { actual_version: u64 },
    PreconditionFailed(ItemMutationPrecondition),
    StaleLease,
    Terminal,
    Invalid,
}

/// The values that a mutation resolved.
pub ghost struct ValuesV {
    pub state: ItemState,
    pub item_version: u64,
    pub priority: Option<PriorityV>,
    pub not_before: Option<UtcTimestamp>,
    pub eligible_since: UtcTimestamp,
    pub payload: Option<Seq<u8>>,
    pub fields: Map<Seq<char>, Seq<u8>>,
    pub metadata: Map<Seq<char>, JsonV>,
    pub gate_keys: Seq<Seq<char>>,
    pub entity: Option<EntityV>,
    pub invalidate_lease: bool,
}

pub open spec fn values_v(v: ResolvedItemValues) -> ValuesV {
    ValuesV {
        state: v.state,
        item_version: v.item_version,
        priority: opt_priority(v.priority),
        not_before: v.not_before,
        eligible_since: v.eligible_since,
        payload: opt_bytes(v.payload),
        fields: field_bytes(*v.fields),
        metadata: metadata_of(*v.metadata),
        gate_keys: texts(v.gate_keys@),
        entity: opt_doc(v.entity_document),
        invalidate_lease: v.invalidate_lease,
    }
}

/// The typed index values of a resolved item are those of its document.
pub open spec fn follows_document(v: ResolvedItemValues) -> bool {
    &&& v.index_fields.empty
    &&& v.index_fields.stored == Ok::<Option<Vec<u8>>, String>(None)
    &&& (match v.index_fields.keys {
        Ok(k) => Ok(keys_view(k@)),
        Err(t) => Err(t@),
    }) == (match v.entity_document {
        Some(d) => d@.keys,
        None => Ok(Seq::empty()),
    })
}

pub ghost enum ActionV {
    Purge,
    Replace(ValuesV),
}

pub open spec fn action_v(a: ResolvedItemMutationAction) -> ActionV {
    match a {
        ResolvedItemMutationAction::Purge => ActionV::Purge,
        ResolvedItemMutationAction::Replace(v) => ActionV::Replace(values_v(v)),
    }
}

/// What comes of one item: the outcome, and what to do to it, if anything.
pub type RecordPlanV = (ItemMutationOutcome, Option<ActionV>);

/// Why the guard turns the mutation away, if it does.
pub open spec fn guard_refusal(i: Item, guard: LeaseGuard, at: UtcTimestamp) -> Option<
    ItemMutationOutcome,
> {
    match guard {
        LeaseGuard::RejectActive => if lease_active(i, at) {
            Some(
                ItemMutationOutcome::PreconditionFailed(ItemMutationPrecondition::ActiveLease),
            )
        } else {
            None
        },
        LeaseGuard::RequireActive => if !lease_active(i, at) {
            Some(
                ItemMutationOutcome::PreconditionFailed(ItemMutationPrecondition::ActiveLease),
            )
        } else {
            None
        },
        LeaseGuard::Match(token) => if !lease_active(i, at) || i.lease_token != Some(token@) {
            Some(ItemMutationOutcome::StaleLease)
        } else {
            None
        },
        LeaseGuard::InvalidateActive => None,
    }
}

/// The state that the item is to have. A lease that is called off leaves it pending.
pub open spec fn planned_state(i: Item, guard: LeaseGuard, p: LifecyclePatch) -> ItemState {
    match p {
        LifecyclePatch::SetPending => ItemState::Pending,
        LifecyclePatch::SetComplete => ItemState::Complete,
        LifecyclePatch::SetFailed => ItemState::Failed,
        _ => if i.state is Leased && guard is InvalidateActive {
            ItemState::Pending
        } else {
            i.state
        },
    }
}

/// The priority is of the kind that the queue ranks by.
pub open spec fn ranks(m: Model, p: Option<PriorityV>) -> bool {
    match (p, m.priority_model.kind) {
        (None, _) => true,
        (Some(PriorityV::Timestamp(_)), PriorityModelKind::Timestamp) => true,
        (Some(PriorityV::Int64(_)), PriorityModelKind::Int64) => true,
        (Some(PriorityV::Decimal(_)), PriorityModelKind::Decimal) => true,
        (Some(PriorityV::Text(_)), PriorityModelKind::Text) => true,
        _ => false,
    }
}

/// Some text of the list begins the key.
pub open spec fn led_by(prefixes: Seq<Seq<char>>, key: Seq<char>) -> bool {
    exists|i: int| 0 <= i < prefixes.len() && leads(#[trigger] prefixes[i], key)
}

/// Gate keys that the item is to have, in order, each once.
pub open spec fn planned_gates(before: Seq<Seq<char>>, p: GateKeyPatch) -> Seq<Seq<char>> {
    listing_of::<String>(planned_gate_set(before, p))
}

pub open spec fn planned_gate_set(before: Seq<Seq<char>>, p: GateKeyPatch) -> Set<Seq<char>> {
    Set::new(
        |k: Seq<char>|
            texts(p.add@).contains(k) || (before.contains(k) && !texts(p.remove@).contains(k)
                && !led_by(texts(p.remove_prefixes@), k)),
    )
}

/// The queue lets an item stand under these gate keys.
pub open spec fn gates_allowed(m: Model, keys: Seq<Seq<char>>) -> bool {
    &&& forall|i: int| 0 <= i < keys.len() ==> gate_key_valid(#[trigger] keys[i])
    &&& keys.len() > 0 ==> m.policy.gate_keys is Dynamic
    &&& m.policy.max_gate_keys_per_item is Some ==> keys.len()
        <= m.policy.max_gate_keys_per_item->Some_0
}

/// A document after edits: none where one of them cannot be made.
pub open spec fn edited_by(doc: Option<JsonV>, edits: Seq<EntityEdit>) -> Option<Option<JsonV>>
    decreases edits.len(),
{
    if edits.len() == 0 {
        Some(doc)
    } else {
        match edited_by(doc, edits.drop_last()) {
            None => None,
            Some(d) => match edited_document(
                d,
                edits.last().pointer@,
                edits.last().operation@,
            ) {
                Ok(n) => Some(n),
                Err(_) => None,
            },
        }
    }
}

proof fn lemma_edited_stops(doc: Option<JsonV>, edits: Seq<EntityEdit>, n: int)
    requires
        0 <= n <= edits.len(),
        edited_by(doc, edits.take(n)) is None,
    ensures
        edited_by(doc, edits) is None,
    decreases edits.len() - n,
{
    if n == edits.len() {
        assert(edits.take(n) =~= edits);
    } else {
        assert(edits.take(n + 1).drop_last() =~= edits.take(n));
        lemma_edited_stops(doc, edits, n + 1);
    }
}

/// The place of the first entity with that document, or the number of entities.
pub open spec fn known_at(known: Seq<Arc<Entity>>, doc: JsonV, from: int) -> int
    decreases known.len() - from,
{
    if from < 0 || from >= known.len() {
        known.len() as int
    } else if known[from]@.document == doc {
        from
    } else {
        known_at(known, doc, from + 1)
    }
}

pub open spec fn doc_of(e: Option<EntityV>) -> Option<JsonV> {
    match e {
        Some(x) => Some(x.document),
        None => None,
    }
}

/// The entity of a document: the item's own where it did not change, or else a known one. A document
/// whose keys nobody knows is handed back.
pub open spec fn resolved_entity(
    before: Option<EntityV>,
    doc: Option<JsonV>,
    known: Seq<Arc<Entity>>,
) -> Result<Option<EntityV>, JsonV> {
    match doc {
        None => Ok(None),
        Some(d) => if doc_of(before) == Some(d) {
            Ok(before)
        } else if known_at(known, d, 0) < known.len() {
            Ok(Some(known[known_at(known, d, 0)]@))
        } else {
            Err(d)
        },
    }
}

/// When the item starts to age: anew where it comes back to pending or its schedule moves.
pub open spec fn planned_since(
    i: Item,
    state: ItemState,
    not_before: Option<UtcTimestamp>,
    at: UtcTimestamp,
) -> UtcTimestamp {
    if state is Pending && (not_before != i.not_before || !(i.state is Pending)) {
        ts_max(
            match not_before {
                Some(t) => t,
                None => at,
            },
            at,
        )
    } else {
        i.eligible_since
    }
}

pub open spec fn next_version(v: u64) -> u64 {
    if v == u64::MAX {
        v
    } else {
        (v + 1) as u64
    }
}

pub open spec fn kept_priority(p: ItemPatch, i: Item) -> Option<PriorityV> {
    match p.priority {
        BatchUpdateValue::Keep => i.priority,
        BatchUpdateValue::Replace(x) => opt_priority(x),
    }
}

pub open spec fn kept_not_before(p: ItemPatch, i: Item) -> Option<UtcTimestamp> {
    match p.not_before {
        BatchUpdateValue::Keep => i.not_before,
        BatchUpdateValue::Replace(x) => x,
    }
}

pub open spec fn kept_payload(p: ItemPatch, i: Item) -> Option<Seq<u8>> {
    match p.payload {
        BatchUpdateValue::Keep => i.payload,
        BatchUpdateValue::Replace(x) => opt_bytes(x),
    }
}

pub open spec fn kept_metadata(p: ItemPatch, i: Item) -> Map<Seq<char>, JsonV> {
    match p.metadata {
        BatchUpdateValue::Keep => i.metadata,
        BatchUpdateValue::Replace(x) => metadata_of(*x),
    }
}

/// The item's values after a patch.
pub open spec fn planned_values(
    i: Item,
    guard: LeaseGuard,
    p: ItemPatch,
    at: UtcTimestamp,
    entity: Option<EntityV>,
) -> ValuesV {
    let state = planned_state(i, guard, p.lifecycle);
    ValuesV {
        state,
        item_version: next_version(i.item_version),
        priority: kept_priority(p, i),
        not_before: kept_not_before(p, i),
        eligible_since: planned_since(i, state, kept_not_before(p, i), at),
        payload: kept_payload(p, i),
        fields: edited_fields(i.fields, p.field_edits@),
        metadata: kept_metadata(p, i),
        gate_keys: planned_gates(i.gate_keys, p.gate_keys),
        entity,
        invalidate_lease: i.state is Leased && (guard is InvalidateActive || !(state is Leased)),
    }
}

/// Equal documents, or none.
pub open spec fn same_docs(a: Option<JsonV>, b: Option<JsonV>) -> bool {
    match (a, b) {
        (Some(x), Some(y)) => same_json(x, y),
        (None, None) => true,
        _ => false,
    }
}

/// The values say something new of the item.
pub open spec fn says_new(i: Item, v: ValuesV) -> bool {
    v.state != i.state || v.priority != i.priority || v.not_before != i.not_before || v.payload
        != i.payload || !metadata_equal(v.metadata, i.metadata) || v.gate_keys != i.gate_keys || v.fields
        != i.fields || !same_docs(doc_of(v.entity), doc_of(i.entity)) || v.invalidate_lease
}

/// The patch asks for what the item or the queue does not allow.
pub open spec fn patch_refused(m: Model, i: Item, p: ItemPatch) -> bool {
    ||| !ranks(m, kept_priority(p, i))
    ||| texts(p.gate_keys.remove_prefixes@).contains(Seq::empty())
    ||| !gates_allowed(m, planned_gates(i.gate_keys, p.gate_keys))
    ||| p.edits_reserved
    ||| edited_by(doc_of(i.entity), p.entity_edits@) is None
}

/// What comes of one item.
pub open spec fn record_plan(
    m: Model,
    i: Item,
    guard: LeaseGuard,
    p: ItemPatch,
    at: UtcTimestamp,
    dry_run: bool,
    known: Seq<Arc<Entity>>,
) -> Result<RecordPlanV, JsonV> {
    let state = planned_state(i, guard, p.lifecycle);
    if guard_refusal(i, guard, at) is Some {
        Ok((guard_refusal(i, guard, at)->Some_0, None))
    } else if i.state.terminal() && (p.lifecycle is SetComplete || p.lifecycle is SetFailed) {
        Ok((ItemMutationOutcome::Terminal, None))
    } else if p.lifecycle is Purge {
        if dry_run {
            Ok((ItemMutationOutcome::WouldPurge, None))
        } else {
            Ok((ItemMutationOutcome::Purged, Some(ActionV::Purge)))
        }
    } else if lease_active(i, at) && !(state is Leased) && guard is RejectActive {
        Ok(
            (
                ItemMutationOutcome::PreconditionFailed(ItemMutationPrecondition::ActiveLease),
                None,
            ),
        )
    } else if patch_refused(m, i, p) {
        Ok((ItemMutationOutcome::Invalid, None))
    } else {
        match resolved_entity(
            i.entity,
            edited_by(doc_of(i.entity), p.entity_edits@)->Some_0,
            known,
        ) {
            Err(d) => Err(d),
            Ok(entity) => {
                let v = planned_values(i, guard, p, at, entity);
                if index_checked(m, i.item_id, v.fields, v.entity, None) is Err {
                    Ok((ItemMutationOutcome::Invalid, None))
                } else if !says_new(i, v) {
                    Ok((ItemMutationOutcome::NoChange, None))
                } else if dry_run {
                    Ok(
                        (
                            ItemMutationOutcome::WouldUpdate {
                                item_version: v.item_version,
                                state,
                            },
                            None,
                        ),
                    )
                } else {
                    Ok(
                        (
                            ItemMutationOutcome::Updated { item_version: v.item_version, state },
                            Some(ActionV::Replace(v)),
                        ),
                    )
                }
            },
        }
    }
}

fn refuse_by_guard(record: &ItemRecord, guard: &LeaseGuard, at: UtcTimestamp) -> (r: Option<
    ItemMutationOutcome,
>)
    ensures
        r == guard_refusal(record@, *guard, at),
{
    let active = is_lease_active(record, at);
    match guard {
        LeaseGuard::RejectActive => if active {
            Some(
                ItemMutationOutcome::PreconditionFailed(ItemMutationPrecondition::ActiveLease),
            )
        } else {
            None
        },
        LeaseGuard::RequireActive => if !active {
            Some(
                ItemMutationOutcome::PreconditionFailed(ItemMutationPrecondition::ActiveLease),
            )
        } else {
            None
        },
        LeaseGuard::Match(token) => {
            let held_by_caller = match &record.lease_token {
                Some(t) => same_text(t.as_str(), token.as_str()),
                None => false,
            };
            if !active || !held_by_caller {
                Some(ItemMutationOutcome::StaleLease)
            } else {
                None
            }
        },
        LeaseGuard::InvalidateActive => None,
    }
}

fn state_after(record: &ItemRecord, guard: &LeaseGuard, p: LifecyclePatch) -> (r: ItemState)
    ensures
        r == planned_state(record@, *guard, p),
{
    match p {
        LifecyclePatch::SetPending => ItemState::Pending,
        LifecyclePatch::SetComplete => ItemState::Complete,
        LifecyclePatch::SetFailed => ItemState::Failed,
        _ => match (record.state, guard) {
            (ItemState::Leased, LeaseGuard::InvalidateActive) => ItemState::Pending,
            _ => record.state,
        },
    }
}

fn is_led_by(prefixes: &Vec<String>, key: &str) -> (r: bool)
    ensures
        r == led_by(texts(prefixes@), key@),
{
    let ghost all = texts(prefixes@);
    let mut i: usize = 0;
    while i < prefixes.len()
        invariant
            i <= prefixes@.len(),
            all == texts(prefixes@),
            forall|j: int| 0 <= j < i ==> !leads(#[trigger] all[j], key@),
        decreases prefixes@.len() - i,
    {
        assert(all[i as int] == prefixes@[i as int]@);
        if begins_with(key, prefixes[i].as_str()) {
            assert(leads(all[i as int], key@));
            return true;
        }
        i = i + 1;
    }
    false
}

/// Gate keys after a patch.
fn patch_gates(before: &Vec<String>, p: &GateKeyPatch) -> (r: Vec<String>)
    ensures
        texts(r@) == planned_gates(texts(before@), *p),
{
    let ghost had = texts(before@);
    let ghost more = texts(p.add@);
    let mut kept: OrdSet<String> = OrdSet::new();
    let mut i: usize = 0;
    while i < before.len()
        invariant
            i <= before@.len(),
            had == texts(before@),
            forall|k: Seq<char>| #[trigger]
                kept@.contains(k) <==> (had.take(i as int).contains(k) && !texts(
                    p.remove@,
                ).contains(k) && !led_by(texts(p.remove_prefixes@), k)),
        decreases before@.len() - i,
    {
        let ghost prior = kept@;
        let key = &before[i];
        if !contains_text(&p.remove, key.as_str()) && !is_led_by(&p.remove_prefixes, key.as_str()) {
            kept.insert(key.clone());
        }
        proof {
            assert(had[i as int] == key@);
            assert(had.take(i as int + 1) =~= had.take(i as int).push(key@));
            assert forall|k: Seq<char>| #[trigger] kept@.contains(k) <==> (had.take(
                i as int + 1,
            ).contains(k) && !texts(p.remove@).contains(k) && !led_by(
                texts(p.remove_prefixes@),
                k,
            )) by {
                lemma_push_contains(had.take(i as int), key@, k);
                assert(prior.contains(k) <==> (had.take(i as int).contains(k) && !texts(
                    p.remove@,
                ).contains(k) && !led_by(texts(p.remove_prefixes@), k)));
            }
        }
        i = i + 1;
    }
    assert(had.take(i as int) =~= had);
    let ghost retained = kept@;
    let mut j: usize = 0;
    while j < p.add.len()
        invariant
            j <= p.add@.len(),
            more == texts(p.add@),
            forall|k: Seq<char>| #[trigger]
                kept@.contains(k) <==> (retained.contains(k) || more.take(j as int).contains(k)),
        decreases p.add@.len() - j,
    {
        let ghost prior = kept@;
        kept.insert(p.add[j].clone());
        proof {
            assert(more[j as int] == p.add@[j as int]@);
            assert(more.take(j as int + 1) =~= more.take(j as int).push(more[j as int]));
            assert forall|k: Seq<char>| #[trigger] kept@.contains(k) <==> (retained.contains(k)
                || more.take(j as int + 1).contains(k)) by {
                lemma_push_contains(more.take(j as int), more[j as int], k);
                assert(prior.contains(k) <==> (retained.contains(k) || more.take(
                    j as int,
                ).contains(k)));
            }
        }
        j = j + 1;
    }
    proof {
        assert(more.take(j as int) =~= more);
        assert(kept@ =~= planned_gate_set(had, *p));
    }
    let n = kept.len();
    let ghost all = kept.listing();
    let mut out: Vec<String> = Vec::new();
    let mut k: usize = 0;
    assert(texts(out@) =~= all.take(0));
    while k < n
        invariant
            k <= n,
            n == all.len(),
            all == kept.listing(),
            texts(out@) == all.take(k as int),
        decreases n - k,
    {
        let ghost prior = out@;
        let t = kept.at(k).clone();
        out.push(t);
        assert(texts(out@) =~= texts(prior).push(t@));
        assert(all.take(k as int + 1) =~= all.take(k as int).push(all[k as int]));
        k = k + 1;
    }
    assert(all.take(k as int) =~= all);
    out
}

pub(crate) proof fn lemma_push_contains<A>(s: Seq<A>, a: A, k: A)
    ensures
        s.push(a).contains(k) <==> s.contains(k) || a == k,
{
    let t = s.push(a);
    if s.contains(k) {
        let j = choose|j: int| 0 <= j < s.len() && s[j] == k;
        assert(t[j] == k);
    }
    if a == k {
        assert(t[s.len() as int] == k);
    }
    if t.contains(k) {
        let j = choose|j: int| 0 <= j < t.len() && t[j] == k;
        if j < s.len() {
            assert(s[j] == k);
        }
    }
}

/// The document after edits.
fn edit_document(entity: &Option<Arc<Entity>>, edits: &Vec<EntityEdit>) -> (r: Option<Option<Json>>)
    ensures
        match r {
            Some(d) => edited_by(doc_of(opt_doc(*entity)), edits@) == Some(opt_json(d)),
            None => edited_by(doc_of(opt_doc(*entity)), edits@) is None,
        },
{
    let ghost start = doc_of(opt_doc(*entity));
    let mut doc: Option<Json> = match entity {
        Some(e) => Some(e.document.duplicate()),
        None => None,
    };
    let mut i: usize = 0;
    assert(edits@.take(0) =~= Seq::<EntityEdit>::empty());
    while i < edits.len()
        invariant
            i <= edits@.len(),
            start == doc_of(opt_doc(*entity)),
            edited_by(start, edits@.take(i as int)) == Some(opt_json(doc)),
        decreases edits@.len() - i,
    {
        proof {
            assert(edits@.take(i as int + 1).drop_last() =~= edits@.take(i as int));
            assert(edits@.take(i as int + 1).last() == edits@[i as int]);
        }
        match apply_entity_edit(doc, edits[i].pointer.as_str(), &edits[i].operation) {
            Ok(d) => {
                doc = d;
            },
            Err(_) => {
                proof {
                    lemma_edited_stops(start, edits@, i as int + 1);
                }
                return None;
            },
        }
        i = i + 1;
    }
    assert(edits@.take(i as int) =~= edits@);
    Some(doc)
}

/// The entity of a document, or the document where its keys are not known.
pub(crate) fn resolve_entity(
    before: &Option<Arc<Entity>>,
    doc: Option<Json>,
    known: &Vec<Arc<Entity>>,
) -> (r: Result<Option<Arc<Entity>>, Json>)
    ensures
        (match r {
            Ok(e) => Ok(opt_doc(e)),
            Err(d) => Err(d@),
        }) == resolved_entity(opt_doc(*before), opt_json(doc), known@),
{
    let d = match doc {
        None => return Ok(None),
        Some(d) => d,
    };
    match before {
        Some(e) => if e.document.identical(&d) {
            return Ok(Some(share(e)));
        },
        None => {},
    }
    let mut i: usize = 0;
    while i < known.len()
        invariant
            i <= known@.len(),
            opt_json(doc) == Some(d@),
            known_at(known@, d@, 0) == known_at(known@, d@, i as int),
            resolved_entity(opt_doc(*before), Some(d@), known@) == (if known_at(known@, d@, 0)
                < known@.len() {
                Ok::<Option<EntityV>, JsonV>(Some(known@[known_at(known@, d@, 0)]@))
            } else {
                Err(d@)
            }),
        decreases known@.len() - i,
    {
        if known[i].document.identical(&d) {
            return Ok(Some(share(&known[i])));
        }
        i = i + 1;
    }
    Err(d)
}

/// The index values of an item that has none beside its document.
fn index_fields_of(entity: &Option<Arc<Entity>>) -> (r: IndexFields)
    ensures
        r.empty,
        r.stored == Ok::<Option<Vec<u8>>, String>(None),
        (match r.keys {
            Ok(k) => Ok(keys_view(k@)),
            Err(t) => Err(t@),
        }) == (match *entity {
            Some(d) => d@.keys,
            None => Ok(Seq::empty()),
        }),
{
    let keys: Result<Vec<(String, Vec<u8>)>, String> = match entity {
        None => {
            let none: Vec<(String, Vec<u8>)> = Vec::new();
            assert(keys_view(none@) =~= Seq::<IndexKeyV>::empty());
            Ok(none)
        },
        Some(e) => match &e.keys {
            Err(t) => Err(t.clone()),
            Ok(ks) => {
                let ghost all = keys_view(ks@);
                let mut out: Vec<(String, Vec<u8>)> = Vec::new();
                let mut i: usize = 0;
                assert(keys_view(out@) =~= all.take(0));
                while i < ks.len()
                    invariant
                        i <= ks@.len(),
                        all == keys_view(ks@),
                        keys_view(out@) == all.take(i as int),
                    decreases ks@.len() - i,
                {
                    let ghost before = out@;
                    let k = copy_key(&ks[i]);
                    out.push(k);
                    assert(keys_view(out@) =~= keys_view(before).push(all[i as int]));
                    assert(all.take(i as int + 1) =~= all.take(i as int).push(all[i as int]));
                    i = i + 1;
                }
                assert(all.take(i as int) =~= all);
                Ok(out)
            },
        },
    };
    IndexFields { empty: true, stored: Ok(None), keys }
}

fn same_document(a: &Option<Arc<Entity>>, b: &Option<Arc<Entity>>) -> (r: bool)
    ensures
        r == same_docs(doc_of(opt_doc(*a)), doc_of(opt_doc(*b))),
{
    match (a, b) {
        (None, None) => true,
        (Some(x), Some(y)) => x.document.same(&y.document),
        _ => false,
    }
}

impl ProjectionData {
    fn priority_ranks(&self, p: &Option<PriorityValue>) -> (r: bool)
        ensures
            r == ranks(self@, opt_priority(*p)),
    {
        match (p, self.priority_model.kind) {
            (None, _) => true,
            (Some(PriorityValue::Timestamp(_)), PriorityModelKind::Timestamp) => true,
            (Some(PriorityValue::Int64(_)), PriorityModelKind::Int64) => true,
            (Some(PriorityValue::Decimal(_)), PriorityModelKind::Decimal) => true,
            (Some(PriorityValue::Text(_)), PriorityModelKind::Text) => true,
            _ => false,
        }
    }

    fn allows_gates(&self, keys: &Vec<String>) -> (r: bool)
        ensures
            r == gates_allowed(self@, texts(keys@)),
    {
        assert(texts(keys@).len() == keys@.len());
        if !valid_gate_keys(keys) {
            return false;
        }
        let dynamic = match self.policy.gate_keys {
            GateKeyPolicy::Dynamic => true,
            _ => false,
        };
        if keys.len() > 0 && !dynamic {
            return false;
        }
        match self.policy.max_gate_keys_per_item {
            Some(limit) => keys.len() as u64 <= limit,
            None => true,
        }
    }

    /// Resolves what a patch makes of one item. `known` holds the entities of documents whose keys
    /// have been worked out; a document that it lacks is handed back.
    pub fn plan_record_mutation(
        &self,
        record: &ItemRecord,
        lease_guard: &LeaseGuard,
        patch: &ItemPatch,
        evaluated_at: UtcTimestamp,
        dry_run: bool,
        known: &Vec<Arc<Entity>>,
    ) -> (r: Result<(ItemMutationOutcome, Option<ResolvedItemMutation>), Json>)
        ensures
            ({
                let plan = record_plan(
                    self@,
                    record@,
                    *lease_guard,
                    *patch,
                    evaluated_at,
                    dry_run,
                    known@,
                );
                match r {
                    Err(d) => plan == Err::<RecordPlanV, JsonV>(d@),
                    Ok((o, None)) => plan == Ok::<RecordPlanV, JsonV>((o, None)),
                    Ok((o, Some(c))) => plan == Ok::<RecordPlanV, JsonV>(
                        (o, Some(action_v(c.action))),
                    ) && c.item_id == record.item_id && (c.action is Replace ==> follows_document(
                        c.action->Replace_0,
                    )),
                }
            }),
    {
        match refuse_by_guard(record, lease_guard, evaluated_at) {
            Some(o) => return Ok((o, None)),
            None => {},
        }
        let ends = match patch.lifecycle {
            LifecyclePatch::SetComplete => true,
            LifecyclePatch::SetFailed => true,
            _ => false,
        };
        if record.state.is_terminal() && ends {
            return Ok((ItemMutationOutcome::Terminal, None));
        }
        match patch.lifecycle {
            LifecyclePatch::Purge => {
                if dry_run {
                    return Ok((ItemMutationOutcome::WouldPurge, None));
                }
                return Ok(
                    (
                        ItemMutationOutcome::Purged,
                        Some(
                            ResolvedItemMutation {
                                item_id: record.item_id,
                                action: ResolvedItemMutationAction::Purge,
                            },
                        ),
                    ),
                );
            },
            _ => {},
        }
        let state = state_after(record, lease_guard, patch.lifecycle);
        let leased = match state {
            ItemState::Leased => true,
            _ => false,
        };
        let (rejects, invalidates) = match lease_guard {
            LeaseGuard::RejectActive => (true, false),
            LeaseGuard::InvalidateActive => (false, true),
            _ => (false, false),
        };
        if is_lease_active(record, evaluated_at) && !leased && rejects {
            return Ok(
                (
                    ItemMutationOutcome::PreconditionFailed(ItemMutationPrecondition::ActiveLease),
                    None,
                ),
            );
        }
        let priority = match &patch.priority {
            BatchUpdateValue::Keep => clone_opt_priority(&record.priority),
            BatchUpdateValue::Replace(p) => clone_opt_priority(p),
        };
        if !self.priority_ranks(&priority) {
            return Ok((ItemMutationOutcome::Invalid, None));
        }
        let not_before = match patch.not_before {
            BatchUpdateValue::Keep => record.not_before,
            BatchUpdateValue::Replace(t) => t,
        };
        let payload = match &patch.payload {
            BatchUpdateValue::Keep => share_opt_bytes(&record.payload),
            BatchUpdateValue::Replace(p) => share_opt_bytes(p),
        };
        let metadata = match &patch.metadata {
            BatchUpdateValue::Keep => share(&record.metadata),
            BatchUpdateValue::Replace(m) => share(m),
        };
        proof {
            reveal_strlit("");
            assert(""@ =~= Seq::<char>::empty());
        }
        if contains_text(&patch.gate_keys.remove_prefixes, "") {
            return Ok((ItemMutationOutcome::Invalid, None));
        }
        let gate_keys = patch_gates(&record.gate_keys, &patch.gate_keys);
        if !self.allows_gates(&gate_keys) || patch.edits_reserved {
            return Ok((ItemMutationOutcome::Invalid, None));
        }
        let fields = edit_fields(&record.fields, &patch.field_edits);
        let doc = match edit_document(&record.entity_document, &patch.entity_edits) {
            Some(d) => d,
            None => return Ok((ItemMutationOutcome::Invalid, None)),
        };
        let entity = match resolve_entity(&record.entity_document, doc, known) {
            Ok(e) => e,
            Err(d) => return Err(d),
        };
        match self.index_validate_with_entity(record.item_id, &fields, &entity, None) {
            Ok(_) => {},
            Err(_) => return Ok((ItemMutationOutcome::Invalid, None)),
        }
        let was_leased = match record.state {
            ItemState::Leased => true,
            _ => false,
        };
        let invalidate_lease = was_leased && (invalidates || !leased);
        let changed = state != record.state || !same_opt_priority(&priority, &record.priority)
            || not_before != record.not_before || !same_opt_bytes(&payload, &record.payload)
            || !same_metadata(&metadata, &record.metadata) || !same_texts(
            &gate_keys,
            &record.gate_keys,
        ) || !same_fields(&fields, &record.fields) || !same_document(
            &entity,
            &record.entity_document,
        ) || invalidate_lease;
        if !changed {
            return Ok((ItemMutationOutcome::NoChange, None));
        }
        let item_version = record.item_version.saturating_add(1);
        if dry_run {
            return Ok((ItemMutationOutcome::WouldUpdate { item_version, state }, None));
        }
        let pends = match state {
            ItemState::Pending => true,
            _ => false,
        };
        let pended = match record.state {
            ItemState::Pending => true,
            _ => false,
        };
        let eligible_since = if pends && (not_before != record.not_before || !pended) {
            let from = match not_before {
                Some(t) => t,
                None => evaluated_at,
            };
            from.later_of(evaluated_at)
        } else {
            record.eligible_since
        };
        let index_fields = index_fields_of(&entity);
        let values = ResolvedItemValues {
            state,
            item_version,
            priority,
            not_before,
            eligible_since,
            payload,
            fields: Arc::new(fields),
            metadata,
            gate_keys: Arc::new(gate_keys),
            entity_document: entity,
            index_fields: Arc::new(index_fields),
            invalidate_lease,
        };
        Ok(
            (
                ItemMutationOutcome::Updated { item_version, state },
                Some(
                    ResolvedItemMutation {
                        item_id: record.item_id,
                        action: ResolvedItemMutationAction::Replace(values),
                    },
                ),
            ),
        )
    }
}

/// A dry run changes nothing, and says what the run itself would do.
pub proof fn law_dry_run_foretells(
    m: Model,
    i: Item,
    guard: LeaseGuard,
    p: ItemPatch,
    at: UtcTimestamp,
    known: Seq<Arc<Entity>>,
)
    requires
        record_plan(m, i, guard, p, at, true, known) is Ok,
    ensures
        ({
            let dry = record_plan(m, i, guard, p, at, true, known)->Ok_0;
            let run = record_plan(m, i, guard, p, at, false, known)->Ok_0;
            &&& record_plan(m, i, guard, p, at, false, known) is Ok
            &&& dry.1 is None
            &&& dry.0 == (match run.0 {
                ItemMutationOutcome::Updated { item_version, state } =>
                    ItemMutationOutcome::WouldUpdate { item_version, state },
                ItemMutationOutcome::Purged => ItemMutationOutcome::WouldPurge,
                o => o,
            })
        }),
{
}

/// A live lease is only changed by a guard that names it or calls it off.
pub proof fn law_live_lease_is_guarded(
    m: Model,
    i: Item,
    p: ItemPatch,
    at: UtcTimestamp,
    known: Seq<Arc<Entity>>,
)
    requires
        lease_active(i, at),
    ensures
        record_plan(m, i, LeaseGuard::RejectActive, p, at, false, known) == Ok::<RecordPlanV, JsonV>(
            (
                ItemMutationOutcome::PreconditionFailed(ItemMutationPrecondition::ActiveLease),
                None,
            ),
        ),
{
}

/// An item's version goes up by one with each change that a mutation makes, and only then.
pub proof fn law_mutation_moves_version_once(
    m: Model,
    i: Item,
    guard: LeaseGuard,
    p: ItemPatch,
    at: UtcTimestamp,
    known: Seq<Arc<Entity>>,
)
    requires
        i.item_version < u64::MAX,
        record_plan(m, i, guard, p, at, false, known) is Ok,
    ensures
        match record_plan(m, i, guard, p, at, false, known)->Ok_0.1 {
            Some(ActionV::Replace(v)) => v.item_version == i.item_version + 1 && says_new(i, v),
            _ => true,
        },
{
}

} // verus!
