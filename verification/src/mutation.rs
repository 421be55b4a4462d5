//! Mutation requests: which items they reach, what comes of each, and the command that carries it out.

use crate::apply::{lemma_gates_frame, lemma_indexed_frame};
use crate::consistency::keyed;
use crate::image::creation_pairs;
use crate::indexing::{IndexKeyV, reserved};
use crate::item::{Item, ItemRecord, client_key};
use crate::json::{Json, JsonV};
use crate::model::{Model, applied, ends_lease, forgotten, gate_each, gates_after, index_keys, lacking, leave_if, mutate_each, mutated, put, regated, replaced_item, run, uncounted, under_gates, unindexed, unleased, values_keys, withdrawn};
use crate::order::{OrdMap, OrdSet, OrderKey, lemma_ascending_at, listing_of};
use crate::planning::{ActionV, ItemMutationOutcome, ItemMutationPrecondition, ItemPatch, LeaseGuard, RecordPlanV, action_v, follows_document, lemma_push_contains, record_plan};
use crate::predicate::{ItemPredicate, all_hold, gate_key_valid, predicates_match, valid_gate_key};
use crate::projection::ProjectionData;
use crate::shared::{fx_keys, share};
use crate::text::{clone_opt_text, clone_texts, opt_text, texts};
use crate::types::{CommandPosition, EngineError, EngineResult, Entity, ErrorV, FieldMap, GateChange, GateKeyPolicy, ItemId, ItemState, Metadata, MutateItemsCommand, PositionV, PriorityValue, QueueCommand, ResolvedItemMutation, ResolvedItemMutationAction, UtcTimestamp, clone_opt_position, clone_opt_priority, field_bytes, metadata_of, opt_bytes, opt_doc, opt_position, opt_priority, outcome, share_opt_bytes, share_opt_doc};
use bytes::Bytes;
use std::sync::Arc;
use vstd::prelude::*;

verus! {

#[derive(Clone, Copy, PartialEq, Eq, Structural, Debug)]
pub enum ItemMutationReturning {
    Nothing,
    BeforeSnapshot,
}

#[derive(Clone, Copy, PartialEq, Eq, Structural, Debug)]
pub enum ItemSelectorScope {
    Live,
    Retained,
}

/// Which items a clause is about.
pub struct ItemSelector {
    pub scope: ItemSelectorScope,
    pub predicates: Vec<ItemPredicate>,
}

/// A change of one item that is named.
pub struct AddressedMutation {
    pub item_id: ItemId,
    pub expected_item_version: Option<u64>,
    pub predicates: Vec<ItemPredicate>,
    pub lease_guard: LeaseGuard,
    pub patch: ItemPatch,
}

/// A change of every item that is selected.
pub struct SelectorClause {
    pub selector_id: String,
    pub selector: ItemSelector,
    pub predicates: Vec<ItemPredicate>,
    pub lease_guard: LeaseGuard,
    pub patch: ItemPatch,
}

pub enum ItemMutationOperation {
    Addressed(Vec<AddressedMutation>),
    /// The first clause that selects an item decides about it.
    SelectFirst(Vec<SelectorClause>),
}

pub struct ItemMutationRequest {
    pub request_id: String,
    pub evaluated_at: UtcTimestamp,
    pub dry_run: bool,
    pub returning: ItemMutationReturning,
    pub operation: ItemMutationOperation,
    pub gate_changes: Vec<GateChange>,
}

/// An item as it was before the mutation.
pub struct ItemMutationSnapshot {
    pub item_id: ItemId,
    pub client_item_key: String,
    pub item_version: u64,
    pub lifecycle_state: ItemState,
    pub priority: Option<PriorityValue>,
    pub group_key: Option<String>,
    pub cohort_size: Option<u64>,
    pub not_before: Option<UtcTimestamp>,
    pub eligible_since: UtcTimestamp,
    pub attempt_count: u32,
    pub max_attempts: u32,
    pub payload: Option<Bytes>,
    pub fields: Arc<FieldMap>,
    pub metadata: Arc<Metadata>,
    pub gate_keys: Arc<Vec<String>>,
    pub entity: Option<Arc<Entity>>,
    pub lease_token: Option<String>,
    pub lease_expires_at: Option<UtcTimestamp>,
    pub lease_is_cohort: bool,
    pub worker_id: Option<String>,
    pub fenced: bool,
    pub superseded: bool,
    pub terminal_at: Option<UtcTimestamp>,
    pub terminal_position: Option<CommandPosition>,
}

/// The snapshot holds what the item held, all but its place in the creation order.
pub open spec fn snapshot_of(s: ItemMutationSnapshot, i: Item) -> bool {
    &&& s.client_item_key@ == client_key(i)
    &&& i == (Item {
        item_id: s.item_id,
        explicit_key: i.explicit_key,
        priority: opt_priority(s.priority),
        not_before: s.not_before,
        eligible_since: s.eligible_since,
        group_key: opt_text(s.group_key),
        cohort_size: s.cohort_size,
        payload: opt_bytes(s.payload),
        fields: field_bytes(*s.fields),
        metadata: metadata_of(*s.metadata),
        gate_keys: texts(s.gate_keys@),
        entity: opt_doc(s.entity),
        state: s.lifecycle_state,
        item_version: s.item_version,
        attempt_count: s.attempt_count,
        max_attempts: s.max_attempts,
        created_seq: i.created_seq,
        lease_token: opt_text(s.lease_token),
        lease_expires_at: s.lease_expires_at,
        lease_is_cohort: s.lease_is_cohort,
        worker_id: opt_text(s.worker_id),
        fenced: s.fenced,
        superseded: s.superseded,
        terminal_at: s.terminal_at,
        terminal_position: opt_position(s.terminal_position),
    })
}

pub fn mutation_snapshot(record: &ItemRecord) -> (r: ItemMutationSnapshot)
    ensures
        snapshot_of(r, record@),
{
    ItemMutationSnapshot {
        item_id: record.item_id,
        client_item_key: record.client_item_key(),
        item_version: record.item_version,
        lifecycle_state: record.state,
        priority: clone_opt_priority(&record.priority),
        group_key: clone_opt_text(&record.group_key),
        cohort_size: record.cohort_size,
        not_before: record.not_before,
        eligible_since: record.eligible_since,
        attempt_count: record.attempt_count,
        max_attempts: record.max_attempts,
        payload: share_opt_bytes(&record.payload),
        fields: share(&record.fields),
        metadata: share(&record.metadata),
        gate_keys: share(&record.gate_keys),
        entity: share_opt_doc(&record.entity_document),
        lease_token: clone_opt_text(&record.lease_token),
        lease_expires_at: record.lease_expires_at,
        lease_is_cohort: record.lease_is_cohort,
        worker_id: clone_opt_text(&record.worker_id),
        fenced: record.fenced,
        superseded: record.superseded,
        terminal_at: record.terminal_at,
        terminal_position: clone_opt_position(record.terminal_position.as_ref()),
    }
}

pub struct ItemMutationResult {
    pub item_id: ItemId,
    pub selector_id: Option<String>,
    pub outcome: ItemMutationOutcome,
    pub before: Option<ItemMutationSnapshot>,
}

/// What a result says, with the item it shows, if any.
pub ghost struct ResultV {
    pub item_id: ItemId,
    pub selector_id: Option<Seq<char>>,
    pub outcome: ItemMutationOutcome,
    pub before: Option<Item>,
}

pub open spec fn shows(s: Option<ItemMutationSnapshot>, i: Option<Item>) -> bool {
    match (s, i) {
        (Some(x), Some(y)) => snapshot_of(x, y),
        (None, None) => true,
        _ => false,
    }
}

pub open spec fn says(r: ItemMutationResult, v: ResultV) -> bool {
    &&& r.item_id == v.item_id
    &&& opt_text(r.selector_id) == v.selector_id
    &&& r.outcome == v.outcome
    &&& shows(r.before, v.before)
}

/// The results say these things, in order.
pub open spec fn all_say(rs: Seq<ItemMutationResult>, vs: Seq<ResultV>) -> bool {
    rs.len() == vs.len() && forall|k: int| 0 <= k < rs.len() ==> says(#[trigger] rs[k], vs[k])
}

#[derive(Debug, PartialEq, Eq)]
pub struct ItemMutationSelectorAggregate {
    pub selector_id: String,
    pub matched: u64,
    pub changed: u64,
    pub purged: u64,
    pub rejected: u64,
}

pub ghost struct AggregateV {
    pub selector_id: Seq<char>,
    pub matched: nat,
    pub changed: nat,
    pub purged: nat,
    pub rejected: nat,
}

impl ItemMutationSelectorAggregate {
    pub open spec fn view(&self) -> AggregateV {
        AggregateV {
            selector_id: self.selector_id@,
            matched: self.matched as nat,
            changed: self.changed as nat,
            purged: self.purged as nat,
            rejected: self.rejected as nat,
        }
    }
}

pub open spec fn aggregates_v(v: Seq<ItemMutationSelectorAggregate>) -> Seq<AggregateV> {
    v.map_values(|a: ItemMutationSelectorAggregate| a@)
}

/// The outcome is a change.
pub open spec fn changes(o: ItemMutationOutcome) -> bool {
    o is Updated || o is WouldUpdate || purges(o)
}

pub open spec fn purges(o: ItemMutationOutcome) -> bool {
    o is Purged || o is WouldPurge
}

pub open spec fn one_if(b: bool) -> nat {
    if b {
        1
    } else {
        0
    }
}

/// One more item that the selector matched.
pub open spec fn aggregated(a: AggregateV, o: ItemMutationOutcome) -> AggregateV {
    AggregateV {
        selector_id: a.selector_id,
        matched: a.matched + 1,
        changed: a.changed + one_if(changes(o)),
        purged: a.purged + one_if(purges(o)),
        rejected: a.rejected + one_if(!changes(o) && !(o is NoChange)),
    }
}

#[derive(Clone, Copy, PartialEq, Eq, Structural, Debug)]
pub struct ItemMutationSummary {
    pub matched: u64,
    pub changed: u64,
    pub unchanged: u64,
    pub purged: u64,
    pub rejected: u64,
}

/// The results of which something holds.
pub open spec fn count_of(rs: Seq<ResultV>, f: spec_fn(ItemMutationOutcome) -> bool) -> nat
    decreases rs.len(),
{
    if rs.len() == 0 {
        0
    } else {
        count_of(rs.drop_last(), f) + one_if(f(rs.last().outcome))
    }
}

pub open spec fn summed(s: ItemMutationSummary, rs: Seq<ResultV>) -> bool {
    &&& s.matched == rs.len()
    &&& s.changed == count_of(rs, |o: ItemMutationOutcome| changes(o))
    &&& s.unchanged == count_of(rs, |o: ItemMutationOutcome| o is NoChange)
    &&& s.purged == count_of(rs, |o: ItemMutationOutcome| purges(o))
    &&& s.rejected == count_of(
        rs,
        |o: ItemMutationOutcome| !changes(o) && !(o is NoChange),
    )
}

pub struct ItemMutationResponse {
    pub request_id: String,
    pub position: Option<CommandPosition>,
    pub dry_run: bool,
    pub results: Vec<ItemMutationResult>,
    pub selectors: Vec<ItemMutationSelectorAggregate>,
    pub summary: ItemMutationSummary,
}

pub struct ItemMutationPlan {
    pub response: ItemMutationResponse,
    pub command: MutateItemsCommand,
}

/// Why there is no plan: it was refused, or the keys of a document have to be worked out first.
pub enum PlanFault {
    Failed(EngineError),
    Unknown(Json),
}

pub ghost enum FaultV {
    Failed(ErrorV),
    Unknown(JsonV),
}

impl PlanFault {
    pub open spec fn view(&self) -> FaultV {
        match self {
            PlanFault::Failed(e) => FaultV::Failed(e@),
            PlanFault::Unknown(d) => FaultV::Unknown(d@),
        }
    }
}

/// What has come of the items so far.
pub ghost struct TallyV {
    pub results: Seq<ResultV>,
    pub commands: Seq<(ItemId, ActionV)>,
    pub selectors: Seq<AggregateV>,
}

pub open spec fn command_v(c: ResolvedItemMutation) -> (ItemId, ActionV) {
    (c.item_id, action_v(c.action))
}

pub open spec fn commands_v(cs: Seq<ResolvedItemMutation>) -> Seq<(ItemId, ActionV)> {
    cs.map_values(|c: ResolvedItemMutation| command_v(c))
}

pub open spec fn with_command(
    cs: Seq<(ItemId, ActionV)>,
    id: ItemId,
    a: Option<ActionV>,
) -> Seq<(ItemId, ActionV)> {
    match a {
        Some(x) => cs.push((id, x)),
        None => cs,
    }
}

pub open spec fn before_if(r: ItemMutationReturning, i: Item) -> Option<Item> {
    if r is BeforeSnapshot {
        Some(i)
    } else {
        None
    }
}

/// The item was named by an earlier entry.
pub open spec fn named(entries: Seq<AddressedMutation>, id: ItemId) -> bool {
    exists|k: int| 0 <= k < entries.len() && (#[trigger] entries[k]).item_id == id
}

/// What comes of an entry. An item that is named again is refused.
pub open spec fn entry_plan(
    m: Model,
    q: ItemMutationRequest,
    e: AddressedMutation,
    again: bool,
    known: Seq<Arc<Entity>>,
) -> Result<RecordPlanV, JsonV> {
    if again {
        Ok((ItemMutationOutcome::Invalid, None))
    } else if !m.items.contains_key(e.item_id) {
        Ok((ItemMutationOutcome::NotFound, None))
    } else {
        let i = m.items[e.item_id];
        if e.expected_item_version is Some && e.expected_item_version->Some_0 != i.item_version {
            Ok((ItemMutationOutcome::Conflict { actual_version: i.item_version }, None))
        } else if !all_hold(e.predicates@, i, q.evaluated_at) {
            Ok(
                (
                    ItemMutationOutcome::PreconditionFailed(ItemMutationPrecondition::Predicate),
                    None,
                ),
            )
        } else {
            record_plan(m, i, e.lease_guard, e.patch, q.evaluated_at, q.dry_run, known)
        }
    }
}

pub open spec fn addressed(
    m: Model,
    q: ItemMutationRequest,
    entries: Seq<AddressedMutation>,
    known: Seq<Arc<Entity>>,
) -> Result<TallyV, JsonV>
    decreases entries.len(),
{
    if entries.len() == 0 {
        Ok(TallyV { results: Seq::empty(), commands: Seq::empty(), selectors: Seq::empty() })
    } else {
        let e = entries.last();
        match addressed(m, q, entries.drop_last(), known) {
            Err(d) => Err(d),
            Ok(t) => match entry_plan(m, q, e, named(entries.drop_last(), e.item_id), known) {
                Err(d) => Err(d),
                Ok((o, a)) => Ok(
                    TallyV {
                        results: t.results.push(
                            ResultV {
                                item_id: e.item_id,
                                selector_id: None,
                                outcome: o,
                                before: if m.items.contains_key(e.item_id) {
                                    before_if(q.returning, m.items[e.item_id])
                                } else {
                                    None
                                },
                            },
                        ),
                        commands: with_command(t.commands, e.item_id, a),
                        selectors: t.selectors,
                    },
                ),
            },
        }
    }
}

proof fn lemma_addressed_stops(
    m: Model,
    q: ItemMutationRequest,
    entries: Seq<AddressedMutation>,
    known: Seq<Arc<Entity>>,
    n: int,
)
    requires
        0 <= n <= entries.len(),
        addressed(m, q, entries.take(n), known) is Err,
    ensures
        addressed(m, q, entries, known) == addressed(m, q, entries.take(n), known),
    decreases entries.len() - n,
{
    if n == entries.len() {
        assert(entries.take(n) =~= entries);
    } else {
        assert(entries.take(n + 1).drop_last() =~= entries.take(n));
        lemma_addressed_stops(m, q, entries, known, n + 1);
    }
}

/// The selector is about the item.
pub open spec fn selects(s: ItemSelector, i: Item, at: UtcTimestamp) -> bool {
    !i.superseded && (s.scope is Live ==> !i.state.terminal()) && all_hold(s.predicates@, i, at)
}

/// The place of the first clause that selects the item, or the number of clauses.
pub open spec fn first_clause(
    clauses: Seq<SelectorClause>,
    i: Item,
    at: UtcTimestamp,
    from: int,
) -> int
    decreases clauses.len() - from,
{
    if from < 0 || from >= clauses.len() {
        clauses.len() as int
    } else if selects(clauses[from].selector, i, at) {
        from
    } else {
        first_clause(clauses, i, at, from + 1)
    }
}

/// What comes of an item that a clause selected.
pub open spec fn clause_plan(
    m: Model,
    q: ItemMutationRequest,
    c: SelectorClause,
    i: Item,
    known: Seq<Arc<Entity>>,
) -> Result<RecordPlanV, JsonV> {
    if all_hold(c.predicates@, i, q.evaluated_at) {
        record_plan(m, i, c.lease_guard, c.patch, q.evaluated_at, q.dry_run, known)
    } else {
        Ok(
            (
                ItemMutationOutcome::PreconditionFailed(ItemMutationPrecondition::Predicate),
                None,
            ),
        )
    }
}

pub open spec fn no_matches(clauses: Seq<SelectorClause>) -> Seq<AggregateV> {
    clauses.map_values(
        |c: SelectorClause|
            AggregateV { selector_id: c.selector_id@, matched: 0, changed: 0, purged: 0, rejected: 0 },
    )
}

/// What comes of the items of a list.
pub open spec fn selected(
    m: Model,
    q: ItemMutationRequest,
    clauses: Seq<SelectorClause>,
    order: Seq<(u64, ItemId)>,
    known: Seq<Arc<Entity>>,
) -> Result<TallyV, JsonV>
    decreases order.len(),
{
    if order.len() == 0 {
        Ok(
            TallyV {
                results: Seq::empty(),
                commands: Seq::empty(),
                selectors: no_matches(clauses),
            },
        )
    } else {
        let id = order.last().1;
        let i = m.items[id];
        let k = first_clause(clauses, i, q.evaluated_at, 0);
        match selected(m, q, clauses, order.drop_last(), known) {
            Err(d) => Err(d),
            Ok(t) => if k >= clauses.len() {
                Ok(t)
            } else {
                match clause_plan(m, q, clauses[k], i, known) {
                    Err(d) => Err(d),
                    Ok((o, a)) => Ok(
                        TallyV {
                            results: t.results.push(
                                ResultV {
                                    item_id: id,
                                    selector_id: Some(clauses[k].selector_id@),
                                    outcome: o,
                                    before: before_if(q.returning, i),
                                },
                            ),
                            commands: with_command(t.commands, id, a),
                            selectors: t.selectors.update(k, aggregated(t.selectors[k], o)),
                        },
                    ),
                }
            },
        }
    }
}

proof fn lemma_selected_stops(
    m: Model,
    q: ItemMutationRequest,
    clauses: Seq<SelectorClause>,
    order: Seq<(u64, ItemId)>,
    known: Seq<Arc<Entity>>,
    n: int,
)
    requires
        0 <= n <= order.len(),
        selected(m, q, clauses, order.take(n), known) is Err,
    ensures
        selected(m, q, clauses, order, known) == selected(m, q, clauses, order.take(n), known),
    decreases order.len() - n,
{
    if n == order.len() {
        assert(order.take(n) =~= order);
    } else {
        assert(order.take(n + 1).drop_last() =~= order.take(n));
        lemma_selected_stops(m, q, clauses, order, known, n + 1);
    }
}

/// The items in the order of their creation.
pub open spec fn by_creation(m: Model) -> Seq<(u64, ItemId)> {
    listing_of::<(u64, u64)>(creation_pairs(m))
}

/// What comes of the items that the request is about.
pub open spec fn tallied(m: Model, q: ItemMutationRequest, known: Seq<Arc<Entity>>) -> Result<
    TallyV,
    JsonV,
> {
    match q.operation {
        ItemMutationOperation::Addressed(entries) => addressed(m, q, entries@, known),
        ItemMutationOperation::SelectFirst(clauses) => selected(
            m,
            q,
            clauses@,
            by_creation(m),
            known,
        ),
    }
}

/// The gates that a request is about.
pub open spec fn asked_gates(changes: Seq<GateChange>) -> Set<Seq<char>> {
    Set::new(
        |k: Seq<char>|
            exists|i: int|
                0 <= i < changes.len() && texts((#[trigger] changes[i]).gate_keys@).contains(k),
    )
}

/// Why the queue does not allow these changes of gates, if so.
pub open spec fn gates_fault(m: Model, changes: Seq<GateChange>) -> Option<ErrorV> {
    let asked = asked_gates(changes);
    if (asked != Set::<Seq<char>>::empty() && !(m.policy.gate_keys is Dynamic)) || (
    m.policy.max_gates_per_request is Some && asked.len() > m.policy.max_gates_per_request->Some_0) {
        Some(ErrorV::Invalid("gate changes violate queue policy"@))
    } else if exists|k: Seq<char>| #[trigger] asked.contains(k) && !gate_key_valid(k) {
        Some(ErrorV::Invalid("invalid gate key"@))
    } else {
        None
    }
}

/// The unique keys that the replacements speak for. Two items cannot speak for one key.
pub open spec fn batch_reserved(m: Model, cs: Seq<(ItemId, ActionV)>) -> Result<
    Map<IndexKeyV, ItemId>,
    ErrorV,
>
    decreases cs.len(),
{
    if cs.len() == 0 {
        Ok(Map::empty())
    } else {
        match batch_reserved(m, cs.drop_last()) {
            Err(e) => Err(e),
            Ok(held) => match cs.last().1 {
                ActionV::Purge => Ok(held),
                ActionV::Replace(v) => match index_keys(m, v.fields, v.entity) {
                    Err(e) => Err(e),
                    Ok(keys) => match reserved(m, held, cs.last().0, keys) {
                        None => Err(ErrorV::Conflict),
                        Some(h) => Ok(h),
                    },
                },
            },
        }
    }
}

proof fn lemma_batch_stops(m: Model, cs: Seq<(ItemId, ActionV)>, n: int)
    requires
        0 <= n <= cs.len(),
        batch_reserved(m, cs.take(n)) is Err,
    ensures
        batch_reserved(m, cs) == batch_reserved(m, cs.take(n)),
    decreases cs.len() - n,
{
    if n == cs.len() {
        assert(cs.take(n) =~= cs);
    } else {
        assert(cs.take(n + 1).drop_last() =~= cs.take(n));
        lemma_batch_stops(m, cs, n + 1);
    }
}

/// The index keys of every item to be changed can be told, or why those of the first one cannot.
pub open spec fn keys_told(m: Model, cs: Seq<(ItemId, ActionV)>) -> Result<(), ErrorV>
    decreases cs.len(),
{
    if cs.len() == 0 {
        Ok(())
    } else {
        let i = m.items[cs[0].0];
        match index_keys(m, i.fields, i.entity) {
            Err(e) => Err(e),
            Ok(_) => keys_told(m, cs.drop_first()),
        }
    }
}

/// Why a request is refused as a whole, if so.
pub open spec fn whole_fault(m: Model, q: ItemMutationRequest, t: TallyV) -> Option<ErrorV> {
    match gates_fault(m, q.gate_changes@) {
        Some(e) => Some(e),
        None => match batch_reserved(m, t.commands) {
            Err(e) => Some(e),
            Ok(_) => match keys_told(m, t.commands) {
                Err(e) => Some(e),
                Ok(_) => None,
            },
        },
    }
}

/// The commands are about different items that are there, and what they put in has keys.
pub open spec fn carries(m: Model, cs: Seq<ResolvedItemMutation>) -> bool {
    &&& forall|a: int| 0 <= a < cs.len() ==> m.items.contains_key((#[trigger] cs[a]).item_id)
    &&& forall|a: int, b: int|
        0 <= a < b < cs.len() ==> (#[trigger] cs[a]).item_id != (#[trigger] cs[b]).item_id
    &&& forall|a: int|
        0 <= a < cs.len() && (#[trigger] cs[a]).action is Replace ==> values_keys(
            m,
            cs[a].action->Replace_0,
        ) is Ok
}

/// A mutation leaves the other items and the declared indexes alone.
proof fn lemma_mutated_frame(
    m: Model,
    x: ResolvedItemMutation,
    at: Option<UtcTimestamp>,
    pos: Option<PositionV>,
    other: ItemId,
)
    requires
        keyed(m),
        other != x.item_id,
    ensures
        ({
            let n = mutated(m, x, at, pos).0;
            &&& n.index_specs == m.index_specs
            &&& n.items.contains_key(other) == m.items.contains_key(other)
            &&& m.items.contains_key(other) ==> n.items[other] == m.items[other]
        }),
{
    let id = x.item_id;
    if m.items.contains_key(id) {
        let i = m.items[id];
        match x.action {
            ResolvedItemMutationAction::Purge => {
                let n = Model { items: m.items.remove(id), ..m };
                lemma_forgotten_frame(n, i);
            },
            ResolvedItemMutationAction::Replace(v) => {
                let n = withdrawn(m, id, i, ends_lease(i, v));
                match (index_keys(m, i.fields, i.entity), values_keys(n, v)) {
                    (Ok(a), Ok(b)) => {
                        let n0 = put(n, id, replaced_item(i, v, ends_lease(i, v), at, pos));
                        lemma_indexed_frame(n0, id, lacking(a, b));
                        lemma_indexed_frame(unindexed(n0, id, lacking(a, b)), id, lacking(b, a));
                    },
                    _ => {},
                }
            },
        }
    }
}

pub(crate) proof fn lemma_forgotten_frame(m: Model, i: Item)
    ensures
        forgotten(m, i).0.items == m.items,
        forgotten(m, i).0.index_specs == m.index_specs,
        forgotten(m, i).1 == (match index_keys(m, i.fields, i.entity) {
            Ok(_) => Ok::<(), ErrorV>(()),
            Err(e) => Err(e),
        }),
{
    let m1 = if i.superseded {
        m
    } else {
        Model { metrics: uncounted(m.metrics, i.state), ..m }
    };
    let m2 = match i.explicit_key {
        Some(k) => Model { by_key: m1.by_key.remove(k), ..m1 },
        None => m1,
    };
    let m3 = regated(m2, i.item_id, i.gate_keys, Seq::empty());
    let m4 = leave_if(m3, i.state is Pending, i);
    let m5 = if i.state is Leased {
        unleased(m4, i.item_id, i.lease_token, i.lease_expires_at)
    } else {
        m4
    };
    match index_keys(m5, i.fields, i.entity) {
        Ok(keys) => {
            lemma_indexed_frame(m5, i.item_id, keys);
        },
        Err(_) => {},
    }
}

/// What is to be changed item by item fails only where the keys of an item cannot be told.
proof fn lemma_mutations_succeed(
    m: Model,
    n: Model,
    cs: Seq<ResolvedItemMutation>,
    at: Option<UtcTimestamp>,
    pos: Option<PositionV>,
)
    requires
        carries(m, cs),
        keys_told(m, commands_v(cs)) is Ok,
        n.index_specs == m.index_specs,
        forall|a: int|
            0 <= a < cs.len() ==> n.items.contains_key((#[trigger] cs[a]).item_id)
                && n.items[cs[a].item_id] == m.items[cs[a].item_id],
        keyed(n),
    ensures
        run(n, cs, mutate_each(at, pos)).1 is Ok,
    decreases cs.len(),
{
    if cs.len() > 0 {
        let x = cs[0];
        let id = x.item_id;
        let rest = cs.drop_first();
        let f = mutate_each(at, pos);
        assert(commands_v(cs)[0] == command_v(x));
        assert(commands_v(cs).drop_first() =~= commands_v(rest));
        assert(n.items.contains_key(cs[0].item_id));
        let i = m.items[id];
        assert(index_keys(n, i.fields, i.entity) == index_keys(m, i.fields, i.entity));
        match x.action {
            ResolvedItemMutationAction::Purge => {
                let n0 = Model { items: n.items.remove(id), ..n };
                lemma_forgotten_frame(n0, i);
                assert(index_keys(n0, i.fields, i.entity) == index_keys(m, i.fields, i.entity));
            },
            ResolvedItemMutationAction::Replace(v) => {
                let w = withdrawn(n, id, i, ends_lease(i, v));
                assert(cs[0].action is Replace);
                assert(values_keys(w, v) == values_keys(m, v));
            },
        }
        let next = mutated(n, x, at, pos).0;
        assert forall|a: int| 0 <= a < rest.len() implies next.items.contains_key(
            (#[trigger] rest[a]).item_id,
        ) && next.items[rest[a].item_id] == m.items[rest[a].item_id] by {
            assert(rest[a] == cs[a + 1]);
            assert(cs[0].item_id != cs[a + 1].item_id);
            lemma_mutated_frame(n, x, at, pos, cs[a + 1].item_id);
        }
        lemma_mutated_specs(n, x, at, pos);
        assert(carries(m, rest)) by {
            assert forall|a: int| 0 <= a < rest.len() implies m.items.contains_key(
                (#[trigger] rest[a]).item_id,
            ) by {
                assert(rest[a] == cs[a + 1]);
            }
            assert forall|a: int, b: int| 0 <= a < b < rest.len() implies (#[trigger] rest[a]).item_id
                != (#[trigger] rest[b]).item_id by {
                assert(rest[a] == cs[a + 1] && rest[b] == cs[b + 1]);
            }
            assert forall|a: int|
                0 <= a < rest.len() && (#[trigger] rest[a]).action is Replace implies values_keys(
                m,
                rest[a].action->Replace_0,
            ) is Ok by {
                assert(rest[a] == cs[a + 1]);
            }
        }
        lemma_mutations_succeed(m, next, rest, at, pos);
        assert(f(n, x).1 is Ok);
    }
}

/// A mutation keeps items under their identifiers and the declared indexes.
proof fn lemma_mutated_specs(
    m: Model,
    x: ResolvedItemMutation,
    at: Option<UtcTimestamp>,
    pos: Option<PositionV>,
)
    requires
        keyed(m),
    ensures
        mutated(m, x, at, pos).0.index_specs == m.index_specs,
        keyed(mutated(m, x, at, pos).0),
{
    let id = x.item_id;
    let n = mutated(m, x, at, pos).0;
    if m.items.contains_key(id) {
        let i = m.items[id];
        match x.action {
            ResolvedItemMutationAction::Purge => {
                lemma_forgotten_frame(Model { items: m.items.remove(id), ..m }, i);
            },
            ResolvedItemMutationAction::Replace(v) => {
                let w = withdrawn(m, id, i, ends_lease(i, v));
                match (index_keys(m, i.fields, i.entity), values_keys(w, v)) {
                    (Ok(a), Ok(b)) => {
                        let j = replaced_item(i, v, ends_lease(i, v), at, pos);
                        let n0 = put(w, id, j);
                        lemma_indexed_frame(n0, id, lacking(a, b));
                        lemma_indexed_frame(unindexed(n0, id, lacking(a, b)), id, lacking(b, a));
                        assert(n.items == m.items.insert(id, j));
                    },
                    _ => {},
                }
            },
        }
    }
}

proof fn lemma_gate_changes_succeed(m: Model, changes: Seq<GateChange>)
    ensures
        run(m, changes, gate_each()).1 is Ok,
    decreases changes.len(),
{
    if changes.len() > 0 {
        let g = changes[0];
        let keys = texts(g.gate_keys@);
        let ids = listing_of::<u64>(under_gates(m, keys));
        let n = Model { blocked_gates: gates_after(m.blocked_gates, keys, g.blocked), ..m };
        lemma_gates_frame(n, ids, m.blocked_gates);
        assert(gate_each()(m, g).1 is Ok);
        lemma_gate_changes_succeed(gate_each()(m, g).0, changes.drop_first());
    }
}

fn count_outcome(s: ItemMutationSummary, o: ItemMutationOutcome) -> (r: ItemMutationSummary)
    requires
        s.matched < u64::MAX,
        s.changed <= s.matched,
        s.unchanged <= s.matched,
        s.purged <= s.matched,
        s.rejected <= s.matched,
    ensures
        r.matched == s.matched + 1,
        r.changed == s.changed + one_if(changes(o)),
        r.unchanged == s.unchanged + one_if(o is NoChange),
        r.purged == s.purged + one_if(purges(o)),
        r.rejected == s.rejected + one_if(!changes(o) && !(o is NoChange)),
{
    let n = s.matched + 1;
    match o {
        ItemMutationOutcome::Updated { .. } => ItemMutationSummary {
            matched: n,
            changed: s.changed + 1,
            ..s
        },
        ItemMutationOutcome::WouldUpdate { .. } => ItemMutationSummary {
            matched: n,
            changed: s.changed + 1,
            ..s
        },
        ItemMutationOutcome::Purged => ItemMutationSummary {
            matched: n,
            changed: s.changed + 1,
            purged: s.purged + 1,
            ..s
        },
        ItemMutationOutcome::WouldPurge => ItemMutationSummary {
            matched: n,
            changed: s.changed + 1,
            purged: s.purged + 1,
            ..s
        },
        ItemMutationOutcome::NoChange => ItemMutationSummary {
            matched: n,
            unchanged: s.unchanged + 1,
            ..s
        },
        _ => ItemMutationSummary { matched: n, rejected: s.rejected + 1, ..s },
    }
}

/// Counts one more item that the selector matched.
pub fn update_selector_aggregate(
    aggregate: &mut ItemMutationSelectorAggregate,
    outcome: ItemMutationOutcome,
)
    requires
        old(aggregate).matched < u64::MAX,
        old(aggregate).changed <= old(aggregate).matched,
        old(aggregate).purged <= old(aggregate).matched,
        old(aggregate).rejected <= old(aggregate).matched,
    ensures
        final(aggregate)@ == aggregated(old(aggregate)@, outcome),
{
    aggregate.matched = aggregate.matched + 1;
    match outcome {
        ItemMutationOutcome::Updated { .. } => {
            aggregate.changed = aggregate.changed + 1;
        },
        ItemMutationOutcome::WouldUpdate { .. } => {
            aggregate.changed = aggregate.changed + 1;
        },
        ItemMutationOutcome::Purged => {
            aggregate.changed = aggregate.changed + 1;
            aggregate.purged = aggregate.purged + 1;
        },
        ItemMutationOutcome::WouldPurge => {
            aggregate.changed = aggregate.changed + 1;
            aggregate.purged = aggregate.purged + 1;
        },
        ItemMutationOutcome::NoChange => {},
        _ => {
            aggregate.rejected = aggregate.rejected + 1;
        },
    }
}

fn sum_results(results: &Vec<ItemMutationResult>, Ghost(vs): Ghost<Seq<ResultV>>) -> (r:
    ItemMutationSummary)
    requires
        all_say(results@, vs),
    ensures
        summed(r, vs),
{
    let ghost is_change = |o: ItemMutationOutcome| changes(o);
    let ghost is_same = |o: ItemMutationOutcome| o is NoChange;
    let ghost is_purge = |o: ItemMutationOutcome| purges(o);
    let ghost is_refusal = |o: ItemMutationOutcome| !changes(o) && !(o is NoChange);
    let mut s = ItemMutationSummary {
        matched: 0,
        changed: 0,
        unchanged: 0,
        purged: 0,
        rejected: 0,
    };
    let mut i: usize = 0;
    assert(vs.take(0) =~= Seq::<ResultV>::empty());
    while i < results.len()
        invariant
            i <= results@.len(),
            all_say(results@, vs),
            is_change == (|o: ItemMutationOutcome| changes(o)),
            is_same == (|o: ItemMutationOutcome| o is NoChange),
            is_purge == (|o: ItemMutationOutcome| purges(o)),
            is_refusal == (|o: ItemMutationOutcome| !changes(o) && !(o is NoChange)),
            s.matched == i,
            s.changed == count_of(vs.take(i as int), is_change),
            s.unchanged == count_of(vs.take(i as int), is_same),
            s.purged == count_of(vs.take(i as int), is_purge),
            s.rejected == count_of(vs.take(i as int), is_refusal),
            s.changed <= i,
            s.unchanged <= i,
            s.purged <= i,
            s.rejected <= i,
        decreases results@.len() - i,
    {
        proof {
            assert(vs.take(i as int + 1).drop_last() =~= vs.take(i as int));
            assert(vs.take(i as int + 1).last() == vs[i as int]);
            assert(says(results@[i as int], vs[i as int]));
        }
        s = count_outcome(s, results[i].outcome);
        i = i + 1;
    }
    assert(vs.take(i as int) =~= vs);
    s
}

fn snapshot_if(returning: ItemMutationReturning, record: &ItemRecord) -> (r: Option<
    ItemMutationSnapshot,
>)
    ensures
        shows(r, before_if(returning, record@)),
{
    match returning {
        ItemMutationReturning::BeforeSnapshot => Some(mutation_snapshot(record)),
        _ => None,
    }
}

fn is_selected(s: &ItemSelector, record: &ItemRecord, at: UtcTimestamp) -> (r: bool)
    ensures
        r == selects(*s, record@, at),
{
    if record.superseded {
        return false;
    }
    let live_only = match s.scope {
        ItemSelectorScope::Live => true,
        _ => false,
    };
    if live_only && record.state.is_terminal() {
        return false;
    }
    predicates_match(record, &s.predicates, at)
}

fn find_clause(clauses: &Vec<SelectorClause>, record: &ItemRecord, at: UtcTimestamp) -> (r: usize)
    ensures
        r == first_clause(clauses@, record@, at, 0),
        r <= clauses@.len(),
{
    let mut k: usize = 0;
    while k < clauses.len()
        invariant
            k <= clauses@.len(),
            first_clause(clauses@, record@, at, 0) == first_clause(
                clauses@,
                record@,
                at,
                k as int,
            ),
        decreases clauses@.len() - k,
    {
        if is_selected(&clauses[k].selector, record, at) {
            return k;
        }
        k = k + 1;
    }
    k
}

/// What has come of the items so far.
struct Tally {
    results: Vec<ItemMutationResult>,
    commands: Vec<ResolvedItemMutation>,
    selectors: Vec<ItemMutationSelectorAggregate>,
}

impl Tally {
    spec fn tells(&self, t: TallyV) -> bool {
        &&& all_say(self.results@, t.results)
        &&& commands_v(self.commands@) == t.commands
        &&& aggregates_v(self.selectors@) == t.selectors
    }
}

/// Commands so far, each about an item of the list, none about an item twice.
spec fn sound(m: Model, cs: Seq<ResolvedItemMutation>, ids: Seq<ItemId>) -> bool {
    &&& carries(m, cs)
    &&& forall|a: int| 0 <= a < cs.len() ==> ids.contains((#[trigger] cs[a]).item_id)
    &&& forall|a: int|
        0 <= a < cs.len() && (#[trigger] cs[a]).action is Replace ==> follows_document(
            cs[a].action->Replace_0,
        )
}

proof fn lemma_sound_grows(
    m: Model,
    cs: Seq<ResolvedItemMutation>,
    ids: Seq<ItemId>,
    id: ItemId,
    more: Seq<ResolvedItemMutation>,
)
    requires
        sound(m, cs, ids),
        m.items.contains_key(id),
        more == cs || (more == cs.push(more.last()) && !ids.contains(id) && more.last().item_id == id
            && (more.last().action is Replace ==> values_keys(m, more.last().action->Replace_0) is Ok
            && follows_document(more.last().action->Replace_0))),
    ensures
        sound(m, more, ids.push(id)),
{
    assert forall|a: int| 0 <= a < more.len() implies ids.push(id).contains(
        (#[trigger] more[a]).item_id,
    ) by {
        lemma_push_contains(ids, id, more[a].item_id);
        if a < cs.len() {
            assert(more[a] == cs[a]);
        }
    }
    assert forall|a: int, b: int| 0 <= a < b < more.len() implies (#[trigger] more[a]).item_id
        != (#[trigger] more[b]).item_id by {
        assert(more[a] == cs[a]);
        assert(ids.contains(cs[a].item_id));
        if b < cs.len() {
            assert(more[b] == cs[b]);
        }
    }
    assert forall|a: int| 0 <= a < more.len() implies m.items.contains_key(
        (#[trigger] more[a]).item_id,
    ) && (more[a].action is Replace ==> values_keys(m, more[a].action->Replace_0) is Ok
        && follows_document(more[a].action->Replace_0)) by {
        if a < cs.len() {
            assert(more[a] == cs[a]);
        }
    }
}

proof fn lemma_sound_kept(
    m: Model,
    cs: Seq<ResolvedItemMutation>,
    ids: Seq<ItemId>,
    id: ItemId,
)
    requires
        sound(m, cs, ids),
    ensures
        sound(m, cs, ids.push(id)),
{
    assert forall|a: int| 0 <= a < cs.len() implies ids.push(id).contains(
        (#[trigger] cs[a]).item_id,
    ) by {
        lemma_push_contains(ids, id, cs[a].item_id);
    }
}

/// A planned replacement has keys.
proof fn lemma_planned_keys(
    m: Model,
    i: Item,
    guard: LeaseGuard,
    p: ItemPatch,
    at: UtcTimestamp,
    dry_run: bool,
    known: Seq<Arc<Entity>>,
)
    ensures
        match record_plan(m, i, guard, p, at, dry_run, known) {
            Ok((_, Some(ActionV::Replace(v)))) => index_keys(m, v.fields, v.entity) is Ok,
            _ => true,
        },
{
}

impl ProjectionData {
    fn plan_entry(
        &self,
        request: &ItemMutationRequest,
        e: &AddressedMutation,
        again: bool,
        known: &Vec<Arc<Entity>>,
    ) -> (r: Result<(ItemMutationOutcome, Option<ResolvedItemMutation>), Json>)
        requires
            keyed(self@),
        ensures
            ({
                let plan = entry_plan(self@, *request, *e, again, known@);
                match r {
                    Err(d) => plan == Err::<RecordPlanV, JsonV>(d@),
                    Ok((o, None)) => plan == Ok::<RecordPlanV, JsonV>((o, None)),
                    Ok((o, Some(c))) => plan == Ok::<RecordPlanV, JsonV>(
                        (o, Some(action_v(c.action))),
                    ) && c.item_id == e.item_id && !again && self@.items.contains_key(e.item_id) && (
                    c.action is Replace ==> follows_document(c.action->Replace_0) && values_keys(
                        self@,
                        c.action->Replace_0,
                    ) is Ok),
                }
            }),
    {
        if again {
            return Ok((ItemMutationOutcome::Invalid, None));
        }
        let record = match self.record(e.item_id) {
            None => return Ok((ItemMutationOutcome::NotFound, None)),
            Some(rec) => rec,
        };
        match e.expected_item_version {
            Some(v) => if v != record.item_version {
                return Ok(
                    (ItemMutationOutcome::Conflict { actual_version: record.item_version }, None),
                );
            },
            None => {},
        }
        if !predicates_match(record, &e.predicates, request.evaluated_at) {
            return Ok(
                (
                    ItemMutationOutcome::PreconditionFailed(ItemMutationPrecondition::Predicate),
                    None,
                ),
            );
        }
        proof {
            lemma_planned_keys(
                self@,
                record@,
                e.lease_guard,
                e.patch,
                request.evaluated_at,
                request.dry_run,
                known@,
            );
        }
        self.plan_record_mutation(
            record,
            &e.lease_guard,
            &e.patch,
            request.evaluated_at,
            request.dry_run,
            known,
        )
    }

    fn plan_addressed(
        &self,
        request: &ItemMutationRequest,
        entries: &Vec<AddressedMutation>,
        known: &Vec<Arc<Entity>>,
    ) -> (r: Result<Tally, Json>)
        requires
            keyed(self@),
        ensures
            match r {
                Err(d) => addressed(self@, *request, entries@, known@) == Err::<TallyV, JsonV>(d@),
                Ok(t) => addressed(self@, *request, entries@, known@) is Ok && t.tells(
                    addressed(self@, *request, entries@, known@)->Ok_0,
                ) && carries(self@, t.commands@) && forall|a: int|
                    0 <= a < t.commands@.len() && (#[trigger] t.commands@[a]).action is Replace
                        ==> follows_document(t.commands@[a].action->Replace_0),
            },
    {
        let mut tally = Tally { results: Vec::new(), commands: Vec::new(), selectors: Vec::new() };
        let mut seen: OrdSet<u64> = OrdSet::new();
        let ghost mut ids = Seq::<ItemId>::empty();
        let mut i: usize = 0;
        proof {
            assert(entries@.take(0) =~= Seq::<AddressedMutation>::empty());
            assert(commands_v(tally.commands@) =~= Seq::<(ItemId, ActionV)>::empty());
            assert(aggregates_v(tally.selectors@) =~= Seq::<AggregateV>::empty());
        }
        while i < entries.len()
            invariant
                i <= entries@.len(),
                keyed(self@),
                ids == entries@.take(i as int).map_values(|e: AddressedMutation| e.item_id),
                forall|id: ItemId| #[trigger] seen@.contains(id) <==> ids.contains(id),
                addressed(self@, *request, entries@.take(i as int), known@) is Ok,
                tally.tells(addressed(self@, *request, entries@.take(i as int), known@)->Ok_0),
                sound(self@, tally.commands@, ids),
            decreases entries@.len() - i,
        {
            let e = &entries[i];
            let ghost prior = entries@.take(i as int);
            let ghost before = tally;
            proof {
                assert(entries@.take(i as int + 1).drop_last() =~= prior);
                assert(entries@.take(i as int + 1).last() == entries@[i as int]);
                assert(seen@.contains(e.item_id) <==> named(prior, e.item_id)) by {
                    if ids.contains(e.item_id) {
                        let k = choose|k: int| 0 <= k < ids.len() && ids[k] == e.item_id;
                        assert(prior[k].item_id == e.item_id);
                    }
                    if named(prior, e.item_id) {
                        let k = choose|k: int|
                            0 <= k < prior.len() && (#[trigger] prior[k]).item_id == e.item_id;
                        assert(ids[k] == e.item_id);
                    }
                }
            }
            let fresh = seen.insert(e.item_id);
            let snapshot = match self.record(e.item_id) {
                Some(rec) => snapshot_if(request.returning, rec),
                None => None,
            };
            let (outcome, command) = match self.plan_entry(request, e, !fresh, known) {
                Err(d) => {
                    proof {
                        lemma_addressed_stops(
                            self@,
                            *request,
                            entries@,
                            known@,
                            i as int + 1,
                        );
                    }
                    return Err(d);
                },
                Ok(p) => p,
            };
            match command {
                Some(c) => {
                    tally.commands.push(c);
                    proof {
                        assert(commands_v(tally.commands@) =~= commands_v(before.commands@).push(
                            command_v(c),
                        ));
                        assert(tally.commands@ == before.commands@.push(tally.commands@.last()));
                        lemma_sound_grows(
                            self@,
                            before.commands@,
                            ids,
                            e.item_id,
                            tally.commands@,
                        );
                    }
                },
                None => {
                    proof {
                        lemma_sound_kept(self@, before.commands@, ids, e.item_id);
                    }
                },
            }
            tally.results.push(
                ItemMutationResult {
                    item_id: e.item_id,
                    selector_id: None,
                    outcome,
                    before: snapshot,
                },
            );
            proof {
                assert forall|id: ItemId| #[trigger] seen@.contains(id) <==> ids.push(
                    e.item_id,
                ).contains(id) by {
                    lemma_push_contains(ids, e.item_id, id);
                }
                ids = ids.push(e.item_id);
                assert(ids =~= entries@.take(i as int + 1).map_values(
                    |e: AddressedMutation| e.item_id,
                ));
                let t = addressed(self@, *request, entries@.take(i as int + 1), known@)->Ok_0;
                assert forall|k: int| 0 <= k < tally.results@.len() implies says(
                    #[trigger] tally.results@[k],
                    t.results[k],
                ) by {
                    if k < before.results@.len() {
                        assert(tally.results@[k] == before.results@[k]);
                    }
                }
            }
            i = i + 1;
        }
        assert(entries@.take(i as int) =~= entries@);
        Ok(tally)
    }

    /// The items in the order of their creation.
    fn creation_order(&self) -> (r: Vec<(u64, ItemId)>)
        ensures
            r@ == by_creation(self@),
            forall|k: int|
                0 <= k < r@.len() ==> self@.items.contains_key((#[trigger] r@[k]).1),
            forall|a: int, b: int|
                0 <= a < b < r@.len() ==> (#[trigger] r@[a]).1 != (#[trigger] r@[b]).1,
    {
        let ids = fx_keys(&self.items);
        let ghost want = creation_pairs(self@);
        let mut all: OrdSet<(u64, u64)> = OrdSet::new();
        let mut i: usize = 0;
        while i < ids.len()
            invariant
                i <= ids@.len(),
                ids@.to_set() == self.items@.dom(),
                forall|p: (u64, u64)| #[trigger]
                    all@.contains(p) <==> ids@.take(i as int).contains(p.1)
                        && self@.items.contains_key(p.1) && p.0 == self@.items[p.1].created_seq,
            decreases ids@.len() - i,
        {
            let ghost prior = all@;
            let id = ids[i];
            assert(ids@.to_set().contains(id));
            match self.record(id) {
                Some(rec) => {
                    all.insert((rec.created_seq, id));
                },
                None => {},
            }
            proof {
                assert(ids@.take(i as int + 1) =~= ids@.take(i as int).push(id));
                assert forall|p: (u64, u64)| #[trigger] all@.contains(p) <==> ids@.take(
                    i as int + 1,
                ).contains(p.1) && self@.items.contains_key(p.1) && p.0
                    == self@.items[p.1].created_seq by {
                    lemma_push_contains(ids@.take(i as int), id, p.1);
                    assert(prior.contains(p) <==> ids@.take(i as int).contains(p.1)
                        && self@.items.contains_key(p.1) && p.0 == self@.items[p.1].created_seq);
                }
            }
            i = i + 1;
        }
        proof {
            assert(ids@.take(i as int) =~= ids@);
            assert forall|p: (u64, u64)| all@.contains(p) <==> want.contains(p) by {
                assert(ids@.contains(p.1) <==> ids@.to_set().contains(p.1));
            }
            assert(all@ =~= want);
        }
        let n = all.len();
        let ghost l = all.listing();
        let mut out: Vec<(u64, ItemId)> = Vec::new();
        let mut k: usize = 0;
        while k < n
            invariant
                k <= n,
                n == l.len(),
                l == all.listing(),
                out@ == l.take(k as int),
            decreases n - k,
        {
            let p = all.at(k);
            out.push((p.0, p.1));
            assert(l.take(k as int + 1) =~= l.take(k as int).push(l[k as int]));
            k = k + 1;
        }
        proof {
            assert(l.take(k as int) =~= l);
            assert forall|j: int| 0 <= j < out@.len() implies want.contains(
                #[trigger] out@[j],
            ) by {
                assert(l.to_set().contains(l[j]));
            }
            assert forall|a: int, b: int| 0 <= a < b < out@.len() implies (#[trigger] out@[a]).1
                != (#[trigger] out@[b]).1 by {
                assert(want.contains(out@[a]) && want.contains(out@[b]));
                lemma_ascending_at::<(u64, u64)>(l, a, b);
                if out@[a].1 == out@[b].1 {
                    assert(out@[a] == out@[b]);
                    <(u64, u64)>::lt_irreflexive(out@[a]);
                }
            }
        }
        out
    }

    fn plan_clause(
        &self,
        request: &ItemMutationRequest,
        c: &SelectorClause,
        record: &ItemRecord,
        known: &Vec<Arc<Entity>>,
    ) -> (r: Result<(ItemMutationOutcome, Option<ResolvedItemMutation>), Json>)
        ensures
            ({
                let plan = clause_plan(self@, *request, *c, record@, known@);
                match r {
                    Err(d) => plan == Err::<RecordPlanV, JsonV>(d@),
                    Ok((o, None)) => plan == Ok::<RecordPlanV, JsonV>((o, None)),
                    Ok((o, Some(x))) => plan == Ok::<RecordPlanV, JsonV>(
                        (o, Some(action_v(x.action))),
                    ) && x.item_id == record.item_id && (x.action is Replace ==> follows_document(
                        x.action->Replace_0,
                    ) && values_keys(self@, x.action->Replace_0) is Ok),
                }
            }),
    {
        if !predicates_match(record, &c.predicates, request.evaluated_at) {
            return Ok(
                (
                    ItemMutationOutcome::PreconditionFailed(ItemMutationPrecondition::Predicate),
                    None,
                ),
            );
        }
        proof {
            lemma_planned_keys(
                self@,
                record@,
                c.lease_guard,
                c.patch,
                request.evaluated_at,
                request.dry_run,
                known@,
            );
        }
        self.plan_record_mutation(
            record,
            &c.lease_guard,
            &c.patch,
            request.evaluated_at,
            request.dry_run,
            known,
        )
    }

    fn plan_selected(
        &self,
        request: &ItemMutationRequest,
        clauses: &Vec<SelectorClause>,
        known: &Vec<Arc<Entity>>,
    ) -> (r: Result<Tally, Json>)
        requires
            keyed(self@),
        ensures
            ({
                let plan = selected(self@, *request, clauses@, by_creation(self@), known@);
                match r {
                    Err(d) => plan == Err::<TallyV, JsonV>(d@),
                    Ok(t) => plan is Ok && t.tells(plan->Ok_0) && carries(self@, t.commands@)
                        && forall|a: int|
                        0 <= a < t.commands@.len() && (#[trigger] t.commands@[a]).action is Replace
                            ==> follows_document(t.commands@[a].action->Replace_0),
                }
            }),
    {
        let selectors = start_aggregates(clauses);
        let mut tally = Tally { results: Vec::new(), commands: Vec::new(), selectors };
        let order = self.creation_order();
        let ghost mut ids = Seq::<ItemId>::empty();
        let mut i: usize = 0;
        proof {
            assert(order@.take(0) =~= Seq::<(u64, ItemId)>::empty());
            assert(commands_v(tally.commands@) =~= Seq::<(ItemId, ActionV)>::empty());
        }
        while i < order.len()
            invariant
                i <= order@.len(),
                keyed(self@),
                order@ == by_creation(self@),
                forall|k: int|
                    0 <= k < order@.len() ==> self@.items.contains_key((#[trigger] order@[k]).1),
                forall|a: int, b: int|
                    0 <= a < b < order@.len() ==> (#[trigger] order@[a]).1 != (#[trigger] order@[b]).1,
                ids == order@.take(i as int).map_values(|p: (u64, ItemId)| p.1),
                selected(self@, *request, clauses@, order@.take(i as int), known@) is Ok,
                tally.tells(
                    selected(self@, *request, clauses@, order@.take(i as int), known@)->Ok_0,
                ),
                tally.selectors@.len() == clauses@.len(),
                forall|k: int|
                    0 <= k < tally.selectors@.len() ==> (#[trigger] tally.selectors@[k]).matched <= i
                        && tally.selectors@[k].changed <= tally.selectors@[k].matched
                        && tally.selectors@[k].purged <= tally.selectors@[k].matched
                        && tally.selectors@[k].rejected <= tally.selectors@[k].matched,
                sound(self@, tally.commands@, ids),
            decreases order@.len() - i,
        {
            let id = order[i].1;
            let ghost before = tally;
            let ghost was = selected(self@, *request, clauses@, order@.take(i as int), known@)->Ok_0;
            proof {
                assert(self@.items.contains_key(order@[i as int].1));
                assert(order@.take(i as int + 1).drop_last() =~= order@.take(i as int));
                assert(order@.take(i as int + 1).last() == order@[i as int]);
                assert(!ids.contains(id)) by {
                    if ids.contains(id) {
                        let k = choose|k: int| 0 <= k < ids.len() && ids[k] == id;
                        assert(order@[k].1 != order@[i as int].1);
                    }
                }
            }
            match self.record(id) {
                None => {},
                Some(record) => {
                    let at = find_clause(clauses, record, request.evaluated_at);
                    if at < clauses.len() {
                        let clause = &clauses[at];
                        let (outcome, command) = match self.plan_clause(
                            request,
                            clause,
                            record,
                            known,
                        ) {
                            Err(d) => {
                                proof {
                                    lemma_selected_stops(
                                        self@,
                                        *request,
                                        clauses@,
                                        order@,
                                        known@,
                                        i as int + 1,
                                    );
                                }
                                return Err(d);
                            },
                            Ok(p) => p,
                        };
                        let mut aggregate = ItemMutationSelectorAggregate {
                            selector_id: tally.selectors[at].selector_id.clone(),
                            matched: tally.selectors[at].matched,
                            changed: tally.selectors[at].changed,
                            purged: tally.selectors[at].purged,
                            rejected: tally.selectors[at].rejected,
                        };
                        assert(aggregate@ == aggregates_v(before.selectors@)[at as int]);
                        update_selector_aggregate(&mut aggregate, outcome);
                        let ghost counted_now = aggregate@;
                        tally.selectors.set(at, aggregate);
                        assert(aggregates_v(tally.selectors@) =~= aggregates_v(
                            before.selectors@,
                        ).update(at as int, counted_now));
                        match command {
                            Some(c) => {
                                tally.commands.push(c);
                                proof {
                                    assert(commands_v(tally.commands@) =~= commands_v(
                                        before.commands@,
                                    ).push(command_v(c)));
                                    assert(tally.commands@ == before.commands@.push(
                                        tally.commands@.last(),
                                    ));
                                    lemma_sound_grows(
                                        self@,
                                        before.commands@,
                                        ids,
                                        id,
                                        tally.commands@,
                                    );
                                }
                            },
                            None => {
                                proof {
                                    lemma_sound_kept(self@, before.commands@, ids, id);
                                }
                            },
                        }
                        let snapshot = snapshot_if(request.returning, record);
                        tally.results.push(
                            ItemMutationResult {
                                item_id: record.item_id,
                                selector_id: Some(clause.selector_id.clone()),
                                outcome,
                                before: snapshot,
                            },
                        );
                        proof {
                            let t = selected(
                                self@,
                                *request,
                                clauses@,
                                order@.take(i as int + 1),
                                known@,
                            )->Ok_0;
                            assert forall|k: int| 0 <= k < tally.results@.len() implies says(
                                #[trigger] tally.results@[k],
                                t.results[k],
                            ) by {
                                if k < before.results@.len() {
                                    assert(tally.results@[k] == before.results@[k]);
                                }
                            }
                            assert forall|k: int| 0 <= k < tally.selectors@.len() implies (
                            #[trigger] tally.selectors@[k]).matched <= i + 1
                                && tally.selectors@[k].changed <= tally.selectors@[k].matched
                                && tally.selectors@[k].purged <= tally.selectors@[k].matched
                                && tally.selectors@[k].rejected <= tally.selectors@[k].matched by {
                                assert(before.selectors@[k].matched <= i);
                                assert(before.selectors@[at as int].matched <= i);
                            }
                        }
                    } else {
                        proof {
                            lemma_sound_kept(self@, before.commands@, ids, id);
                        }
                    }
                },
            }
            proof {
                ids = ids.push(id);
                assert(ids =~= order@.take(i as int + 1).map_values(|p: (u64, ItemId)| p.1));
            }
            i = i + 1;
        }
        assert(order@.take(i as int) =~= order@);
        Ok(tally)
    }

    /// Why the queue does not allow gate changes.
    fn check_gates(&self, gate_changes: &Vec<GateChange>) -> (r: EngineResult<()>)
        ensures
            match r {
                Ok(_) => gates_fault(self@, gate_changes@) is None,
                Err(e) => gates_fault(self@, gate_changes@) == Some(e@),
            },
    {
        let ghost want = asked_gates(gate_changes@);
        let mut asked: OrdSet<String> = OrdSet::new();
        let mut valid = true;
        let mut i: usize = 0;
        while i < gate_changes.len()
            invariant
                i <= gate_changes@.len(),
                forall|k: Seq<char>| #[trigger]
                    asked@.contains(k) <==> asked_gates(gate_changes@.take(i as int)).contains(k),
                valid <==> forall|k: Seq<char>| #[trigger] asked@.contains(k) ==> gate_key_valid(k),
            decreases gate_changes@.len() - i,
        {
            let keys = &gate_changes[i].gate_keys;
            let ghost start = asked@;
            let ghost ts = texts(keys@);
            let mut j: usize = 0;
            while j < keys.len()
                invariant
                    j <= keys@.len(),
                    ts == texts(keys@),
                    forall|k: Seq<char>| #[trigger]
                        asked@.contains(k) <==> start.contains(k) || ts.take(j as int).contains(k),
                    valid <==> forall|k: Seq<char>| #[trigger]
                        asked@.contains(k) ==> gate_key_valid(k),
                decreases keys@.len() - j,
            {
                let ghost prior = asked@;
                let ok = valid_gate_key(keys[j].as_str());
                let ghost was = valid;
                valid = valid && ok;
                asked.insert(keys[j].clone());
                proof {
                    let key = keys@[j as int]@;
                    assert(ts[j as int] == key);
                    assert(ts.take(j as int + 1) =~= ts.take(j as int).push(key));
                    assert forall|k: Seq<char>| #[trigger] asked@.contains(k) <==> start.contains(k)
                        || ts.take(j as int + 1).contains(k) by {
                        lemma_push_contains(ts.take(j as int), key, k);
                        assert(prior.contains(k) <==> start.contains(k) || ts.take(
                            j as int,
                        ).contains(k));
                    }
                    assert(asked@.contains(key));
                    assert(asked@ == prior.insert(key));
                    if was {
                        assert forall|k: Seq<char>| prior.contains(k) implies gate_key_valid(k) by {}
                    } else {
                        let k = choose|k: Seq<char>| #[trigger] prior.contains(k) && !gate_key_valid(k);
                        assert(asked@.contains(k));
                    }
                }
                j = j + 1;
            }
            proof {
                assert(ts.take(j as int) =~= ts);
                let a = gate_changes@.take(i as int);
                let b = gate_changes@.take(i as int + 1);
                assert forall|k: Seq<char>| #[trigger] asked@.contains(k) <==> asked_gates(
                    b,
                ).contains(k) by {
                    assert(start.contains(k) <==> asked_gates(a).contains(k));
                    if asked_gates(a).contains(k) {
                        let x = choose|x: int|
                            0 <= x < a.len() && texts((#[trigger] a[x]).gate_keys@).contains(k);
                        assert(b[x] == a[x]);
                    }
                    if ts.contains(k) {
                        assert(texts(b[i as int].gate_keys@).contains(k));
                    }
                    if asked_gates(b).contains(k) {
                        let x = choose|x: int|
                            0 <= x < b.len() && texts((#[trigger] b[x]).gate_keys@).contains(k);
                        if x < i {
                            assert(a[x] == b[x]);
                        }
                    }
                }
            }
            i = i + 1;
        }
        proof {
            assert(gate_changes@.take(i as int) =~= gate_changes@);
            assert(asked@ =~= want);
        }
        let dynamic = match self.policy.gate_keys {
            GateKeyPolicy::Dynamic => true,
            _ => false,
        };
        let n = asked.len();
        let over = match self.policy.max_gates_per_request {
            Some(limit) => n as u64 > limit,
            None => false,
        };
        if (!asked.is_empty() && !dynamic) || over {
            return Err(EngineError::Invalid("gate changes violate queue policy"));
        }
        if !valid {
            return Err(EngineError::Invalid("invalid gate key"));
        }
        Ok(())
    }

    fn check_batch(&self, commands: &Vec<ResolvedItemMutation>) -> (r: EngineResult<()>)
        ensures
            match r {
                Ok(_) => batch_reserved(self@, commands_v(commands@)) is Ok,
                Err(e) => batch_reserved(self@, commands_v(commands@)) == Err::<
                    Map<IndexKeyV, ItemId>,
                    ErrorV,
                >(e@),
            },
    {
        let ghost all = commands_v(commands@);
        let mut held: OrdMap<(String, Vec<u8>), ItemId> = OrdMap::new();
        let mut i: usize = 0;
        assert(all.take(0) =~= Seq::<(ItemId, ActionV)>::empty());
        while i < commands.len()
            invariant
                i <= commands@.len(),
                all == commands_v(commands@),
                batch_reserved(self@, all.take(i as int)) == Ok::<Map<IndexKeyV, ItemId>, ErrorV>(
                    held@,
                ),
            decreases commands@.len() - i,
        {
            proof {
                assert(all.take(i as int + 1).drop_last() =~= all.take(i as int));
                assert(all.take(i as int + 1).last() == command_v(commands@[i as int]));
            }
            match &commands[i].action {
                ResolvedItemMutationAction::Purge => {},
                ResolvedItemMutationAction::Replace(v) => {
                    let keys = match self.record_index_keys(&v.fields, &v.entity_document) {
                        Ok(k) => k,
                        Err(e) => {
                            proof {
                                lemma_batch_stops(self@, all, i as int + 1);
                            }
                            return Err(e);
                        },
                    };
                    if !self.reserve(&mut held, commands[i].item_id, &keys) {
                        proof {
                            lemma_batch_stops(self@, all, i as int + 1);
                        }
                        return Err(EngineError::Conflict);
                    }
                },
            }
            i = i + 1;
        }
        assert(all.take(i as int) =~= all);
        Ok(())
    }

    fn check_keys(&self, commands: &Vec<ResolvedItemMutation>) -> (r: EngineResult<()>)
        requires
            carries(self@, commands@),
        ensures
            outcome(r) == keys_told(self@, commands_v(commands@)),
    {
        let ghost all = commands_v(commands@);
        let mut i: usize = 0;
        assert(all.skip(0) =~= all);
        while i < commands.len()
            invariant
                i <= commands@.len(),
                all == commands_v(commands@),
                carries(self@, commands@),
                keys_told(self@, all) == keys_told(self@, all.skip(i as int)),
            decreases commands@.len() - i,
        {
            proof {
                assert(all.skip(i as int)[0] == command_v(commands@[i as int]));
                assert(all.skip(i as int).drop_first() =~= all.skip(i as int + 1));
                assert(self@.items.contains_key(commands@[i as int].item_id));
            }
            match self.record(commands[i].item_id) {
                None => {},
                Some(rec) => match self.record_index_keys(&rec.fields, &rec.entity_document) {
                    Ok(_) => {},
                    Err(e) => return Err(e),
                },
            }
            i = i + 1;
        }
        Ok(())
    }

    /// Plans a mutation request without changing anything. A plan that is not a dry run is carried out
    /// by its command, which cannot fail halfway. `known` holds the entities of documents whose keys
    /// have been worked out.
    pub fn plan_item_mutation(&self, request: &ItemMutationRequest, known: &Vec<Arc<Entity>>) -> (r:
        Result<ItemMutationPlan, PlanFault>)
        requires
            keyed(self@),
        ensures
            ({
                let tally = tallied(self@, *request, known@);
                match r {
                    Err(PlanFault::Unknown(d)) => tally == Err::<TallyV, JsonV>(d@),
                    Err(PlanFault::Failed(e)) => tally is Ok && whole_fault(
                        self@,
                        *request,
                        tally->Ok_0,
                    ) == Some(e@),
                    Ok(plan) => {
                        &&& tally is Ok
                        &&& whole_fault(self@, *request, tally->Ok_0) is None
                        &&& all_say(plan.response.results@, tally->Ok_0.results)
                        &&& aggregates_v(plan.response.selectors@) == tally->Ok_0.selectors
                        &&& summed(plan.response.summary, tally->Ok_0.results)
                        &&& plan.response.request_id@ == request.request_id@
                        &&& plan.response.position is None
                        &&& plan.response.dry_run == request.dry_run
                        &&& commands_v(plan.command.items@) == tally->Ok_0.commands
                        &&& changes_v(plan.command.gate_changes@) == changes_v(
                            request.gate_changes@,
                        )
                        &&& forall|a: int|
                            0 <= a < plan.command.items@.len() && (
                            #[trigger] plan.command.items@[a]).action is Replace
                                ==> follows_document(plan.command.items@[a].action->Replace_0)
                        &&& forall|at: Option<UtcTimestamp>, pos: Option<PositionV>|
                            (#[trigger] applied(
                                self@,
                                at,
                                pos,
                                QueueCommand::MutateItems(plan.command),
                            )).1 is Ok
                    },
                }
            }),
    {
        let planned = match &request.operation {
            ItemMutationOperation::Addressed(entries) => self.plan_addressed(
                request,
                entries,
                known,
            ),
            ItemMutationOperation::SelectFirst(clauses) => self.plan_selected(
                request,
                clauses,
                known,
            ),
        };
        let tally = match planned {
            Err(d) => return Err(PlanFault::Unknown(d)),
            Ok(t) => t,
        };
        let ghost t = tallied(self@, *request, known@)->Ok_0;
        let summary = sum_results(&tally.results, Ghost(t.results));
        match self.check_gates(&request.gate_changes) {
            Ok(_) => {},
            Err(e) => return Err(PlanFault::Failed(e)),
        }
        match self.check_batch(&tally.commands) {
            Ok(_) => {},
            Err(e) => return Err(PlanFault::Failed(e)),
        }
        match self.check_keys(&tally.commands) {
            Ok(_) => {},
            Err(e) => return Err(PlanFault::Failed(e)),
        }
        let gate_changes = copy_changes(&request.gate_changes);
        let command = MutateItemsCommand { items: tally.commands, gate_changes };
        proof {
            assert forall|at: Option<UtcTimestamp>, pos: Option<PositionV>|
                (#[trigger] applied(self@, at, pos, QueueCommand::MutateItems(command))).1 is Ok by {
                lemma_mutations_succeed(self@, self@, command.items@, at, pos);
                lemma_gate_changes_succeed(
                    run(self@, command.items@, mutate_each(at, pos)).0,
                    command.gate_changes@,
                );
            }
        }
        Ok(
            ItemMutationPlan {
                response: ItemMutationResponse {
                    request_id: request.request_id.clone(),
                    position: None,
                    dry_run: request.dry_run,
                    results: tally.results,
                    selectors: tally.selectors,
                    summary,
                },
                command,
            },
        )
    }
}

/// Gate changes by what they hold.
pub open spec fn changes_v(cs: Seq<GateChange>) -> Seq<(Seq<Seq<char>>, bool)> {
    cs.map_values(|c: GateChange| (texts(c.gate_keys@), c.blocked))
}

fn copy_changes(cs: &Vec<GateChange>) -> (r: Vec<GateChange>)
    ensures
        changes_v(r@) == changes_v(cs@),
{
    let ghost all = changes_v(cs@);
    let mut out: Vec<GateChange> = Vec::new();
    let mut i: usize = 0;
    assert(changes_v(out@) =~= all.take(0));
    while i < cs.len()
        invariant
            i <= cs@.len(),
            all == changes_v(cs@),
            changes_v(out@) == all.take(i as int),
        decreases cs@.len() - i,
    {
        let ghost before = out@;
        let c = GateChange { gate_keys: clone_texts(&cs[i].gate_keys), blocked: cs[i].blocked };
        out.push(c);
        assert(changes_v(out@) =~= changes_v(before).push((texts(c.gate_keys@), c.blocked)));
        assert(all.take(i as int + 1) =~= all.take(i as int).push(all[i as int]));
        i = i + 1;
    }
    assert(all.take(i as int) =~= all);
    out
}

fn start_aggregates(clauses: &Vec<SelectorClause>) -> (r: Vec<ItemMutationSelectorAggregate>)
    ensures
        aggregates_v(r@) == no_matches(clauses@),
        r@.len() == clauses@.len(),
        forall|k: int|
            0 <= k < r@.len() ==> (#[trigger] r@[k]).matched == 0 && r@[k].changed == 0
                && r@[k].purged == 0 && r@[k].rejected == 0,
{
    let ghost all = no_matches(clauses@);
    let mut out: Vec<ItemMutationSelectorAggregate> = Vec::new();
    let mut i: usize = 0;
    assert(aggregates_v(out@) =~= all.take(0));
    while i < clauses.len()
        invariant
            i <= clauses@.len(),
            all == no_matches(clauses@),
            out@.len() == i,
            aggregates_v(out@) == all.take(i as int),
            forall|k: int|
                0 <= k < out@.len() ==> (#[trigger] out@[k]).matched == 0 && out@[k].changed == 0
                    && out@[k].purged == 0 && out@[k].rejected == 0,
        decreases clauses@.len() - i,
    {
        let ghost before = out@;
        let a = ItemMutationSelectorAggregate {
            selector_id: clauses[i].selector_id.clone(),
            matched: 0,
            changed: 0,
            purged: 0,
            rejected: 0,
        };
        out.push(a);
        assert(aggregates_v(out@) =~= aggregates_v(before).push(a@));
        assert(all.take(i as int + 1) =~= all.take(i as int).push(all[i as int]));
        i = i + 1;
    }
    assert(all.take(i as int) =~= all);
    out
}

/// Every matched item is changed, left as it was, or rejected.
pub proof fn law_summary_adds_up(s: ItemMutationSummary, rs: Seq<ResultV>)
    requires
        summed(s, rs),
    ensures
        s.matched == s.changed + s.unchanged + s.rejected,
        s.purged <= s.changed,
{
    lemma_counts_add_up(rs);
}

proof fn lemma_counts_add_up(rs: Seq<ResultV>)
    ensures
        rs.len() == count_of(rs, |o: ItemMutationOutcome| changes(o)) + count_of(
            rs,
            |o: ItemMutationOutcome| o is NoChange,
        ) + count_of(rs, |o: ItemMutationOutcome| !changes(o) && !(o is NoChange)),
        count_of(rs, |o: ItemMutationOutcome| purges(o)) <= count_of(
            rs,
            |o: ItemMutationOutcome| changes(o),
        ),
    decreases rs.len(),
{
    if rs.len() > 0 {
        lemma_counts_add_up(rs.drop_last());
    }
}

} // verus!
