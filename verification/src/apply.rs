//! Committed commands, applied to the state of a queue.

use crate::eligibility::elig_key;
use crate::item::{Item, ItemRecord, PushV, pushed_item, record_of_push};
use crate::model::{Model, announced, applied, claim_each, claimed, cohort_fail_each, cohort_failed, counts_room, edited_fields, ends_lease, enter_if, fence_each, fenced, final_event, finalize_each, finalized, fits, forgotten, gate_each, gate_settle, gate_settled, gated, gates_after, gates_changed, handed_back, index_keys, indexed, insert_each, inserted, lacking, lapse_each, lapsed, leave_if, live_group, moved, mutate_each, mutated, purge_each, purged, put, ready, reassign_each, reassigned, regated, reindexed, released_item, renew_each, renewed, replaced, replaced_item, rescheduled_item, retired, room, room_for, run, settled, settled_ids, side_each, side_written, superseded, transitioned, uncounted, under_gates, unindexed, unleased, update_each, updated, updated_entity, updated_fields, updated_ids, updated_item, values_keys, withdrawn};
use crate::order::{OrdSet, OrderKey, Standing, ascending, lemma_ascending_at, lemma_lt_asymmetric, listing_of};
use crate::projection::{ProjectionData, copy_fields, gate_keys_blocked, lacking_keys, side_v};
use crate::text::{clone_bytes, clone_opt_text, opt_text, same_text, texts};
use crate::shared::{bytes_of, bytes_share, fx_keys, share};
use crate::types::{CommandPosition, EngineError, EngineResult, ErrorV, FieldMap, FinalizeKind, FinalizeOutcome, GateChange, ItemEvent, ItemId, ItemState, NotBeforeUpdate, PayloadUpdate, PositionV, PriorityUpdate, PushItem, QueueCommand, RecurrenceMode, ReplacePendingCommand, ResolvedItemMutation, ResolvedItemMutationAction, ResolvedItemValues, SideRecord, UpdateFieldsCommand, UtcTimestamp, apply_transition, clone_opt_position, clone_opt_priority, field_bytes, is_retry_exhausted, keys_view, outcome, share_opt_bytes, share_opt_doc};
use bytes::Bytes;
use std::sync::Arc;
use vstd::prelude::*;

verus! {

/// No counter went up by more than one.
pub open spec fn grew(m: Model, n: Model) -> bool {
    &&& n.metrics.pending <= m.metrics.pending + 1
    &&& n.metrics.leased <= m.metrics.leased + 1
    &&& n.metrics.complete <= m.metrics.complete + 1
    &&& n.metrics.failed <= m.metrics.failed + 1
    &&& n.metrics.resident_terminal_count <= m.metrics.resident_terminal_count + 1
    &&& n.next_seq <= m.next_seq + 1
    &&& forall|id: ItemId| #[trigger]
        n.items.contains_key(id) ==> m.items.contains_key(id) && n.items[id].item_version
            <= m.items[id].item_version + 1 && n.items[id].attempt_count
            <= m.items[id].attempt_count + 1
}

proof fn lemma_grew_room(ids: Set<ItemId>, m: Model, n: Model, k: nat)
    requires
        room(m, ids, k),
        k >= 1,
        grew(m, n),
    ensures
        room(n, ids, (k - 1) as nat),
{
}

proof fn lemma_transition_grew(
    m: Model,
    id: ItemId,
    ev: ItemEvent,
    at: Option<UtcTimestamp>,
    pos: Option<PositionV>,
)
    requires
        room_for(m, id),
    ensures
        grew(m, transitioned(m, id, ev, at, pos).0),
        transitioned(m, id, ev, at, pos).1 is Ok ==> {
            let n = transitioned(m, id, ev, at, pos).0;
            &&& n.items == m.items.insert(id, n.items[id])
            &&& n.items.contains_key(id)
            &&& n.items[id].attempt_count == m.items[id].attempt_count
            &&& n.blocked_gates == m.blocked_gates
            &&& n.priority_model == m.priority_model
            &&& n.next_seq == m.next_seq
        },
{
}

proof fn lemma_claim_grew(
    m: Model,
    id: ItemId,
    token: Seq<char>,
    expires: UtcTimestamp,
    worker: Option<Seq<char>>,
    cohort: bool,
)
    requires
        room_for(m, id),
    ensures
        grew(m, claimed(m, id, token, expires, worker, cohort).0),
{
    lemma_transition_grew(m, id, ItemEvent::Claim, None, None);
}

proof fn lemma_lapse_grew(m: Model, id: ItemId)
    requires
        room_for(m, id),
    ensures
        grew(m, lapsed(m, id).0),
{
    lemma_transition_grew(m, id, ItemEvent::LeaseExpired, None, None);
}

proof fn lemma_finalize_grew(
    m: Model,
    o: FinalizeOutcome,
    at: Option<UtcTimestamp>,
    pos: Option<PositionV>,
)
    requires
        room_for(m, o.item_id),
    ensures
        grew(m, finalized(m, o, at, pos).0),
{
    match final_event(m, o) {
        Ok(ev) => {
            lemma_transition_grew(m, o.item_id, ev, at, pos);
        },
        Err(_) => {},
    }
}

/// Indexing an item moves nothing but the indexes.
pub proof fn lemma_indexed_frame(m: Model, id: ItemId, keys: Seq<(Seq<char>, Seq<u8>)>)
    ensures
        indexed(m, id, keys) == (Model {
            unique: indexed(m, id, keys).unique,
            multi: indexed(m, id, keys).multi,
            ..m
        }),
        unindexed(m, id, keys) == (Model {
            unique: unindexed(m, id, keys).unique,
            multi: unindexed(m, id, keys).multi,
            ..m
        }),
    decreases keys.len(),
{
    if keys.len() > 0 {
        lemma_indexed_frame(m, id, keys.drop_last());
    }
}

proof fn lemma_update_grew(m: Model, c: UpdateFieldsCommand, at: Option<UtcTimestamp>)
    requires
        room_for(m, c.item_id),
    ensures
        grew(m, updated(m, c, at).0),
{
    if m.items.contains_key(c.item_id) {
        let i = m.items[c.item_id];
        match (
            index_keys(m, i.fields, i.entity),
            index_keys(m, updated_fields(i, c), updated_entity(i, c)),
        ) {
            (Ok(a), Ok(b)) => {
                let m0 = put(m, c.item_id, updated_item(i, c, at));
                lemma_indexed_frame(m0, c.item_id, lacking(a, b));
                lemma_indexed_frame(
                    unindexed(m0, c.item_id, lacking(a, b)),
                    c.item_id,
                    lacking(b, a),
                );
            },
            _ => {},
        }
    }
}

/// The items of one key in an index of pairs, in ascending order.
pub fn members_of(pairs: &OrdSet<(String, u64)>, key: &String) -> (r: Vec<ItemId>)
    ensures
        forall|id: ItemId| r@.contains(id) <==> pairs@.contains((key@, id)),
        ascending::<u64>(r@),
{
    let n = pairs.len();
    let from = (key.clone(), 0u64);
    let start = pairs.count_below(&from);
    let ghost l = pairs.listing();
    let mut out: Vec<ItemId> = Vec::new();
    let mut i: usize = start;
    while i < n && same_text(pairs.at(i).0.as_str(), key.as_str())
        invariant
            start <= i <= n,
            n == l.len(),
            l == pairs.listing(),
            ascending::<(String, u64)>(l),
            out@.len() == i - start,
            forall|j: int| start <= j < i ==> #[trigger] l[j] == (key@, out@[j - start]),
        decreases n - i,
    {
        let ghost before = out@;
        out.push(pairs.at(i).1);
        assert forall|j: int| start <= j < i + 1 implies #[trigger] l[j] == (
            key@,
            out@[j - start],
        ) by {
            if j < i {
                assert(l[j] == (key@, before[j - start]));
            }
        }
        i = i + 1;
    }
    proof {
        assert forall|a: int, b: int| 0 <= a < b < out@.len() implies u64::kless(
            #[trigger] out@[a],
            #[trigger] out@[b],
        ) by {
            lemma_ascending_at::<(String, u64)>(l, a + start, b + start);
            assert(l[a + start] == (key@, out@[a]));
            assert(l[b + start] == (key@, out@[b]));
            String::lt_irreflexive(key@);
        }
        assert forall|id: ItemId| out@.contains(id) <==> pairs@.contains((key@, id)) by {
            if out@.contains(id) {
                let j = choose|j: int| 0 <= j < out@.len() && out@[j] == id;
                assert(l[j + start] == (key@, out@[j]));
                assert(l.to_set().contains(l[j + start]));
                assert(pairs@.contains((key@, id)));
            }
            if pairs@.contains((key@, id)) {
                assert(l.to_set().contains((key@, id)));
                let p = choose|p: int| 0 <= p < l.len() && l[p] == (key@, id);
                String::lt_irreflexive(key@);
                assert(!(p < start)) by {
                    if p < start {
                        assert(<(String, u64)>::kless(l[p], (key@, 0u64)));
                    }
                }
                if p >= i {
                    assert(i < n);
                    assert(!<(String, u64)>::kless(l[i as int], (key@, 0u64)));
                    assert(l[i as int].0 != key@);
                    String::lt_total(l[i as int].0, key@);
                    if p > i {
                        lemma_ascending_at::<(String, u64)>(l, i as int, p);
                    }
                    lemma_lt_asymmetric::<String>(l[i as int].0, key@);
                    assert(false);
                }
                assert(l[p] == (key@, out@[p - start]));
                assert(out@[p - start] == id);
            }
        }
    }
    out
}

impl ProjectionData {
    /// A new record takes its place, its key and its gates. What stood under its identifier gives up
    /// its place first.
    fn announce(&mut self, rec: &ItemRecord)
        ensures
            final(self)@ == announced(old(self)@, rec@),
    {
        let ghost m = self@;
        let ghost i = rec@;
        let id = rec.item_id;
        let displaced = match self.record(id) {
            Some(prior) => if self.is_ready(prior) && !prior.superseded {
                Some(elig_key(prior, &self.priority_model))
            } else {
                None
            },
            None => None,
        };
        let ready_now = self.is_ready(rec);
        match displaced {
            Some(key) => {
                self.eligible.remove(&key);
            },
            None => {},
        }
        let ghost m2 = self@;
        assert(m2 == leave_if(
            m,
            m.items.contains_key(id) && ready(m, m.items[id]) && !m.items[id].superseded,
            m.items[id],
        ));
        if ready_now {
            self.enter(rec);
        }
        let ghost m3 = self@;
        assert(m3 == enter_if(m2, ready(m, i), i));
        match &rec.explicit_client_item_key {
            Some(key) => {
                self.by_key.insert(key.clone(), id);
            },
            None => {},
        }
        self.join_gates(id, &rec.gate_keys);
    }

    pub(crate) fn insert_pending(&mut self, item: &PushItem, at: Option<UtcTimestamp>) -> (r:
        EngineResult<()>)
        requires
            counts_room(old(self)@, 1),
        ensures
            (final(self)@, outcome(r)) == inserted(old(self)@, item@, at),
    {
        let id = item.item_id;
        let rec = record_of_push(item, self.next_seq, at);
        self.next_seq = self.next_seq + 1;
        self.announce(&rec);
        let keys = match self.record_index_keys(&rec.fields, &rec.entity_document) {
            Ok(keys) => keys,
            Err(e) => {
                return Err(e);
            },
        };
        let ghost m5 = self@;
        self.index_insert_keys(id, &keys);
        proof {
            lemma_indexed_frame(m5, id, keys_view(keys@));
        }
        self.put_record(id, rec);
        self.metrics.pending = self.metrics.pending + 1;
        Ok(())
    }

    /// One step of an item's life, with its place, its lease and the counts following.
    pub(crate) fn transition(
        &mut self,
        id: ItemId,
        ev: ItemEvent,
        at: Option<UtcTimestamp>,
        pos: Option<&CommandPosition>,
    ) -> (r: EngineResult<()>)
        requires
            room_for(old(self)@, id),
        ensures
            (final(self)@, outcome(r)) == transitioned(
                old(self)@,
                id,
                ev,
                at,
                match pos {
                    Some(p) => Some(p@),
                    None => None,
                },
            ),
    {
        let ghost m = self@;
        let state = match self.record(id) {
            None => {
                return Err(EngineError::NotFound);
            },
            Some(rec) => {
                if rec.superseded {
                    return Err(EngineError::Superseded);
                }
                match apply_transition(rec.state, ev) {
                    None => {
                        return Err(EngineError::Invalid("illegal lifecycle transition"));
                    },
                    Some(state) => state,
                }
            },
        };
        let mut rec = match self.take_record(id) {
            Some(rec) => rec,
            None => {
                return Err(EngineError::NotFound);
            },
        };
        let ghost i = rec@;
        let old_state = rec.state;
        let was_ready = self.is_ready(&rec);
        let key = elig_key(&rec, &self.priority_model);
        if let ItemState::Leased = old_state {
            match state {
                ItemState::Leased => {},
                _ => {
                    self.unlease(id, &rec.lease_token, rec.lease_expires_at);
                },
            }
        }
        rec.state = state;
        rec.item_version = rec.item_version + 1;
        match state {
            ItemState::Leased => {},
            _ => {
                rec.worker_id = None;
            },
        }
        if state.is_terminal() {
            rec.terminal_at = at;
            rec.terminal_position = clone_opt_position(pos);
        } else if old_state.is_terminal() {
            rec.terminal_at = None;
            rec.terminal_position = None;
        }
        let now_ready = self.is_ready(&rec);
        let ghost j = rec@;
        if was_ready {
            self.eligible.remove(&key);
        }
        if now_ready {
            self.enter(&rec);
        }
        self.put_record(id, rec);
        self.metrics_transition(old_state, state);
        proof {
            let p = match pos {
                Some(p) => Some(p@),
                None => None,
            };
            assert(j == moved(i, state, at, p));
            assert(m.items.remove(id).insert(id, j) =~= m.items.insert(id, j));
        }
        Ok(())
    }

    fn claim_one(
        &mut self,
        id: ItemId,
        token: &String,
        expires: UtcTimestamp,
        worker: &Option<String>,
        cohort: bool,
    ) -> (r: EngineResult<()>)
        requires
            room_for(old(self)@, id),
        ensures
            (final(self)@, outcome(r)) == claimed(
                old(self)@,
                id,
                token@,
                expires,
                opt_text(*worker),
                cohort,
            ),
    {
        let ghost m = self@;
        proof {
            lemma_transition_grew(m, id, ItemEvent::Claim, None, None);
        }
        match self.transition(id, ItemEvent::Claim, None, None) {
            Ok(_) => {},
            Err(e) => {
                return Err(e);
            },
        }
        let ghost n = self@;
        let mut rec = match self.take_record(id) {
            Some(rec) => rec,
            None => {
                return Err(EngineError::NotFound);
            },
        };
        rec.lease_token = Some(token.clone());
        rec.lease_expires_at = Some(expires);
        rec.lease_is_cohort = cohort;
        if !cohort {
            rec.worker_id = clone_opt_text(worker);
        }
        rec.attempt_count = rec.attempt_count + 1;
        let ghost j = rec@;
        self.put_record(id, rec);
        assert(n.items.remove(id).insert(id, j) =~= n.items.insert(id, j));
        self.leased_ids.insert(id);
        let pair = (token.clone(), id);
        self.leased_by_consumer.insert(pair);
        if !cohort {
            self.ordinary_leases_by_expiry.insert((expires, id));
        }
        Ok(())
    }

    fn claim_all(
        &mut self,
        ids: &Vec<ItemId>,
        token: &String,
        expires: UtcTimestamp,
        worker: &Option<String>,
        cohort: bool,
    ) -> (r: EngineResult<()>)
        requires
            room(old(self)@, ids@.to_set(), ids@.len()),
        ensures
            (final(self)@, outcome(r)) == run(
                old(self)@,
                ids@,
                claim_each(token@, expires, opt_text(*worker), cohort),
            ),
    {
        let ghost f = claim_each(token@, expires, opt_text(*worker), cohort);
        let ghost start = self@;
        let ghost all = ids@;
        let mut i: usize = 0;
        assert(all.skip(0) =~= all);
        while i < ids.len()
            invariant
                i <= ids@.len(),
                all == ids@,
                start == old(self)@,
                f == claim_each(token@, expires, opt_text(*worker), cohort),
                room(self@, all.to_set(), (all.len() - i) as nat),
                run(self@, all.skip(i as int), f) == run(start, all, f),
            decreases ids@.len() - i,
        {
            proof {
                assert(all.skip(i as int)[0] == ids@[i as int]);
                assert(all.to_set().contains(ids@[i as int]));
                assert(all.skip(i as int).drop_first() =~= all.skip(i as int + 1));
                lemma_claim_grew(self@, ids@[i as int], token@, expires, opt_text(*worker), cohort);
                lemma_grew_room(
                    all.to_set(),
                    self@,
                    claimed(self@, ids@[i as int], token@, expires, opt_text(*worker), cohort).0,
                    (all.len() - i) as nat,
                );
            }
            match self.claim_one(ids[i], token, expires, worker, cohort) {
                Ok(_) => {},
                Err(e) => {
                    return Err(e);
                },
            }
            i = i + 1;
        }
        assert(all.skip(i as int) =~= Seq::<ItemId>::empty());
        Ok(())
    }

    fn renew_one(&mut self, id: ItemId, expires: UtcTimestamp) -> (r: EngineResult<()>)
        requires
            room_for(old(self)@, id),
        ensures
            (final(self)@, outcome(r)) == renewed(old(self)@, id, expires),
    {
        let ghost m = self@;
        let mut rec = match self.take_record(id) {
            Some(rec) => rec,
            None => {
                return Err(EngineError::NotFound);
            },
        };
        match rec.lease_expires_at {
            Some(e) => {
                self.ordinary_leases_by_expiry.remove(&(e, id));
            },
            None => {},
        }
        rec.lease_expires_at = Some(expires);
        rec.item_version = rec.item_version + 1;
        let ghost j = rec@;
        self.put_record(id, rec);
        assert(m.items.remove(id).insert(id, j) =~= m.items.insert(id, j));
        self.ordinary_leases_by_expiry.insert((expires, id));
        Ok(())
    }

    fn renew_all(&mut self, ids: &Vec<ItemId>, expires: UtcTimestamp) -> (r: EngineResult<()>)
        requires
            room(old(self)@, ids@.to_set(), ids@.len()),
        ensures
            (final(self)@, outcome(r)) == run(old(self)@, ids@, renew_each(expires)),
    {
        let ghost f = renew_each(expires);
        let ghost start = self@;
        let ghost all = ids@;
        let mut i: usize = 0;
        assert(all.skip(0) =~= all);
        while i < ids.len()
            invariant
                i <= ids@.len(),
                all == ids@,
                start == old(self)@,
                f == renew_each(expires),
                room(self@, all.to_set(), (all.len() - i) as nat),
                run(self@, all.skip(i as int), f) == run(start, all, f),
            decreases ids@.len() - i,
        {
            proof {
                assert(all.skip(i as int)[0] == ids@[i as int]);
                assert(all.to_set().contains(ids@[i as int]));
                assert(all.skip(i as int).drop_first() =~= all.skip(i as int + 1));
                assert(grew(self@, renewed(self@, ids@[i as int], expires).0));
                lemma_grew_room(
                    all.to_set(),
                    self@,
                    renewed(self@, ids@[i as int], expires).0,
                    (all.len() - i) as nat,
                );
            }
            match self.renew_one(ids[i], expires) {
                Ok(_) => {},
                Err(e) => {
                    return Err(e);
                },
            }
            i = i + 1;
        }
        assert(all.skip(i as int) =~= Seq::<ItemId>::empty());
        Ok(())
    }

    fn reassign_one(&mut self, id: ItemId, token: &String, expires: UtcTimestamp) -> (r:
        EngineResult<()>)
        requires
            room_for(old(self)@, id),
        ensures
            (final(self)@, outcome(r)) == reassigned(old(self)@, id, token@, expires),
    {
        let ghost m = self@;
        let mut rec = match self.take_record(id) {
            Some(rec) => rec,
            None => {
                return Err(EngineError::NotFound);
            },
        };
        match rec.lease_expires_at {
            Some(e) => {
                self.ordinary_leases_by_expiry.remove(&(e, id));
            },
            None => {},
        }
        match &rec.lease_token {
            Some(t) => {
                let pair = (t.clone(), id);
                self.leased_by_consumer.remove(&pair);
            },
            None => {},
        }
        rec.lease_token = Some(token.clone());
        rec.lease_expires_at = Some(expires);
        rec.attempt_count = rec.attempt_count + 1;
        rec.item_version = rec.item_version + 1;
        let ghost j = rec@;
        self.put_record(id, rec);
        assert(m.items.remove(id).insert(id, j) =~= m.items.insert(id, j));
        self.ordinary_leases_by_expiry.insert((expires, id));
        let pair = (token.clone(), id);
        self.leased_by_consumer.insert(pair);
        Ok(())
    }

    fn reassign_all(&mut self, ids: &Vec<ItemId>, token: &String, expires: UtcTimestamp) -> (r:
        EngineResult<()>)
        requires
            room(old(self)@, ids@.to_set(), ids@.len()),
        ensures
            (final(self)@, outcome(r)) == run(old(self)@, ids@, reassign_each(token@, expires)),
    {
        let ghost f = reassign_each(token@, expires);
        let ghost start = self@;
        let ghost all = ids@;
        let mut i: usize = 0;
        assert(all.skip(0) =~= all);
        while i < ids.len()
            invariant
                i <= ids@.len(),
                all == ids@,
                start == old(self)@,
                f == reassign_each(token@, expires),
                room(self@, all.to_set(), (all.len() - i) as nat),
                run(self@, all.skip(i as int), f) == run(start, all, f),
            decreases ids@.len() - i,
        {
            proof {
                assert(all.skip(i as int)[0] == ids@[i as int]);
                assert(all.to_set().contains(ids@[i as int]));
                assert(all.skip(i as int).drop_first() =~= all.skip(i as int + 1));
                assert(grew(self@, reassigned(self@, ids@[i as int], token@, expires).0));
                lemma_grew_room(
                    all.to_set(),
                    self@,
                    reassigned(self@, ids@[i as int], token@, expires).0,
                    (all.len() - i) as nat,
                );
            }
            match self.reassign_one(ids[i], token, expires) {
                Ok(_) => {},
                Err(e) => {
                    return Err(e);
                },
            }
            i = i + 1;
        }
        assert(all.skip(i as int) =~= Seq::<ItemId>::empty());
        Ok(())
    }
}

/// A copy of fields with some set or dropped.
pub fn edit_fields(fields: &FieldMap, ops: &Vec<(String, Option<Bytes>)>) -> (r: FieldMap)
    ensures
        field_bytes(r) == edited_fields(field_bytes(*fields), ops@),
{
    let ghost start = field_bytes(*fields);
    let mut out = copy_fields(fields);
    let mut i: usize = 0;
    assert(ops@.take(0) =~= Seq::<(String, Option<Bytes>)>::empty());
    while i < ops.len()
        invariant
            i <= ops@.len(),
            field_bytes(out) == edited_fields(start, ops@.take(i as int)),
        decreases ops@.len() - i,
    {
        proof {
            let t = ops@.take(i as int + 1);
            assert(t.drop_last() =~= ops@.take(i as int));
            assert(t.last() == ops@[i as int]);
        }
        let ghost before = out;
        match &ops[i].1 {
            Some(v) => {
                let shared = bytes_share(v);
                out.insert(ops[i].0.clone(), shared);
                assert(field_bytes(out) =~= field_bytes(before).insert(
                    ops@[i as int].0@,
                    bytes_of(*v),
                ));
            },
            None => {
                out.remove(&ops[i].0);
                assert(field_bytes(out) =~= field_bytes(before).remove(ops@[i as int].0@));
            },
        }
        i = i + 1;
    }
    assert(ops@.take(i as int) =~= ops@);
    out
}

/// The fields of an item after an update.
fn next_fields(rec: &ItemRecord, c: &UpdateFieldsCommand) -> (r: Arc<FieldMap>)
    ensures
        field_bytes(*r) == updated_fields(rec@, *c),
{
    let base = match &c.set_fields {
        Some(f) => share(f),
        None => share(&rec.fields),
    };
    if c.field_ops.len() == 0 {
        assert(c.field_ops@ =~= Seq::<(String, Option<Bytes>)>::empty());
        base
    } else {
        Arc::new(edit_fields(&base, &c.field_ops))
    }
}

/// A record with an update's values.
fn update_record(
    rec: ItemRecord,
    c: &UpdateFieldsCommand,
    fields: Arc<FieldMap>,
    at: Option<UtcTimestamp>,
) -> (r: ItemRecord)
    requires
        rec.item_version < u64::MAX,
        field_bytes(*fields) == updated_fields(rec@, *c),
    ensures
        r@ == updated_item(rec@, *c, at),
        r.item_id == rec.item_id,
        r.state == rec.state,
{
    let mut rec = rec;
    rec.fields = fields;
    match &c.payload {
        PayloadUpdate::Keep => {},
        PayloadUpdate::Replace(p) => {
            rec.payload = share_opt_bytes(p);
        },
    }
    match &c.set_metadata {
        Some(x) => {
            rec.metadata = share(x);
        },
        None => {},
    }
    match &c.set_gate_keys {
        Some(k) => {
            rec.gate_keys = share(k);
        },
        None => {},
    }
    match &c.set_entity_document {
        Some(d) => {
            rec.entity_document = Some(share(d));
        },
        None => {},
    }
    match &c.set_priority {
        PriorityUpdate::Keep => {},
        PriorityUpdate::Replace(p) => {
            rec.priority = clone_opt_priority(p);
        },
    }
    match c.set_not_before {
        NotBeforeUpdate::Keep => {},
        NotBeforeUpdate::Replace(nb) => {
            rec.not_before = nb;
            if !c.api001_batch {
                let now = match at {
                    Some(t) => t,
                    None => rec.eligible_since,
                };
                let wanted = match nb {
                    Some(t) => t,
                    None => now,
                };
                rec.eligible_since = wanted.later_of(now);
            }
        },
    }
    rec.item_version = rec.item_version + 1;
    rec
}

/// The values that a mutation resolved, in a record.
fn replace_record(
    rec: ItemRecord,
    v: &ResolvedItemValues,
    lease_ends: bool,
    at: Option<UtcTimestamp>,
    pos: Option<&CommandPosition>,
) -> (r: ItemRecord)
    ensures
        r@ == replaced_item(
            rec@,
            *v,
            lease_ends,
            at,
            match pos {
                Some(p) => Some(p@),
                None => None,
            },
        ),
        r.gate_keys == v.gate_keys,
{
    let mut rec = rec;
    rec.state = v.state;
    rec.item_version = v.item_version;
    rec.priority = clone_opt_priority(&v.priority);
    rec.not_before = v.not_before;
    rec.eligible_since = v.eligible_since;
    rec.payload = share_opt_bytes(&v.payload);
    rec.fields = share(&v.fields);
    rec.metadata = share(&v.metadata);
    rec.gate_keys = share(&v.gate_keys);
    rec.entity_document = share_opt_doc(&v.entity_document);
    if lease_ends {
        rec.lease_token = None;
        rec.lease_expires_at = None;
        rec.lease_is_cohort = false;
        rec.worker_id = None;
        rec.fenced = false;
    }
    if v.state.is_terminal() {
        rec.terminal_at = at;
        rec.terminal_position = clone_opt_position(pos);
    } else {
        rec.terminal_at = None;
        rec.terminal_position = None;
    }
    rec
}

impl ProjectionData {
    fn reindex(
        &mut self,
        id: ItemId,
        old_keys: &Vec<(String, Vec<u8>)>,
        new_keys: &Vec<(String, Vec<u8>)>,
    )
        ensures
            final(self)@ == reindexed(
                old(self)@,
                id,
                keys_view(old_keys@),
                keys_view(new_keys@),
            ),
    {
        let dropped = lacking_keys(old_keys, new_keys);
        let added = lacking_keys(new_keys, old_keys);
        self.index_remove_keys(id, &dropped);
        self.index_insert_keys(id, &added);
    }

    fn update_one(&mut self, c: &UpdateFieldsCommand, at: Option<UtcTimestamp>) -> (r:
        EngineResult<()>)
        requires
            room_for(old(self)@, c.item_id),
        ensures
            (final(self)@, outcome(r)) == updated(old(self)@, *c, at),
    {
        let ghost m = self@;
        let id = c.item_id;
        let (old_keys, new_keys, fields) = match self.record(id) {
            None => {
                return Err(EngineError::NotFound);
            },
            Some(rec) => {
                let old_keys = match self.record_index_keys(&rec.fields, &rec.entity_document) {
                    Ok(k) => k,
                    Err(e) => {
                        return Err(e);
                    },
                };
                let fields = next_fields(rec, c);
                let entity = match &c.set_entity_document {
                    Some(d) => Some(share(d)),
                    None => share_opt_doc(&rec.entity_document),
                };
                let new_keys = match self.record_index_keys(&fields, &entity) {
                    Ok(k) => k,
                    Err(e) => {
                        return Err(e);
                    },
                };
                (old_keys, new_keys, fields)
            },
        };
        let moves = match (&c.set_priority, c.set_not_before, &c.set_gate_keys) {
            (PriorityUpdate::Keep, NotBeforeUpdate::Keep, None) => false,
            _ => true,
        };
        let rec = match self.take_record(id) {
            Some(rec) => rec,
            None => {
                return Err(EngineError::NotFound);
            },
        };
        let ghost i = rec@;
        let old_gates = share(&rec.gate_keys);
        let old_key = elig_key(&rec, &self.priority_model);
        let was_ready = moves && self.is_ready(&rec);
        let rec = update_record(rec, c, fields, at);
        let ghost j = rec@;
        let now_ready = moves && self.is_ready(&rec);
        let new_gates = share(&rec.gate_keys);
        let new_key = elig_key(&rec, &self.priority_model);
        self.put_record(id, rec);
        let ghost m0 = self@;
        assert(m.items.remove(id).insert(id, j) =~= m.items.insert(id, j));
        assert(m0 == put(m, id, j));
        self.reindex(id, &old_keys, &new_keys);
        proof {
            let (a, b) = (keys_view(old_keys@), keys_view(new_keys@));
            lemma_indexed_frame(m0, id, lacking(a, b));
            lemma_indexed_frame(unindexed(m0, id, lacking(a, b)), id, lacking(b, a));
        }
        self.replace_gate_memberships(id, &old_gates, &new_gates);
        if was_ready {
            self.eligible.remove(&old_key);
        }
        if now_ready {
            self.eligible.insert(new_key);
        }
        Ok(())
    }

    fn update_all(&mut self, cs: &Vec<UpdateFieldsCommand>, at: Option<UtcTimestamp>) -> (r:
        EngineResult<()>)
        requires
            room(old(self)@, updated_ids(cs@).to_set(), cs@.len()),
        ensures
            (final(self)@, outcome(r)) == run(old(self)@, cs@, update_each(at)),
    {
        let ghost f = update_each(at);
        let ghost start = self@;
        let ghost all = cs@;
        let mut i: usize = 0;
        assert(all.skip(0) =~= all);
        while i < cs.len()
            invariant
                i <= cs@.len(),
                all == cs@,
                start == old(self)@,
                f == update_each(at),
                room(self@, updated_ids(all).to_set(), (all.len() - i) as nat),
                run(self@, all.skip(i as int), f) == run(start, all, f),
            decreases cs@.len() - i,
        {
            proof {
                assert(all.skip(i as int)[0] == cs@[i as int]);
                assert(updated_ids(all)[i as int] == cs@[i as int].item_id);
                assert(updated_ids(all).to_set().contains(cs@[i as int].item_id));
                assert(all.skip(i as int).drop_first() =~= all.skip(i as int + 1));
                lemma_update_grew(self@, cs@[i as int], at);
                lemma_grew_room(
                    updated_ids(all).to_set(),
                    self@,
                    updated(self@, cs@[i as int], at).0,
                    (all.len() - i) as nat,
                );
            }
            match self.update_one(&cs[i], at) {
                Ok(_) => {},
                Err(e) => {
                    return Err(e);
                },
            }
            i = i + 1;
        }
        assert(all.skip(i as int) =~= Seq::<UpdateFieldsCommand>::empty());
        Ok(())
    }

    /// Takes a record that left the table out of everything else.
    pub(crate) fn remove_record(&mut self, rec: ItemRecord) -> (r: EngineResult<()>)
        ensures
            (final(self)@, outcome(r)) == forgotten(old(self)@, rec@),
    {
        let id = rec.item_id;
        if !rec.superseded {
            self.metrics_dec(rec.state);
        }
        match &rec.explicit_client_item_key {
            Some(key) => {
                self.by_key.remove(key.as_str());
            },
            None => {},
        }
        let none: Vec<String> = Vec::new();
        assert(texts(none@) =~= Seq::<Seq<char>>::empty());
        self.replace_gate_memberships(id, &rec.gate_keys, &none);
        match rec.state {
            ItemState::Pending => {
                self.leave(&rec);
            },
            ItemState::Leased => {
                self.unlease(id, &rec.lease_token, rec.lease_expires_at);
            },
            _ => {},
        }
        match self.record_index_keys(&rec.fields, &rec.entity_document) {
            Ok(keys) => {
                self.index_remove_keys(id, &keys);
                Ok(())
            },
            Err(e) => Err(e),
        }
    }

    pub(crate) fn purge_one(&mut self, id: ItemId) -> (r: EngineResult<()>)
        ensures
            (final(self)@, outcome(r)) == purged(old(self)@, id),
    {
        match self.take_record(id) {
            Some(rec) => self.remove_record(rec),
            None => Ok(()),
        }
    }

    fn withdraw(&mut self, id: ItemId, rec: &ItemRecord, lease_ends: bool)
        ensures
            final(self)@ == withdrawn(old(self)@, id, rec@, lease_ends),
    {
        if self.is_ready(rec) && !rec.superseded {
            self.leave(rec);
        }
        if lease_ends {
            let expires = if rec.lease_is_cohort {
                None
            } else {
                rec.lease_expires_at
            };
            self.unlease(id, &rec.lease_token, expires);
        }
    }

    /// Puts the new record in the table, and everything else follows.
    fn settle(
        &mut self,
        id: ItemId,
        before: &ItemRecord,
        rec: ItemRecord,
        old_keys: &Vec<(String, Vec<u8>)>,
        new_keys: &Vec<(String, Vec<u8>)>,
    )
        requires
            counts_room(old(self)@, 1),
        ensures
            final(self)@ == settled(
                old(self)@,
                id,
                before@,
                rec@,
                keys_view(old_keys@),
                keys_view(new_keys@),
            ),
    {
        let ghost m = self@;
        let now_ready = self.is_ready(&rec) && !rec.superseded;
        let new_key = elig_key(&rec, &self.priority_model);
        let new_gates = share(&rec.gate_keys);
        let state = rec.state;
        self.put_record(id, rec);
        let ghost m0 = self@;
        self.reindex(id, old_keys, new_keys);
        proof {
            let (a, b) = (keys_view(old_keys@), keys_view(new_keys@));
            lemma_indexed_frame(m0, id, lacking(a, b));
            lemma_indexed_frame(unindexed(m0, id, lacking(a, b)), id, lacking(b, a));
        }
        self.replace_gate_memberships(id, &before.gate_keys, &new_gates);
        if !before.superseded {
            self.metrics_transition(before.state, state);
        }
        if now_ready {
            self.eligible.insert(new_key);
        }
    }

    fn replace_one(
        &mut self,
        id: ItemId,
        v: &ResolvedItemValues,
        at: Option<UtcTimestamp>,
        pos: Option<&CommandPosition>,
    ) -> (r: EngineResult<()>)
        requires
            counts_room(old(self)@, 1),
        ensures
            (final(self)@, outcome(r)) == replaced(
                old(self)@,
                id,
                *v,
                at,
                match pos {
                    Some(p) => Some(p@),
                    None => None,
                },
            ),
    {
        let prior = match self.record(id) {
            None => {
                return Err(EngineError::NotFound);
            },
            Some(rec) => rec.duplicate(),
        };
        let old_keys = match self.record_index_keys(&prior.fields, &prior.entity_document) {
            Ok(k) => k,
            Err(e) => {
                return Err(e);
            },
        };
        let lease_ends = match prior.state {
            ItemState::Leased => v.invalidate_lease || match v.state {
                ItemState::Leased => false,
                _ => true,
            },
            _ => false,
        };
        self.withdraw(id, &prior, lease_ends);
        let new_keys = match self.record_index_keys(&v.fields, &v.entity_document) {
            Ok(k) => k,
            Err(e) => {
                return Err(e);
            },
        };
        let rec = replace_record(prior.duplicate(), v, lease_ends, at, pos);
        self.settle(id, &prior, rec, &old_keys, &new_keys);
        Ok(())
    }
}

proof fn lemma_mutate_counts(
    m: Model,
    x: ResolvedItemMutation,
    at: Option<UtcTimestamp>,
    pos: Option<PositionV>,
    k: nat,
)
    requires
        counts_room(m, k),
        k >= 1,
    ensures
        counts_room(mutated(m, x, at, pos).0, (k - 1) as nat),
{
    let id = x.item_id;
    if m.items.contains_key(id) {
        let i = m.items[id];
        match x.action {
            ResolvedItemMutationAction::Purge => {
                let n = Model { items: m.items.remove(id), ..m };
                match index_keys(n, i.fields, i.entity) {
                    Ok(keys) => {
                        lemma_forgotten_counts(n, i);
                    },
                    Err(_) => {
                        lemma_forgotten_counts(n, i);
                    },
                }
            },
            ResolvedItemMutationAction::Replace(v) => {
                let n = withdrawn(m, id, i, ends_lease(i, v));
                match (
                    index_keys(m, i.fields, i.entity),
                    values_keys(n, v),
                ) {
                    (Ok(a), Ok(b)) => {
                        let n0 = put(n, id, replaced_item(i, v, ends_lease(i, v), at, pos));
                        lemma_indexed_frame(n0, id, lacking(a, b));
                        lemma_indexed_frame(unindexed(n0, id, lacking(a, b)), id, lacking(b, a));
                    },
                    _ => {},
                }
            },
        }
    }
}

/// Taking a record out counts nothing up.
proof fn lemma_forgotten_counts(m: Model, i: Item)
    ensures
        ({
            let n = forgotten(m, i).0;
            &&& n.metrics.pending <= m.metrics.pending
            &&& n.metrics.leased <= m.metrics.leased
            &&& n.metrics.complete <= m.metrics.complete
            &&& n.metrics.failed <= m.metrics.failed
            &&& n.metrics.resident_terminal_count <= m.metrics.resident_terminal_count
            &&& n.next_seq == m.next_seq
            &&& n.items == m.items
        }),
{
    let m1 = if i.superseded {
        m
    } else {
        Model { metrics: uncounted(m.metrics, i.state), ..m }
    };
    let m2 = match i.explicit_key {
        Some(k) => Model { by_key: m1.by_key.remove(k), ..m1 },
        None => m1,
    };
    let m3 = regated(m2, i.item_id, i.gate_keys, Seq::empty());
    let m4 = leave_if(m3, i.state is Pending, i);
    let m5 = if i.state is Leased {
        unleased(m4, i.item_id, i.lease_token, i.lease_expires_at)
    } else {
        m4
    };
    match index_keys(m5, i.fields, i.entity) {
        Ok(keys) => {
            lemma_indexed_frame(m5, i.item_id, keys);
        },
        Err(_) => {},
    }
}

/// Changing gates moves nothing but the blocked gates and the places.
pub proof fn lemma_gates_frame(m: Model, ids: Seq<ItemId>, before: Set<Seq<char>>)
    ensures
        run(m, ids, gate_settle(before)).1 is Ok,
        run(m, ids, gate_settle(before)).0 == (Model {
            eligible: run(m, ids, gate_settle(before)).0.eligible,
            compact: run(m, ids, gate_settle(before)).0.compact,
            ..m
        }),
    decreases ids.len(),
{
    if ids.len() > 0 {
        let n = gate_settled(m, before, ids[0]).0;
        lemma_gates_frame(n, ids.drop_first(), before);
    }
}

impl ProjectionData {
    fn mutate_one(
        &mut self,
        x: &ResolvedItemMutation,
        at: Option<UtcTimestamp>,
        pos: Option<&CommandPosition>,
    ) -> (r: EngineResult<()>)
        requires
            counts_room(old(self)@, 1),
        ensures
            (final(self)@, outcome(r)) == mutated(
                old(self)@,
                *x,
                at,
                match pos {
                    Some(p) => Some(p@),
                    None => None,
                },
            ),
    {
        match &x.action {
            ResolvedItemMutationAction::Purge => self.purge_one(x.item_id),
            ResolvedItemMutationAction::Replace(v) => self.replace_one(x.item_id, v, at, pos),
        }
    }

    fn mutate_all(
        &mut self,
        xs: &Vec<ResolvedItemMutation>,
        at: Option<UtcTimestamp>,
        pos: Option<&CommandPosition>,
    ) -> (r: EngineResult<()>)
        requires
            counts_room(old(self)@, xs@.len()),
        ensures
            (final(self)@, outcome(r)) == run(
                old(self)@,
                xs@,
                mutate_each(
                    at,
                    match pos {
                        Some(p) => Some(p@),
                        None => None,
                    },
                ),
            ),
    {
        let ghost pv: Option<PositionV> = match pos {
            Some(p) => Some(p@),
            None => None,
        };
        let ghost f = mutate_each(at, pv);
        let ghost start = self@;
        let ghost all = xs@;
        let mut i: usize = 0;
        assert(all.skip(0) =~= all);
        while i < xs.len()
            invariant
                i <= xs@.len(),
                all == xs@,
                start == old(self)@,
                pv == (match pos {
                    Some(p) => Some(p@),
                    None => None,
                }),
                f == mutate_each(at, pv),
                counts_room(self@, (all.len() - i) as nat),
                run(self@, all.skip(i as int), f) == run(start, all, f),
            decreases xs@.len() - i,
        {
            proof {
                assert(all.skip(i as int)[0] == xs@[i as int]);
                assert(all.skip(i as int).drop_first() =~= all.skip(i as int + 1));
                lemma_mutate_counts(self@, xs@[i as int], at, pv, (all.len() - i) as nat);
            }
            match self.mutate_one(&xs[i], at, pos) {
                Ok(_) => {},
                Err(e) => {
                    return Err(e);
                },
            }
            i = i + 1;
        }
        assert(all.skip(i as int) =~= Seq::<ResolvedItemMutation>::empty());
        Ok(())
    }

    /// The items that stand under one of the gates.
    fn affected(&self, keys: &Vec<String>) -> (r: OrdSet<u64>)
        ensures
            r@ == under_gates(self@, texts(keys@)),
    {
        let ghost all = texts(keys@);
        let mut out: OrdSet<u64> = OrdSet::new();
        let mut i: usize = 0;
        while i < keys.len()
            invariant
                i <= keys@.len(),
                all == texts(keys@),
                forall|id: ItemId| #[trigger]
                    out@.contains(id) <==> exists|j: int|
                        0 <= j < i && self@.gate_members.contains((#[trigger] all[j], id)),
            decreases keys@.len() - i,
        {
            let members = members_of(&self.gate_members, &keys[i]);
            assert(all[i as int] == keys@[i as int]@);
            let ghost before = out@;
            let mut k: usize = 0;
            while k < members.len()
                invariant
                    k <= members@.len(),
                    forall|id: ItemId| #[trigger]
                        out@.contains(id) <==> before.contains(id) || exists|j: int|
                            0 <= j < k && #[trigger] members@[j] == id,
                decreases members@.len() - k,
            {
                let ghost prior = out@;
                out.insert(members[k]);
                proof {
                    assert forall|id: ItemId| #[trigger]
                        out@.contains(id) <==> before.contains(id) || exists|j: int|
                            0 <= j < k + 1 && #[trigger] members@[j] == id by {
                        assert(prior.contains(id) <==> before.contains(id) || exists|j: int|
                            0 <= j < k && #[trigger] members@[j] == id);
                        if exists|j: int| 0 <= j < k && #[trigger] members@[j] == id {
                            let j = choose|j: int| 0 <= j < k && #[trigger] members@[j] == id;
                            assert(members@[j] == id);
                        }
                        assert(members@[k as int] == members@[k as int]);
                    }
                }
                k = k + 1;
            }
            proof {
                assert forall|id: ItemId| #[trigger]
                    out@.contains(id) <==> exists|j: int|
                        0 <= j < i + 1 && self@.gate_members.contains((#[trigger] all[j], id)) by {
                    assert(before.contains(id) <==> exists|j: int|
                        0 <= j < i && self@.gate_members.contains((#[trigger] all[j], id)));
                    if exists|j: int| 0 <= j < k && #[trigger] members@[j] == id {
                        assert(members@.contains(id));
                        assert(self@.gate_members.contains((all[i as int], id)));
                    }
                    if before.contains(id) {
                        let j = choose|j: int|
                            0 <= j < i && self@.gate_members.contains((#[trigger] all[j], id));
                        assert(self@.gate_members.contains((all[j], id)));
                    }
                    if exists|j: int|
                        0 <= j < i + 1 && self@.gate_members.contains((#[trigger] all[j], id)) {
                        let j = choose|j: int|
                            0 <= j < i + 1 && self@.gate_members.contains((#[trigger] all[j], id));
                        if j == i {
                            assert(members@.contains(id));
                            let q = choose|q: int| 0 <= q < members@.len() && members@[q] == id;
                            assert(members@[q] == id);
                        } else {
                            assert(0 <= j < i && self@.gate_members.contains((all[j], id)));
                        }
                    }
                }
            }
            i = i + 1;
        }
        proof {
            let wanted = under_gates(self@, all);
            assert forall|id: ItemId| out@.contains(id) == wanted.contains(id) by {
                if out@.contains(id) {
                    let j = choose|j: int|
                        0 <= j < i && self@.gate_members.contains((#[trigger] all[j], id));
                    assert(self@.gate_members.contains((all[j], id)) && all.contains(all[j]));
                }
                if wanted.contains(id) {
                    let k = choose|k: Seq<char>| #[trigger]
                        self@.gate_members.contains((k, id)) && all.contains(k);
                    let j = choose|j: int| 0 <= j < all.len() && all[j] == k;
                    assert(self@.gate_members.contains((all[j], id)));
                }
            }
            assert(out@ =~= wanted);
        }
        out
    }

    /// Blocks or opens gates, without the items under them.
    fn flip_gates(&mut self, keys: &Vec<String>, blocked: bool)
        ensures
            final(self)@ == (Model {
                blocked_gates: gates_after(old(self)@.blocked_gates, texts(keys@), blocked),
                ..old(self)@
            }),
    {
        let ghost start = self@;
        let ghost all = texts(keys@);
        let mut i: usize = 0;
        assert(all.take(0).to_set() =~= Set::<Seq<char>>::empty());
        assert(gates_after(start.blocked_gates, all.take(0), blocked) =~= start.blocked_gates);
        while i < keys.len()
            invariant
                i <= keys@.len(),
                all == texts(keys@),
                self@ == (Model {
                    blocked_gates: gates_after(start.blocked_gates, all.take(i as int), blocked),
                    ..start
                }),
            decreases keys@.len() - i,
        {
            let ghost prior = self@.blocked_gates;
            if blocked {
                self.blocked_gates.insert(keys[i].clone());
            } else {
                self.blocked_gates.remove(&keys[i]);
            }
            proof {
                let a = all.take(i as int);
                let b = all.take(i as int + 1);
                assert(b =~= a.push(all[i as int]));
                assert(all[i as int] == keys@[i as int]@);
                assert forall|x: Seq<char>| b.contains(x) == (a.contains(x) || x == all[i as int]) by {
                    if a.contains(x) {
                        let j = choose|j: int| 0 <= j < a.len() && a[j] == x;
                        assert(b[j] == x);
                    }
                    assert(b[i as int] == all[i as int]);
                    if b.contains(x) {
                        let j = choose|j: int| 0 <= j < b.len() && b[j] == x;
                        if j < i {
                            assert(a[j] == x);
                        }
                    }
                }
                assert(self@.blocked_gates =~= gates_after(start.blocked_gates, b, blocked));
            }
            i = i + 1;
        }
        assert(all.take(i as int) =~= all);
    }

    pub(crate) fn apply_gate_change(&mut self, keys: &Vec<String>, blocked: bool) -> (r:
        EngineResult<()>)
        ensures
            (final(self)@, outcome(r)) == gates_changed(old(self)@, texts(keys@), blocked),
    {
        let ghost m = self@;
        let ids = self.affected(keys);
        let n = ids.len();
        let ghost all = listing_of::<u64>(under_gates(m, texts(keys@)));
        assert(all == ids.listing());
        let mut was: Vec<bool> = Vec::new();
        let mut k: usize = 0;
        while k < n
            invariant
                k <= n,
                n == all.len(),
                all == ids.listing(),
                m == self@,
                was@.len() == k,
                forall|j: int|
                    0 <= j < k ==> m.items.contains_key(#[trigger] all[j]) ==> was@[j] == gated(
                        m.blocked_gates,
                        m.items[all[j]].gate_keys,
                    ),
            decreases n - k,
        {
            let b = match self.record(*ids.at(k)) {
                Some(rec) => gate_keys_blocked(&self.blocked_gates, &rec.gate_keys),
                None => false,
            };
            was.push(b);
            k = k + 1;
        }
        self.flip_gates(keys, blocked);
        let ghost f = gate_settle(m.blocked_gates);
        let ghost start = self@;
        let mut i: usize = 0;
        assert(all.skip(0) =~= all);
        while i < n
            invariant
                i <= n,
                n == all.len(),
                all == ids.listing(),
                was@.len() == n,
                m == old(self)@,
                f == gate_settle(m.blocked_gates),
                self@ == (Model { eligible: self@.eligible, compact: self@.compact, ..start }),
                start.items == m.items,
                start == (Model {
                    blocked_gates: gates_after(m.blocked_gates, texts(keys@), blocked),
                    ..m
                }),
                all == listing_of::<u64>(under_gates(m, texts(keys@))),
                forall|j: int|
                    0 <= j < n ==> m.items.contains_key(#[trigger] all[j]) ==> was@[j] == gated(
                        m.blocked_gates,
                        m.items[all[j]].gate_keys,
                    ),
                run(self@, all.skip(i as int), f) == run(start, all, f),
            decreases n - i,
        {
            let id = *ids.at(i);
            proof {
                assert(all.skip(i as int)[0] == id);
                assert(all.skip(i as int).drop_first() =~= all.skip(i as int + 1));
                assert(all[i as int] == id);
            }
            let change = match self.record(id) {
                Some(rec) => match rec.state {
                    ItemState::Pending => if rec.superseded {
                        None
                    } else {
                        let now = gate_keys_blocked(&self.blocked_gates, &rec.gate_keys);
                        if was[i] != now {
                            Some((elig_key(rec, &self.priority_model), now))
                        } else {
                            None
                        }
                    },
                    _ => None,
                },
                None => None,
            };
            match change {
                Some((key, now)) => {
                    if now {
                        self.eligible.remove(&key);
                    } else {
                        self.eligible.insert(key);
                    }
                },
                None => {},
            }
            i = i + 1;
        }
        assert(all.skip(i as int) =~= Seq::<ItemId>::empty());
        Ok(())
    }

    fn change_gates(&mut self, changes: &Vec<GateChange>) -> (r: EngineResult<()>)
        ensures
            (final(self)@, outcome(r)) == run(old(self)@, changes@, gate_each()),
    {
        let ghost f = gate_each();
        let ghost start = self@;
        let ghost all = changes@;
        let mut i: usize = 0;
        assert(all.skip(0) =~= all);
        while i < changes.len()
            invariant
                i <= changes@.len(),
                all == changes@,
                start == old(self)@,
                f == gate_each(),
                run(self@, all.skip(i as int), f) == run(start, all, f),
            decreases changes@.len() - i,
        {
            proof {
                assert(all.skip(i as int)[0] == changes@[i as int]);
                assert(all.skip(i as int).drop_first() =~= all.skip(i as int + 1));
            }
            match self.apply_gate_change(&changes[i].gate_keys, changes[i].blocked) {
                Ok(_) => {},
                Err(e) => {
                    return Err(e);
                },
            }
            i = i + 1;
        }
        assert(all.skip(i as int) =~= Seq::<GateChange>::empty());
        Ok(())
    }
}

fn release_record(rec: ItemRecord) -> (r: ItemRecord)
    ensures
        r@ == released_item(rec@),
{
    let mut rec = rec;
    rec.lease_token = None;
    rec.lease_expires_at = None;
    rec.lease_is_cohort = false;
    rec.fenced = false;
    rec
}

fn reschedule_record(rec: ItemRecord, o: &FinalizeOutcome, at: Option<UtcTimestamp>) -> (r:
    ItemRecord)
    ensures
        r@ == rescheduled_item(rec@, *o, at),
{
    let mut rec = rec;
    if let ItemState::Pending = rec.state {
        match (o.kind, o.not_before) {
            (FinalizeKind::Rearm, nb) => {
                rec.attempt_count = 0;
                let now = match at {
                    Some(t) => t,
                    None => rec.eligible_since,
                };
                match nb {
                    Some(t) => {
                        rec.not_before = Some(t);
                        rec.eligible_since = t.later_of(now);
                    },
                    None => {
                        rec.eligible_since = now;
                    },
                }
            },
            (FinalizeKind::Retry, Some(t)) => {
                rec.not_before = Some(t);
                rec.eligible_since = t;
            },
            _ => {},
        }
    }
    rec
}

proof fn lemma_insert_counts(m: Model, p: PushV, at: Option<UtcTimestamp>, k: nat)
    requires
        counts_room(m, k),
        k >= 1,
    ensures
        counts_room(inserted(m, p, at).0, (k - 1) as nat),
{
    let i = pushed_item(p, m.next_seq, at);
    let n = announced(Model { next_seq: (m.next_seq + 1) as u64, ..m }, i);
    match index_keys(n, i.fields, i.entity) {
        Ok(keys) => {
            lemma_indexed_frame(n, i.item_id, keys);
        },
        Err(_) => {},
    }
}

impl ProjectionData {
    /// What a finalization means for an item.
    fn event_of(&self, o: &FinalizeOutcome) -> (r: EngineResult<ItemEvent>)
        ensures
            outcome(r) == final_event(self@, *o),
    {
        match o.kind {
            FinalizeKind::Complete => Ok(ItemEvent::FinalizeComplete),
            FinalizeKind::Fail => Ok(ItemEvent::FinalizeFail),
            FinalizeKind::Retry => match self.record(o.item_id) {
                None => Err(EngineError::NotFound),
                Some(rec) => if is_retry_exhausted(rec.attempt_count, rec.max_attempts) {
                    Ok(ItemEvent::FinalizeFail)
                } else {
                    Ok(ItemEvent::FinalizeRetry)
                },
            },
            FinalizeKind::Release => Ok(ItemEvent::FinalizeRelease),
            FinalizeKind::Rearm => {
                let over = match (o.not_before, self.recurrence.until, self.recurrence.mode) {
                    (Some(nb), Some(until), RecurrenceMode::Recurring) => until.before(&nb),
                    _ => false,
                };
                if over {
                    Ok(ItemEvent::FinalizeComplete)
                } else {
                    Ok(ItemEvent::FinalizeRearm)
                }
            },
        }
    }

    fn finalize_one(
        &mut self,
        o: &FinalizeOutcome,
        at: Option<UtcTimestamp>,
        pos: Option<&CommandPosition>,
    ) -> (r: EngineResult<()>)
        requires
            room_for(old(self)@, o.item_id),
        ensures
            (final(self)@, outcome(r)) == finalized(
                old(self)@,
                *o,
                at,
                match pos {
                    Some(p) => Some(p@),
                    None => None,
                },
            ),
    {
        let ghost m = self@;
        let ev = match self.event_of(o) {
            Ok(ev) => ev,
            Err(e) => {
                return Err(e);
            },
        };
        proof {
            lemma_transition_grew(
                m,
                o.item_id,
                ev,
                at,
                match pos {
                    Some(p) => Some(p@),
                    None => None,
                },
            );
        }
        match self.transition(o.item_id, ev, at, pos) {
            Ok(_) => {},
            Err(e) => {
                return Err(e);
            },
        }
        self.hand_back(o, at);
        Ok(())
    }

    /// The lease of a finalized item is given up, and it gets its next schedule.
    fn hand_back(&mut self, o: &FinalizeOutcome, at: Option<UtcTimestamp>)
        requires
            old(self)@.items.contains_key(o.item_id),
        ensures
            final(self)@ == handed_back(old(self)@, *o, at),
    {
        let ghost n = self@;
        let rec = match self.take_record(o.item_id) {
            Some(rec) => rec,
            None => {
                return;
            },
        };
        let rec = release_record(rec);
        let was_ready = self.is_ready(&rec);
        let old_key = elig_key(&rec, &self.priority_model);
        let rec = reschedule_record(rec, o, at);
        let ghost j = rec@;
        let new_key = elig_key(&rec, &self.priority_model);
        self.put_record(o.item_id, rec);
        assert(n.items.remove(o.item_id).insert(o.item_id, j) =~= n.items.insert(o.item_id, j));
        if was_ready {
            match old_key.standing(&new_key) {
                Standing::Same => {},
                _ => {
                    self.eligible.remove(&old_key);
                    self.eligible.insert(new_key);
                },
            }
        }
    }

    fn lapse_one(&mut self, id: ItemId) -> (r: EngineResult<()>)
        requires
            room_for(old(self)@, id),
        ensures
            (final(self)@, outcome(r)) == lapsed(old(self)@, id),
    {
        let ghost m = self@;
        proof {
            lemma_transition_grew(m, id, ItemEvent::LeaseExpired, None, None);
        }
        match self.transition(id, ItemEvent::LeaseExpired, None, None) {
            Ok(_) => {},
            Err(e) => {
                return Err(e);
            },
        }
        let ghost n = self@;
        let mut rec = match self.take_record(id) {
            Some(rec) => rec,
            None => {
                return Err(EngineError::NotFound);
            },
        };
        rec.lease_token = None;
        rec.lease_expires_at = None;
        rec.lease_is_cohort = false;
        let ghost j = rec@;
        self.put_record(id, rec);
        assert(n.items.remove(id).insert(id, j) =~= n.items.insert(id, j));
        Ok(())
    }

    fn cohort_fail_one(
        &mut self,
        id: ItemId,
        at: Option<UtcTimestamp>,
        pos: Option<&CommandPosition>,
    )
        requires
            room_for(old(self)@, id),
        ensures
            (final(self)@, Ok::<(), ErrorV>(())) == cohort_failed(
                old(self)@,
                id,
                at,
                match pos {
                    Some(p) => Some(p@),
                    None => None,
                },
            ),
    {
        let ghost m = self@;
        let mut rec = match self.take_record(id) {
            Some(rec) => rec,
            None => {
                return;
            },
        };
        let old_state = rec.state;
        let counts = !rec.superseded;
        if let ItemState::Pending = old_state {
            self.leave(&rec);
        }
        if let ItemState::Leased = old_state {
            let expires = if rec.lease_is_cohort {
                None
            } else {
                rec.lease_expires_at
            };
            self.unlease(id, &rec.lease_token, expires);
        }
        rec.state = ItemState::Failed;
        rec.item_version = rec.item_version + 1;
        rec.terminal_at = at;
        rec.terminal_position = clone_opt_position(pos);
        let ghost j = rec@;
        self.put_record(id, rec);
        assert(m.items.remove(id).insert(id, j) =~= m.items.insert(id, j));
        if counts {
            self.metrics_transition(old_state, ItemState::Failed);
        }
    }

    /// The live items of a group.
    pub(crate) fn group_ids(&self, group: &str) -> (r: OrdSet<u64>)
        ensures
            r@ == live_group(self@, group@),
    {
        let keys = fx_keys(&self.items);
        let mut out: OrdSet<u64> = OrdSet::new();
        let mut i: usize = 0;
        while i < keys.len()
            invariant
                i <= keys@.len(),
                keys@.to_set() == self.items@.dom(),
                forall|id: ItemId| #[trigger]
                    out@.contains(id) <==> live_group(self@, group@).contains(id) && exists|j: int|
                        0 <= j < i && #[trigger] keys@[j] == id,
            decreases keys@.len() - i,
        {
            let ghost before = out@;
            let id = keys[i];
            let live = match self.record(id) {
                Some(rec) => !rec.state.is_terminal() && match &rec.group_key {
                    Some(g) => same_text(g.as_str(), group),
                    None => false,
                },
                None => false,
            };
            assert(live == live_group(self@, group@).contains(id));
            if live {
                out.insert(id);
            }
            proof {
                assert forall|x: ItemId| #[trigger]
                    out@.contains(x) <==> live_group(self@, group@).contains(x) && exists|j: int|
                        0 <= j < i + 1 && #[trigger] keys@[j] == x by {
                    assert(before.contains(x) <==> live_group(self@, group@).contains(x)
                        && exists|j: int| 0 <= j < i && #[trigger] keys@[j] == x);
                    if exists|j: int| 0 <= j < i && #[trigger] keys@[j] == x {
                        let j = choose|j: int| 0 <= j < i && #[trigger] keys@[j] == x;
                        assert(keys@[j] == x);
                    }
                    assert(keys@[i as int] == id);
                }
            }
            i = i + 1;
        }
        proof {
            assert forall|id: ItemId| out@.contains(id) == live_group(self@, group@).contains(id) by {
                if live_group(self@, group@).contains(id) {
                    assert(keys@.to_set().contains(id));
                    let j = choose|j: int| 0 <= j < keys@.len() && keys@[j] == id;
                    assert(keys@[j] == id);
                }
            }
            assert(out@ =~= live_group(self@, group@));
        }
        out
    }

    fn cohort_expired(
        &mut self,
        group: &str,
        at: Option<UtcTimestamp>,
        pos: Option<&CommandPosition>,
    ) -> (r: EngineResult<()>)
        requires
            room(old(self)@, live_group(old(self)@, group@), live_group(old(self)@, group@).len()),
        ensures
            (final(self)@, outcome(r)) == run(
                old(self)@,
                listing_of::<u64>(live_group(old(self)@, group@)),
                cohort_fail_each(
                    at,
                    match pos {
                        Some(p) => Some(p@),
                        None => None,
                    },
                ),
            ),
    {
        let ghost pv: Option<PositionV> = match pos {
            Some(p) => Some(p@),
            None => None,
        };
        let ids = self.group_ids(group);
        let n = ids.len();
        let ghost f = cohort_fail_each(at, pv);
        let ghost start = self@;
        let ghost all = listing_of::<u64>(live_group(start, group@));
        let mut i: usize = 0;
        assert(all.skip(0) =~= all);
        while i < n
            invariant
                i <= n,
                n == all.len(),
                all == ids.listing(),
                ids@ == live_group(start, group@),
                start == old(self)@,
                all == listing_of::<u64>(live_group(start, group@)),
                pv == (match pos {
                    Some(p) => Some(p@),
                    None => None,
                }),
                f == cohort_fail_each(at, pv),
                room(self@, live_group(start, group@), (n - i) as nat),
                run(self@, all.skip(i as int), f) == run(start, all, f),
            decreases n - i,
        {
            let id = *ids.at(i);
            proof {
                assert(all.skip(i as int)[0] == id);
                assert(ids@.contains(id));
                assert(all.skip(i as int).drop_first() =~= all.skip(i as int + 1));
                assert(grew(self@, cohort_failed(self@, id, at, pv).0));
                lemma_grew_room(live_group(start, group@), self@, cohort_failed(self@, id, at, pv).0, (n - i) as nat);
            }
            self.cohort_fail_one(id, at, pos);
            i = i + 1;
        }
        assert(all.skip(i as int) =~= Seq::<ItemId>::empty());
        Ok(())
    }

    fn fence_one(&mut self, id: ItemId, on: bool) -> (r: EngineResult<()>)
        ensures
            (final(self)@, outcome(r)) == fenced(old(self)@, id, on),
    {
        let ghost m = self@;
        match self.take_record(id) {
            Some(rec) => {
                let mut rec = rec;
                rec.fenced = on;
                let ghost j = rec@;
                self.put_record(id, rec);
                assert(m.items.remove(id).insert(id, j) =~= m.items.insert(id, j));
            },
            None => {},
        }
        Ok(())
    }

    fn write_one(&mut self, r: &SideRecord) -> (out: EngineResult<()>)
        ensures
            (final(self)@, outcome(out)) == side_written(old(self)@, *r),
    {
        let ghost before = self.side_records@;
        let shared = bytes_share(&r.payload);
        self.side_records.insert(clone_bytes(&r.key), shared);
        assert(side_v(self.side_records@) =~= side_v(before).insert(r.key@, bytes_of(r.payload)));
        Ok(())
    }

    fn retire(&mut self, id: ItemId) -> (r: EngineResult<()>)
        ensures
            (final(self)@, outcome(r)) == retired(old(self)@, id),
            counts_room(old(self)@, 1) ==> counts_room(final(self)@, 1),
    {
        let ghost m = self@;
        let keys = match self.record(id) {
            None => None,
            Some(rec) => match self.record_index_keys(&rec.fields, &rec.entity_document) {
                Ok(k) => Some(k),
                Err(e) => {
                    return Err(e);
                },
            },
        };
        match (self.take_record(id), keys) {
            (Some(rec), Some(keys)) => {
                let mut rec = rec;
                let gates = share(&rec.gate_keys);
                let key = elig_key(&rec, &self.priority_model);
                let state = rec.state;
                let live = !rec.superseded;
                rec.superseded = true;
                let ghost j = rec@;
                self.put_record(id, rec);
                assert(m.items.remove(id).insert(id, j) =~= m.items.insert(id, j));
                if let ItemState::Pending = state {
                    self.eligible.remove(&key);
                }
                if live {
                    self.metrics_dec(state);
                }
                let ghost m3 = self@;
                self.index_remove_keys(id, &keys);
                proof {
                    lemma_indexed_frame(m3, id, keys_view(keys@));
                }
                let none: Vec<String> = Vec::new();
                assert(texts(none@) =~= Seq::<Seq<char>>::empty());
                self.replace_gate_memberships(id, &gates, &none);
            },
            _ => {},
        }
        Ok(())
    }

    fn replace_pending(&mut self, c: &ReplacePendingCommand, at: Option<UtcTimestamp>) -> (r:
        EngineResult<()>)
        requires
            counts_room(old(self)@, 1),
        ensures
            (final(self)@, outcome(r)) == superseded(old(self)@, *c, at),
    {
        match self.retire(c.superseded_item_id) {
            Ok(_) => {},
            Err(e) => {
                return Err(e);
            },
        }
        self.by_key.remove(c.client_item_key.as_str());
        self.insert_pending(&c.replacement, at)
    }

    fn push_all(&mut self, items: &Vec<PushItem>, at: Option<UtcTimestamp>) -> (r: EngineResult<()>)
        requires
            counts_room(old(self)@, items@.len()),
        ensures
            (final(self)@, outcome(r)) == run(old(self)@, items@, insert_each(at)),
    {
        let ghost f = insert_each(at);
        let ghost start = self@;
        let ghost all = items@;
        let mut i: usize = 0;
        assert(all.skip(0) =~= all);
        while i < items.len()
            invariant
                i <= items@.len(),
                all == items@,
                start == old(self)@,
                f == insert_each(at),
                counts_room(self@, (all.len() - i) as nat),
                run(self@, all.skip(i as int), f) == run(start, all, f),
            decreases items@.len() - i,
        {
            proof {
                assert(all.skip(i as int)[0] == items@[i as int]);
                assert(all.skip(i as int).drop_first() =~= all.skip(i as int + 1));
                lemma_insert_counts(self@, items@[i as int]@, at, (all.len() - i) as nat);
            }
            match self.insert_pending(&items[i], at) {
                Ok(_) => {},
                Err(e) => {
                    return Err(e);
                },
            }
            i = i + 1;
        }
        assert(all.skip(i as int) =~= Seq::<PushItem>::empty());
        Ok(())
    }

    fn finalize_all(
        &mut self,
        outcomes: &Vec<FinalizeOutcome>,
        at: Option<UtcTimestamp>,
        pos: Option<&CommandPosition>,
    ) -> (r: EngineResult<()>)
        requires
            room(old(self)@, settled_ids(outcomes@).to_set(), outcomes@.len()),
        ensures
            (final(self)@, outcome(r)) == run(old(self)@, outcomes@, finalize_each(at, (match pos {
                    Some(p) => Some(p@),
                    None => None,
                }))),
    {
        let ghost pv: Option<PositionV> = match pos {
            Some(p) => Some(p@),
            None => None,
        };
        let ghost f = finalize_each(at, pv);
        let ghost start = self@;
        let ghost all = outcomes@;
        let mut i: usize = 0;
        assert(all.skip(0) =~= all);
        while i < outcomes.len()
            invariant
                i <= outcomes@.len(),
                all == outcomes@,
                start == old(self)@,
                pv == (match pos {
                    Some(p) => Some(p@),
                    None => None,
                }),
                f == finalize_each(at, pv),
                room(self@, settled_ids(all).to_set(), (all.len() - i) as nat),
                run(self@, all.skip(i as int), f) == run(start, all, f),
            decreases outcomes@.len() - i,
        {
            proof {
                assert(all.skip(i as int)[0] == outcomes@[i as int]);
                assert(settled_ids(all)[i as int] == outcomes@[i as int].item_id);
                assert(settled_ids(all).to_set().contains(outcomes@[i as int].item_id));
                assert(all.skip(i as int).drop_first() =~= all.skip(i as int + 1));
                lemma_finalize_grew(self@, outcomes@[i as int], at, pv);
                lemma_grew_room(
                    settled_ids(all).to_set(),
                    self@,
                    finalized(self@, outcomes@[i as int], at, pv).0,
                    (all.len() - i) as nat,
                );
            }
            match self.finalize_one(&outcomes[i], at, pos) {
                Ok(_) => {},
                Err(e) => {
                    return Err(e);
                },
            }
            i = i + 1;
        }
        assert(all.skip(i as int) =~= Seq::<FinalizeOutcome>::empty());
        Ok(())
    }

    fn lapse_all(&mut self, ids: &Vec<ItemId>) -> (r: EngineResult<()>)
        requires
            room(old(self)@, ids@.to_set(), ids@.len()),
        ensures
            (final(self)@, outcome(r)) == run(old(self)@, ids@, lapse_each()),
    {
        let ghost f = lapse_each();
        let ghost start = self@;
        let ghost all = ids@;
        let mut i: usize = 0;
        assert(all.skip(0) =~= all);
        while i < ids.len()
            invariant
                i <= ids@.len(),
                all == ids@,
                start == old(self)@,
                f == lapse_each(),
                room(self@, all.to_set(), (all.len() - i) as nat),
                run(self@, all.skip(i as int), f) == run(start, all, f),
            decreases ids@.len() - i,
        {
            proof {
                assert(all.skip(i as int)[0] == ids@[i as int]);
                assert(all.to_set().contains(ids@[i as int]));
                assert(all.skip(i as int).drop_first() =~= all.skip(i as int + 1));
                lemma_lapse_grew(self@, ids@[i as int]);
                lemma_grew_room(all.to_set(), self@, lapsed(self@, ids@[i as int]).0, (all.len() - i) as nat);
            }
            match self.lapse_one(ids[i]) {
                Ok(_) => {},
                Err(e) => {
                    return Err(e);
                },
            }
            i = i + 1;
        }
        assert(all.skip(i as int) =~= Seq::<ItemId>::empty());
        Ok(())
    }

    fn fence_all(&mut self, ids: &Vec<ItemId>, on: bool) -> (r: EngineResult<()>)
        ensures
            (final(self)@, outcome(r)) == run(old(self)@, ids@, fence_each(on)),
    {
        let ghost f = fence_each(on);
        let ghost start = self@;
        let ghost all = ids@;
        let mut i: usize = 0;
        assert(all.skip(0) =~= all);
        while i < ids.len()
            invariant
                i <= ids@.len(),
                all == ids@,
                start == old(self)@,
                f == fence_each(on),
                run(self@, all.skip(i as int), f) == run(start, all, f),
            decreases ids@.len() - i,
        {
            proof {
                assert(all.skip(i as int)[0] == ids@[i as int]);
                assert(all.to_set().contains(ids@[i as int]));
                assert(all.skip(i as int).drop_first() =~= all.skip(i as int + 1));
            }
            match self.fence_one(ids[i], on) {
                Ok(_) => {},
                Err(e) => {
                    return Err(e);
                },
            }
            i = i + 1;
        }
        assert(all.skip(i as int) =~= Seq::<ItemId>::empty());
        Ok(())
    }

    fn write_all(&mut self, records: &Vec<SideRecord>) -> (r: EngineResult<()>)
        ensures
            (final(self)@, outcome(r)) == run(old(self)@, records@, side_each()),
    {
        let ghost f = side_each();
        let ghost start = self@;
        let ghost all = records@;
        let mut i: usize = 0;
        assert(all.skip(0) =~= all);
        while i < records.len()
            invariant
                i <= records@.len(),
                all == records@,
                start == old(self)@,
                f == side_each(),
                run(self@, all.skip(i as int), f) == run(start, all, f),
            decreases records@.len() - i,
        {
            proof {
                assert(all.skip(i as int)[0] == records@[i as int]);
                assert(all.skip(i as int).drop_first() =~= all.skip(i as int + 1));
            }
            match self.write_one(&records[i]) {
                Ok(_) => {},
                Err(e) => {
                    return Err(e);
                },
            }
            i = i + 1;
        }
        assert(all.skip(i as int) =~= Seq::<SideRecord>::empty());
        Ok(())
    }

    fn purge_all(&mut self, ids: &Vec<ItemId>) -> (r: EngineResult<()>)
        ensures
            (final(self)@, outcome(r)) == run(old(self)@, ids@, purge_each()),
    {
        let ghost f = purge_each();
        let ghost start = self@;
        let ghost all = ids@;
        let mut i: usize = 0;
        assert(all.skip(0) =~= all);
        while i < ids.len()
            invariant
                i <= ids@.len(),
                all == ids@,
                start == old(self)@,
                f == purge_each(),
                run(self@, all.skip(i as int), f) == run(start, all, f),
            decreases ids@.len() - i,
        {
            proof {
                assert(all.skip(i as int)[0] == ids@[i as int]);
                assert(all.to_set().contains(ids@[i as int]));
                assert(all.skip(i as int).drop_first() =~= all.skip(i as int + 1));
            }
            match self.purge_one(ids[i]) {
                Ok(_) => {},
                Err(e) => {
                    return Err(e);
                },
            }
            i = i + 1;
        }
        assert(all.skip(i as int) =~= Seq::<ItemId>::empty());
        Ok(())
    }

    /// Applies a committed command without a time or place in the log.
    pub fn apply_command(&mut self, cmd: &QueueCommand) -> (r: EngineResult<()>)
        requires
            fits(old(self)@, *cmd),
        ensures
            (final(self)@, outcome(r)) == applied(old(self)@, None, None, *cmd),
    {
        self.apply_command_at(None, None, cmd)
    }

    /// Applies a committed command. `at` is when it was made, `pos` where it stands in the log. What
    /// was done before a failure stays.
    pub fn apply_command_at(
        &mut self,
        at: Option<UtcTimestamp>,
        pos: Option<&CommandPosition>,
        cmd: &QueueCommand,
    ) -> (r: EngineResult<()>)
        requires
            fits(old(self)@, *cmd),
        ensures
            (final(self)@, outcome(r)) == applied(
                old(self)@,
                at,
                match pos {
                    Some(p) => Some(p@),
                    None => None,
                },
                *cmd,
            ),
    {
        match cmd {
            QueueCommand::CreateQueue => Ok(()),
            QueueCommand::Push(items) => self.push_all(items, at),
            QueueCommand::Claim(c) => self.claim_all(
                &c.item_ids,
                &c.lease_token,
                c.lease_expires_at,
                &c.worker_id,
                false,
            ),
            QueueCommand::CohortClaim(c) => self.claim_all(
                &c.item_ids,
                &c.lease_token,
                c.lease_expires_at,
                &None,
                true,
            ),
            QueueCommand::RenewLease(c) => self.renew_all(&c.item_ids, c.lease_expires_at),
            QueueCommand::CohortRenewLease(_) => Ok(()),
            QueueCommand::ReassignLease(c) => self.reassign_all(
                &c.item_ids,
                &c.lease_token,
                c.lease_expires_at,
            ),
            QueueCommand::UpdateFields(c) => self.update_one(c, at),
            QueueCommand::UpdateFieldsBatch(cs) => self.update_all(cs, at),
            QueueCommand::MutateItems(c) => match self.mutate_all(&c.items, at, pos) {
                Ok(_) => self.change_gates(&c.gate_changes),
                Err(e) => Err(e),
            },
            QueueCommand::Finalize(outcomes) => self.finalize_all(outcomes, at, pos),
            QueueCommand::CohortFinalize(_) => Ok(()),
            QueueCommand::ReplacePending(c) => self.replace_pending(c, at),
            QueueCommand::LeaseExpired(ids) => self.lapse_all(ids),
            QueueCommand::CohortExpired(group) => self.cohort_expired(group.as_str(), at, pos),
            QueueCommand::FenceLease(ids) => self.fence_all(ids, true),
            QueueCommand::UnfenceLease(ids) => self.fence_all(ids, false),
            QueueCommand::PauseQueue(drain) => {
                self.paused = true;
                self.pause_drain_intake = *drain;
                Ok(())
            },
            QueueCommand::ResumeQueue => {
                self.paused = false;
                self.pause_drain_intake = false;
                Ok(())
            },
            QueueCommand::SetGates(g) => self.apply_gate_change(&g.gate_keys, g.blocked),
            QueueCommand::WriteSideRecords(records) => self.write_all(records),
            QueueCommand::AdvanceInstanceFence(c) => {
                self.instance_fences.insert(clone_bytes(&c.instance_key), c.next);
                Ok(())
            },
            QueueCommand::PurgeItems(c) => self.purge_all(&c.item_ids),
        }
    }
}

} // verus!
