//! The order to claim in, through every command.

use crate::apply::lemma_indexed_frame;
use crate::consistency::{gates_known, lemma_gates_changed, lemma_gates_joined, lemma_gates_kept, lemma_gates_left, lemma_gates_places, lemma_places_gone, lemma_places_move, placed, run_valid, stands};
use crate::eligibility::{EligV, key_of};
use crate::item::{Item, PushV, pushed_item};
use crate::model::{Model, Step, announced, applied, claim_each, claimed, cohort_fail_each, cohort_failed, ends_lease, fence_each, fenced, final_event, finalize_each, finalized, gate_each, gates_joined, handed_back, index_keys, insert_each, inserted, lacking, lapse_each, lapsed, leave_if, live_group, moved, moves_place, mutate_each, purge_each, purged, put, ready, reassign_each, reassigned, regated, released_item, renew_each, renewed, replaced, replaced_item, rescheduled_item, run, side_each, superseded, transitioned, uncounted, unindexed, unleased, update_each, updated, updated_entity, updated_fields, updated_item, values_keys, withdrawn};
use crate::order::listing_of;
use crate::text::{opt_text, texts};
use crate::types::{FinalizeOutcome, GateChange, ItemEvent, ItemId, PositionV, PushItem, QueueCommand, ReplacePendingCommand, ResolvedItemMutation, ResolvedItemMutationAction, ResolvedItemValues, SideRecord, UpdateFieldsCommand, UtcTimestamp, next_state};
use vstd::prelude::*;

verus! {

/// The item is new to the queue.
pub open spec fn is_new() -> spec_fn(Model, PushItem) -> bool {
    |m: Model, p: PushItem| !m.items.contains_key(p@.item_id)
}

/// Nothing has replaced the item.
pub open spec fn is_live() -> spec_fn(Model, UpdateFieldsCommand) -> bool {
    |m: Model, c: UpdateFieldsCommand|
        m.items.contains_key(c.item_id) ==> !m.items[c.item_id].superseded
}

/// What the order to claim in asks of a command: that no item is pushed that is there already, and none
/// updated that was replaced.
pub open spec fn orderly(m: Model, at: Option<UtcTimestamp>, cmd: QueueCommand) -> bool {
    match cmd {
        QueueCommand::Push(items) => run_valid(m, items@, insert_each(at), is_new()),
        QueueCommand::UpdateFields(c) => is_live()(m, c),
        QueueCommand::UpdateFieldsBatch(cs) => run_valid(m, cs@, update_each(at), is_live()),
        QueueCommand::ReplacePending(c) => is_new()(m, c.replacement),
        _ => true,
    }
}

proof fn lemma_run_places<A>(
    m: Model,
    list: Seq<A>,
    f: spec_fn(Model, A) -> Step,
    v: spec_fn(Model, A) -> bool,
)
    requires
        placed(m),
        run_valid(m, list, f, v),
        run(m, list, f).1 is Ok,
        forall|n: Model, a: A|
            placed(n) && v(n, a) && (#[trigger] f(n, a)).1 is Ok ==> placed(f(n, a).0),
    ensures
        placed(run(m, list, f).0),
    decreases list.len(),
{
    if list.len() > 0 {
        assert(f(m, list[0]).1 is Ok);
        lemma_run_places(f(m, list[0]).0, list.drop_first(), f, v);
    }
}

proof fn lemma_any_run_places<A>(m: Model, list: Seq<A>, f: spec_fn(Model, A) -> Step)
    requires
        placed(m),
        run(m, list, f).1 is Ok,
        forall|n: Model, a: A|
            placed(n) && (#[trigger] f(n, a)).1 is Ok ==> placed(f(n, a).0),
    ensures
        placed(run(m, list, f).0),
    decreases list.len(),
{
    if list.len() > 0 {
        assert(f(m, list[0]).1 is Ok);
        lemma_any_run_places(f(m, list[0]).0, list.drop_first(), f);
    }
}

proof fn lemma_insert_places(m: Model, p: PushV, at: Option<UtcTimestamp>)
    requires
        placed(m),
        !m.items.contains_key(p.item_id),
        inserted(m, p, at).1 is Ok,
    ensures
        placed(inserted(m, p, at).0),
{
    let i = pushed_item(p, m.next_seq, at);
    let id = p.item_id;
    let a = announced(Model { next_seq: (m.next_seq + 1) as u64, ..m }, i);
    let keys = index_keys(a, i.fields, i.entity)->Ok_0;
    let n = inserted(m, p, at).0;
    lemma_indexed_frame(a, id, keys);
    lemma_places_move(m, n, id, i, i, false, ready(m, i));
    lemma_gates_joined(m, id, i.gate_keys);
    assert(gates_joined(m, id, i.gate_keys).gate_members =~= n.gate_members);
    assert(gates_known(n)) by {
        assert forall|x: ItemId, k: Seq<char>|
            n.items.contains_key(x) && !n.items[x].superseded && #[trigger]
            n.items[x].gate_keys.contains(k) implies n.gate_members.contains((k, x)) by {
            if x != id {
                assert(m.items[x].gate_keys.contains(k));
            }
        }
    }
}

/// One item changes otherwise than in what its place and its gates rest on.
proof fn lemma_same_place(m: Model, n: Model, id: ItemId)
    requires
        placed(m),
        m.items.contains_key(id),
        n.items.contains_key(id),
        n.items == m.items.insert(id, n.items[id]),
        n.items[id].item_id == id,
        n.items[id].gate_keys == m.items[id].gate_keys,
        n.items[id].superseded == m.items[id].superseded,
        n.items[id].state == m.items[id].state,
        key_of(n.items[id], m.priority_model) == key_of(m.items[id], m.priority_model),
        n.blocked_gates == m.blocked_gates,
        n.priority_model == m.priority_model,
        n.eligible == m.eligible,
        n.compact == m.compact,
        n.gate_members == m.gate_members,
    ensures
        placed(n),
{
    lemma_places_move(m, n, id, m.items[id], n.items[id], false, false);
    lemma_gates_kept(m, n, id);
}

proof fn lemma_transition_places(
    m: Model,
    id: ItemId,
    ev: ItemEvent,
    at: Option<UtcTimestamp>,
    pos: Option<PositionV>,
)
    requires
        placed(m),
        transitioned(m, id, ev, at, pos).1 is Ok,
    ensures
        ({
            let n = transitioned(m, id, ev, at, pos).0;
            &&& placed(n)
            &&& n.items.contains_key(id)
        }),
{
    let i = m.items[id];
    let state = next_state(i.state, ev)->Some_0;
    let j = moved(i, state, at, pos);
    let n = transitioned(m, id, ev, at, pos).0;
    lemma_places_move(m, n, id, i, j, ready(m, i), ready(m, j));
    lemma_gates_kept(m, n, id);
}

proof fn lemma_claim_places(
    m: Model,
    id: ItemId,
    token: Seq<char>,
    expires: UtcTimestamp,
    worker: Option<Seq<char>>,
    cohort: bool,
)
    requires
        placed(m),
        claimed(m, id, token, expires, worker, cohort).1 is Ok,
    ensures
        placed(claimed(m, id, token, expires, worker, cohort).0),
{
    lemma_transition_places(m, id, ItemEvent::Claim, None, None);
    let n = transitioned(m, id, ItemEvent::Claim, None, None).0;
    lemma_same_place(n, claimed(m, id, token, expires, worker, cohort).0, id);
}

proof fn lemma_lapse_places(m: Model, id: ItemId)
    requires
        placed(m),
        lapsed(m, id).1 is Ok,
    ensures
        placed(lapsed(m, id).0),
{
    lemma_transition_places(m, id, ItemEvent::LeaseExpired, None, None);
    lemma_same_place(
        transitioned(m, id, ItemEvent::LeaseExpired, None, None).0,
        lapsed(m, id).0,
        id,
    );
}

proof fn lemma_finalize_places(
    m: Model,
    out: FinalizeOutcome,
    at: Option<UtcTimestamp>,
    pos: Option<PositionV>,
)
    requires
        placed(m),
        finalized(m, out, at, pos).1 is Ok,
    ensures
        placed(finalized(m, out, at, pos).0),
{
    let id = out.item_id;
    let ev = final_event(m, out)->Ok_0;
    lemma_transition_places(m, id, ev, at, pos);
    let n = transitioned(m, id, ev, at, pos).0;
    let i = released_item(n.items[id]);
    let j = rescheduled_item(i, out, at);
    let o = handed_back(n, out, at);
    let rekey = ready(n, i) && key_of(i, n.priority_model) != key_of(j, n.priority_model);
    let n1 = put(n, id, i);
    lemma_places_move(n, n1, id, n.items[id], i, false, false);
    assert(n1.items.insert(id, j) =~= o.items);
    lemma_places_move(n1, o, id, i, j, rekey, rekey);
    lemma_gates_kept(n, o, id);
}

proof fn lemma_update_places(m: Model, c: UpdateFieldsCommand, at: Option<UtcTimestamp>)
    requires
        placed(m),
        m.items.contains_key(c.item_id) ==> !m.items[c.item_id].superseded,
        updated(m, c, at).1 is Ok,
    ensures
        placed(updated(m, c, at).0),
{
    let id = c.item_id;
    let i = m.items[id];
    let j = updated_item(i, c, at);
    let n = updated(m, c, at).0;
    let a = index_keys(m, i.fields, i.entity)->Ok_0;
    let b = index_keys(m, updated_fields(i, c), updated_entity(i, c))->Ok_0;
    let m0 = put(m, id, j);
    lemma_indexed_frame(m0, id, lacking(a, b));
    lemma_indexed_frame(unindexed(m0, id, lacking(a, b)), id, lacking(b, a));
    lemma_places_move(
        m,
        n,
        id,
        i,
        j,
        moves_place(c) && ready(m, i),
        moves_place(c) && ready(m, j),
    );
    lemma_gates_changed(m, n, id);
}

proof fn lemma_purge_places(m: Model, id: ItemId)
    requires
        placed(m),
        purged(m, id).1 is Ok,
    ensures
        placed(purged(m, id).0),
{
    if m.items.contains_key(id) {
        let i = m.items[id];
        let m0 = Model { items: m.items.remove(id), ..m };
        let n = purged(m, id).0;
        let m1 = if i.superseded {
            m0
        } else {
            Model { metrics: uncounted(m0.metrics, i.state), ..m0 }
        };
        let m2 = match i.explicit_key {
            Some(k) => Model { by_key: m1.by_key.remove(k), ..m1 },
            None => m1,
        };
        let m3 = regated(m2, id, i.gate_keys, Seq::empty());
        let m4 = leave_if(m3, i.state is Pending, i);
        let m5 = if i.state is Leased {
            unleased(m4, id, i.lease_token, i.lease_expires_at)
        } else {
            m4
        };
        let keys = index_keys(m5, i.fields, i.entity)->Ok_0;
        lemma_indexed_frame(m5, id, keys);
        lemma_places_gone(m, n, id, i.state is Pending);
        lemma_gates_left(m, n, id, i.gate_keys);
    }
}

proof fn lemma_replace_places(
    m: Model,
    id: ItemId,
    v: ResolvedItemValues,
    at: Option<UtcTimestamp>,
    pos: Option<PositionV>,
)
    requires
        placed(m),
        replaced(m, id, v, at, pos).1 is Ok,
    ensures
        placed(replaced(m, id, v, at, pos).0),
{
    if m.items.contains_key(id) {
        let i = m.items[id];
        let ends = ends_lease(i, v);
        let w = withdrawn(m, id, i, ends);
        let j = replaced_item(i, v, ends, at, pos);
        let n = replaced(m, id, v, at, pos).0;
        let a = index_keys(m, i.fields, i.entity)->Ok_0;
        let b = values_keys(w, v)->Ok_0;
        let m0 = put(w, id, j);
        lemma_indexed_frame(m0, id, lacking(a, b));
        lemma_indexed_frame(unindexed(m0, id, lacking(a, b)), id, lacking(b, a));
        lemma_places_move(
            m,
            n,
            id,
            i,
            j,
            ready(m, i) && !i.superseded,
            ready(m, j) && !j.superseded,
        );
        lemma_gates_changed(m, n, id);
    }
}

proof fn lemma_cohort_places(
    m: Model,
    id: ItemId,
    at: Option<UtcTimestamp>,
    pos: Option<PositionV>,
)
    requires
        placed(m),
    ensures
        placed(cohort_failed(m, id, at, pos).0),
{
    if m.items.contains_key(id) {
        let n = cohort_failed(m, id, at, pos).0;
        let (i, j) = (m.items[id], n.items[id]);
        lemma_places_move(m, n, id, i, j, i.state is Pending, false);
        lemma_gates_kept(m, n, id);
    }
}

proof fn lemma_supersede_places(m: Model, c: ReplacePendingCommand, at: Option<UtcTimestamp>)
    requires
        placed(m),
        !m.items.contains_key(c.replacement@.item_id),
        superseded(m, c, at).1 is Ok,
    ensures
        placed(superseded(m, c, at).0),
{
    let id = c.superseded_item_id;
    if m.items.contains_key(id) {
        let i = m.items[id];
        let j = Item { superseded: true, ..i };
        let keys = index_keys(m, i.fields, i.entity)->Ok_0;
        let m1 = put(m, id, j);
        let m2 = leave_if(m1, i.state is Pending, i);
        let m3 = if i.superseded {
            m2
        } else {
            Model { metrics: uncounted(m2.metrics, i.state), ..m2 }
        };
        lemma_indexed_frame(m3, id, keys);
        let m4 = regated(unindexed(m3, id, keys), id, i.gate_keys, Seq::empty());
        let n = Model { by_key: m4.by_key.remove(c.client_item_key@), ..m4 };
        lemma_places_move(m, n, id, i, j, i.state is Pending, false);
        lemma_gates_left(m, n, id, i.gate_keys);
        lemma_insert_places(n, c.replacement@, at);
    } else {
        let n = Model { by_key: m.by_key.remove(c.client_item_key@), ..m };
        lemma_insert_places(n, c.replacement@, at);
    }
}

/// Nothing that the order rests on has changed.
proof fn lemma_same_order(m: Model, n: Model)
    requires
        placed(m),
        n.items == m.items,
        n.eligible == m.eligible,
        n.compact == m.compact,
        n.priority_model == m.priority_model,
        n.blocked_gates == m.blocked_gates,
        n.gate_members == m.gate_members,
    ensures
        placed(n),
{
    assert forall|id: ItemId| #[trigger]
        n.items.contains_key(id) && stands(n, n.items[id]) implies n.eligible.contains(
        key_of(n.items[id], n.priority_model),
    ) by {
        assert(m.items.contains_key(id) && stands(m, m.items[id]));
    }
    assert forall|k: EligV| #[trigger]
        n.eligible.contains(k) implies n.items.contains_key(k.item) && stands(
        n,
        n.items[k.item],
    ) && key_of(n.items[k.item], n.priority_model) == k by {
        assert(m.eligible.contains(k));
    }
}

/// The commands on leases.
proof fn lemma_lease_places(
    m: Model,
    at: Option<UtcTimestamp>,
    pos: Option<PositionV>,
    cmd: QueueCommand,
)
    requires
        placed(m),
        cmd is Claim || cmd is CohortClaim || cmd is RenewLease || cmd is ReassignLease
            || cmd is LeaseExpired || cmd is CohortExpired || cmd is FenceLease || cmd is UnfenceLease
            || cmd is Finalize,
        applied(m, at, pos, cmd).1 is Ok,
    ensures
        placed(applied(m, at, pos, cmd).0),
{
    match cmd {
        QueueCommand::Claim(c) => {
            let w = opt_text(c.worker_id);
            let f = claim_each(c.lease_token@, c.lease_expires_at, w, false);
            assert forall|n: Model, a: ItemId| placed(n) && (#[trigger] f(n, a)).1 is Ok implies placed(
                f(n, a).0,
            ) by {
                lemma_claim_places(n, a, c.lease_token@, c.lease_expires_at, w, false);
            }
            lemma_any_run_places(m, c.item_ids@, f);
        },
        QueueCommand::CohortClaim(c) => {
            let f = claim_each(c.lease_token@, c.lease_expires_at, None, true);
            assert forall|n: Model, a: ItemId| placed(n) && (#[trigger] f(n, a)).1 is Ok implies placed(
                f(n, a).0,
            ) by {
                lemma_claim_places(n, a, c.lease_token@, c.lease_expires_at, None, true);
            }
            lemma_any_run_places(m, c.item_ids@, f);
        },
        QueueCommand::RenewLease(c) => {
            let f = renew_each(c.lease_expires_at);
            assert forall|n: Model, a: ItemId| placed(n) && (#[trigger] f(n, a)).1 is Ok implies placed(
                f(n, a).0,
            ) by {
                lemma_same_place(n, renewed(n, a, c.lease_expires_at).0, a);
            }
            lemma_any_run_places(m, c.item_ids@, f);
        },
        QueueCommand::ReassignLease(c) => {
            let f = reassign_each(c.lease_token@, c.lease_expires_at);
            assert forall|n: Model, a: ItemId| placed(n) && (#[trigger] f(n, a)).1 is Ok implies placed(
                f(n, a).0,
            ) by {
                lemma_same_place(n, reassigned(n, a, c.lease_token@, c.lease_expires_at).0, a);
            }
            lemma_any_run_places(m, c.item_ids@, f);
        },
        QueueCommand::LeaseExpired(ids) => {
            let f = lapse_each();
            assert forall|n: Model, a: ItemId| placed(n) && (#[trigger] f(n, a)).1 is Ok implies placed(
                f(n, a).0,
            ) by {
                lemma_lapse_places(n, a);
            }
            lemma_any_run_places(m, ids@, f);
        },
        QueueCommand::CohortExpired(group) => {
            let f = cohort_fail_each(at, pos);
            assert forall|n: Model, a: ItemId| placed(n) && (#[trigger] f(n, a)).1 is Ok implies placed(
                f(n, a).0,
            ) by {
                lemma_cohort_places(n, a, at, pos);
            }
            lemma_any_run_places(m, listing_of::<u64>(live_group(m, group@)), f);
        },
        QueueCommand::FenceLease(ids) => {
            lemma_fence_places(m, ids@, true);
        },
        QueueCommand::UnfenceLease(ids) => {
            lemma_fence_places(m, ids@, false);
        },
        QueueCommand::Finalize(os) => {
            let f = finalize_each(at, pos);
            assert forall|n: Model, a: FinalizeOutcome|
                placed(n) && (#[trigger] f(n, a)).1 is Ok implies placed(f(n, a).0) by {
                lemma_finalize_places(n, a, at, pos);
            }
            lemma_any_run_places(m, os@, f);
        },
        _ => {},
    }
}

proof fn lemma_fence_places(m: Model, ids: Seq<ItemId>, on: bool)
    requires
        placed(m),
        run(m, ids, fence_each(on)).1 is Ok,
    ensures
        placed(run(m, ids, fence_each(on)).0),
{
    let f = fence_each(on);
    assert forall|n: Model, a: ItemId| placed(n) && (#[trigger] f(n, a)).1 is Ok implies placed(
        f(n, a).0,
    ) by {
        if n.items.contains_key(a) {
            lemma_same_place(n, fenced(n, a, on).0, a);
        }
    }
    lemma_any_run_places(m, ids, f);
}

proof fn lemma_mutations_places(
    m: Model,
    list: Seq<ResolvedItemMutation>,
    at: Option<UtcTimestamp>,
    pos: Option<PositionV>,
)
    requires
        placed(m),
        run(m, list, mutate_each(at, pos)).1 is Ok,
    ensures
        placed(run(m, list, mutate_each(at, pos)).0),
{
    let f = mutate_each(at, pos);
    assert forall|n: Model, a: ResolvedItemMutation|
        placed(n) && (#[trigger] f(n, a)).1 is Ok implies placed(f(n, a).0) by {
        match a.action {
            ResolvedItemMutationAction::Purge => {
                lemma_purge_places(n, a.item_id);
            },
            ResolvedItemMutationAction::Replace(w) => {
                lemma_replace_places(n, a.item_id, w, at, pos);
            },
        }
    }
    lemma_any_run_places(m, list, f);
}

/// After every command that applies without failure the places are those of the pending items that no
/// gate holds back and none replaced, as long as no item is pushed that is there already and none is
/// updated that was replaced.
pub proof fn law_places_follow_every_command(
    m: Model,
    at: Option<UtcTimestamp>,
    pos: Option<PositionV>,
    cmd: QueueCommand,
)
    requires
        placed(m),
        orderly(m, at, cmd),
        applied(m, at, pos, cmd).1 is Ok,
    ensures
        placed(applied(m, at, pos, cmd).0),
{
    match cmd {
        QueueCommand::Push(items) => {
            let f = insert_each(at);
            let v = is_new();
            assert forall|n: Model, a: PushItem|
                placed(n) && v(n, a) && (#[trigger] f(n, a)).1 is Ok implies placed(f(n, a).0) by {
                lemma_insert_places(n, a@, at);
            }
            lemma_run_places(m, items@, f, v);
        },
        QueueCommand::UpdateFields(c) => {
            lemma_update_places(m, c, at);
        },
        QueueCommand::UpdateFieldsBatch(cs) => {
            let f = update_each(at);
            let v = is_live();
            assert forall|n: Model, a: UpdateFieldsCommand|
                placed(n) && v(n, a) && (#[trigger] f(n, a)).1 is Ok implies placed(f(n, a).0) by {
                lemma_update_places(n, a, at);
            }
            lemma_run_places(m, cs@, f, v);
        },
        QueueCommand::MutateItems(c) => {
            lemma_mutations_places(m, c.items@, at, pos);
            let g = gate_each();
            assert forall|n: Model, a: GateChange|
                placed(n) && (#[trigger] g(n, a)).1 is Ok implies placed(g(n, a).0) by {
                lemma_gates_places(n, texts(a.gate_keys@), a.blocked);
            }
            lemma_any_run_places(run(m, c.items@, mutate_each(at, pos)).0, c.gate_changes@, g);
        },
        QueueCommand::ReplacePending(c) => {
            lemma_supersede_places(m, c, at);
        },
        QueueCommand::SetGates(g) => {
            lemma_gates_places(m, texts(g.gate_keys@), g.blocked);
        },
        QueueCommand::WriteSideRecords(rs) => {
            let f = side_each();
            assert forall|n: Model, a: SideRecord|
                placed(n) && (#[trigger] f(n, a)).1 is Ok implies placed(f(n, a).0) by {
                lemma_same_order(n, f(n, a).0);
            }
            lemma_any_run_places(m, rs@, f);
        },
        QueueCommand::PurgeItems(c) => {
            let f = purge_each();
            assert forall|n: Model, a: ItemId| placed(n) && (#[trigger] f(n, a)).1 is Ok implies placed(
                f(n, a).0,
            ) by {
                lemma_purge_places(n, a);
            }
            lemma_any_run_places(m, c.item_ids@, f);
        },
        QueueCommand::CreateQueue | QueueCommand::CohortRenewLease(_) | QueueCommand::CohortFinalize(
            _,
        ) | QueueCommand::PauseQueue(_) | QueueCommand::ResumeQueue
        | QueueCommand::AdvanceInstanceFence(_) => {
            lemma_same_order(m, applied(m, at, pos, cmd).0);
        },
        _ => {
            lemma_lease_places(m, at, pos, cmd);
        },
    }
}

} // verus!
