//! The counts of a queue are those of its live items, whatever commands it has seen.

use crate::apply::{lemma_gates_frame, lemma_indexed_frame};
use crate::consistency::{counts_exact, has_room, lemma_counts_put, lemma_in_state_remove, push_valid, pushes_valid, run_valid, settles_valid};
use crate::item::{Item, PushV, pushed_item};
use crate::model::{Model, Step, announced, applied, claim_each, claimed, cohort_fail_each, cohort_failed, counts_room, ends_lease, fence_each, finalize_each, finalized, gate_each, gates_after, gates_changed, index_keys, insert_each, inserted, lacking, lapse_each, lapsed, leave_if, live_group, mutate_each, mutated, purge_each, purged, put, reassign_each, recounted_live, regated, renew_each, replaced, replaced_item, room_for, run, side_each, superseded, uncounted, under_gates, unindexed, update_each, updated, updated_entity, updated_fields, updated_item, values_keys, withdrawn};
use crate::order::listing_of;
use crate::text::{opt_text, texts};
use crate::types::{FinalizeOutcome, GateChange, ItemId, ItemState, PositionV, PushItem, QueueCommand, ReplacePendingCommand, ResolvedItemMutation, ResolvedItemMutationAction, UpdateFieldsCommand, UtcTimestamp};
use vstd::prelude::*;

verus! {

/// One item changes its state, and the counts with it.
proof fn lemma_counts_step(m: Model, n: Model, id: ItemId)
    requires
        counts_exact(m),
        counts_room(m, 1),
        m.items.contains_key(id),
        n.items == m.items.insert(id, n.items[id]),
        n.items[id].superseded == m.items[id].superseded,
        n.metrics == recounted_live(
            m.metrics,
            m.items[id].superseded,
            m.items[id].state,
            n.items[id].state,
        ),
    ensures
        counts_exact(n),
{
    lemma_counts_put(m, id, n.items[id]);
}

proof fn lemma_run_counts<A>(
    m: Model,
    list: Seq<A>,
    f: spec_fn(Model, A) -> Step,
    v: spec_fn(Model, A) -> bool,
)
    requires
        counts_exact(m),
        run_valid(m, list, f, v),
        run(m, list, f).1 is Ok,
        forall|n: Model, a: A|
            counts_exact(n) && v(n, a) && (#[trigger] f(n, a)).1 is Ok ==> counts_exact(f(n, a).0),
    ensures
        counts_exact(run(m, list, f).0),
    decreases list.len(),
{
    if list.len() > 0 {
        assert(f(m, list[0]).1 is Ok);
        lemma_run_counts(f(m, list[0]).0, list.drop_first(), f, v);
    }
}

/// A run of steps that leave the counts and the states of the items alone.
proof fn lemma_still_run<A>(m: Model, list: Seq<A>, f: spec_fn(Model, A) -> Step)
    requires
        counts_exact(m),
        forall|n: Model, a: A| counts_exact(n) ==> counts_exact((#[trigger] f(n, a)).0),
    ensures
        counts_exact(run(m, list, f).0),
    decreases list.len(),
{
    if list.len() > 0 {
        assert(counts_exact(f(m, list[0]).0));
        lemma_still_run(f(m, list[0]).0, list.drop_first(), f);
    }
}

proof fn lemma_insert_counts(m: Model, p: PushV, at: Option<UtcTimestamp>)
    requires
        counts_exact(m),
        push_valid(m, p),
        inserted(m, p, at).1 is Ok,
    ensures
        counts_exact(inserted(m, p, at).0),
{
    let i = pushed_item(p, m.next_seq, at);
    let a = announced(Model { next_seq: (m.next_seq + 1) as u64, ..m }, i);
    lemma_indexed_frame(a, i.item_id, index_keys(a, i.fields, i.entity)->Ok_0);
    lemma_counts_put(m, i.item_id, i);
}

proof fn lemma_claim_counts(
    m: Model,
    id: ItemId,
    token: Seq<char>,
    expires: UtcTimestamp,
    worker: Option<Seq<char>>,
    cohort: bool,
)
    requires
        counts_exact(m),
        room_for(m, id),
        claimed(m, id, token, expires, worker, cohort).1 is Ok,
    ensures
        counts_exact(claimed(m, id, token, expires, worker, cohort).0),
{
    let n = claimed(m, id, token, expires, worker, cohort).0;
    assert(n.items =~= m.items.insert(id, n.items[id]));
    lemma_counts_step(m, n, id);
}

proof fn lemma_lapse_counts(m: Model, id: ItemId)
    requires
        counts_exact(m),
        room_for(m, id),
        lapsed(m, id).1 is Ok,
    ensures
        counts_exact(lapsed(m, id).0),
{
    let n = lapsed(m, id).0;
    assert(n.items =~= m.items.insert(id, n.items[id]));
    lemma_counts_step(m, n, id);
}

proof fn lemma_outcome_counts(
    m: Model,
    o: FinalizeOutcome,
    at: Option<UtcTimestamp>,
    pos: Option<PositionV>,
)
    requires
        counts_exact(m),
        room_for(m, o.item_id),
        finalized(m, o, at, pos).1 is Ok,
    ensures
        counts_exact(finalized(m, o, at, pos).0),
{
    let n = finalized(m, o, at, pos).0;
    assert(n.items =~= m.items.insert(o.item_id, n.items[o.item_id]));
    lemma_counts_step(m, n, o.item_id);
}

proof fn lemma_cohort_counts(
    m: Model,
    id: ItemId,
    at: Option<UtcTimestamp>,
    pos: Option<PositionV>,
)
    requires
        counts_exact(m),
        room_for(m, id),
    ensures
        counts_exact(cohort_failed(m, id, at, pos).0),
{
    if m.items.contains_key(id) {
        let n = cohort_failed(m, id, at, pos).0;
        assert(n.items =~= m.items.insert(id, n.items[id]));
        lemma_counts_step(m, n, id);
    }
}

/// An item that keeps its state, and whether it is superseded, counts as before.
proof fn lemma_still(m: Model, n: Model, id: ItemId)
    requires
        counts_exact(m),
        m.items.contains_key(id),
        n.items == m.items.insert(id, n.items[id]),
        n.items[id].superseded == m.items[id].superseded,
        n.items[id].state == m.items[id].state,
        n.metrics == m.metrics,
    ensures
        counts_exact(n),
{
    lemma_counts_put(m, id, n.items[id]);
}

proof fn lemma_update_counts(m: Model, c: UpdateFieldsCommand, at: Option<UtcTimestamp>)
    requires
        counts_exact(m),
    ensures
        counts_exact(updated(m, c, at).0),
{
    let s = updated(m, c, at);
    let id = c.item_id;
    if s.1 is Ok {
        let i = m.items[id];
        let a = index_keys(m, i.fields, i.entity)->Ok_0;
        let b = index_keys(m, updated_fields(i, c), updated_entity(i, c))->Ok_0;
        let p = put(m, id, updated_item(i, c, at));
        lemma_indexed_frame(p, id, lacking(a, b));
        lemma_indexed_frame(unindexed(p, id, lacking(a, b)), id, lacking(b, a));
        assert(s.0.items == p.items && s.0.metrics == m.metrics);
        lemma_still(m, s.0, id);
    }
}

proof fn lemma_purge_counts(m: Model, id: ItemId)
    requires
        counts_exact(m),
    ensures
        counts_exact(purged(m, id).0),
{
    if m.items.contains_key(id) {
        let i = m.items[id];
        let n = purged(m, id).0;
        assert forall|u: Model, keys: Seq<(Seq<char>, Seq<u8>)>| (#[trigger] unindexed(
            u,
            i.item_id,
            keys,
        )).items == u.items && unindexed(u, i.item_id, keys).metrics == u.metrics by {
            lemma_indexed_frame(u, i.item_id, keys);
        }
        assert(n.items == m.items.remove(id));
        assert(n.metrics == (if i.superseded {
            m.metrics
        } else {
            uncounted(m.metrics, i.state)
        }));
        lemma_counts_put(m, id, i);
        lemma_in_state_remove(m.items, id, ItemState::Pending);
        lemma_in_state_remove(m.items, id, ItemState::Leased);
        lemma_in_state_remove(m.items, id, ItemState::Complete);
        lemma_in_state_remove(m.items, id, ItemState::Failed);
    }
}

proof fn lemma_mutation_counts(
    m: Model,
    x: ResolvedItemMutation,
    at: Option<UtcTimestamp>,
    pos: Option<PositionV>,
)
    requires
        counts_exact(m),
        counts_room(m, 1),
        mutated(m, x, at, pos).1 is Ok,
    ensures
        counts_exact(mutated(m, x, at, pos).0),
{
    let id = x.item_id;
    match x.action {
        ResolvedItemMutationAction::Purge => {
            lemma_purge_counts(m, id);
        },
        ResolvedItemMutationAction::Replace(v) => {
            let i = m.items[id];
            let a = index_keys(m, i.fields, i.entity)->Ok_0;
            let w = withdrawn(m, id, i, ends_lease(i, v));
            let b = values_keys(w, v)->Ok_0;
            let p = put(w, id, replaced_item(i, v, ends_lease(i, v), at, pos));
            lemma_indexed_frame(p, id, lacking(a, b));
            lemma_indexed_frame(unindexed(p, id, lacking(a, b)), id, lacking(b, a));
            let n = replaced(m, id, v, at, pos).0;
            assert(n.items == p.items);
            lemma_counts_step(m, n, id);
        },
    }
}

proof fn lemma_supersede_counts(m: Model, c: ReplacePendingCommand, at: Option<UtcTimestamp>)
    requires
        counts_exact(m),
        supersede_counted(m, c),
        superseded(m, c, at).1 is Ok,
    ensures
        counts_exact(superseded(m, c, at).0),
{
    let id = c.superseded_item_id;
    if m.items.contains_key(id) {
        let i = m.items[id];
        let keys = index_keys(m, i.fields, i.entity)->Ok_0;
        let m1 = put(m, id, Item { superseded: true, ..i });
        let m2 = leave_if(m1, i.state is Pending, i);
        let m3 = if i.superseded {
            m2
        } else {
            Model { metrics: uncounted(m2.metrics, i.state), ..m2 }
        };
        lemma_indexed_frame(m3, id, keys);
        let m4 = regated(unindexed(m3, id, keys), id, i.gate_keys, Seq::empty());
        let n = Model { by_key: m4.by_key.remove(c.client_item_key@), ..m4 };
        lemma_counts_put(m, id, m1.items[id]);
        assert(n.items == m1.items && n.metrics == m3.metrics);
        assert(counts_exact(n));
        lemma_insert_counts(n, c.replacement@, at);
    } else {
        lemma_insert_counts(
            Model { by_key: m.by_key.remove(c.client_item_key@), ..m },
            c.replacement@,
            at,
        );
    }
}

proof fn lemma_gates_count(m: Model, keys: Seq<Seq<char>>, blocked: bool)
    requires
        counts_exact(m),
    ensures
        counts_exact(gates_changed(m, keys, blocked).0),
{
    let n = Model { blocked_gates: gates_after(m.blocked_gates, keys, blocked), ..m };
    lemma_gates_frame(n, listing_of::<u64>(under_gates(m, keys)), m.blocked_gates);
}

/// The replacement is new, and can be counted.
pub open spec fn supersede_counted(m: Model, c: ReplacePendingCommand) -> bool {
    &&& counts_room(m, 1)
    &&& !m.items.contains_key(c.replacement@.item_id)
    &&& c.replacement@.item_id != c.superseded_item_id
}

pub open spec fn mutations_counted() -> spec_fn(Model, ResolvedItemMutation) -> bool {
    |m: Model, x: ResolvedItemMutation| counts_room(m, 1)
}

/// No item is pushed that is there already, and the counters have room.
pub open spec fn countable(
    m: Model,
    at: Option<UtcTimestamp>,
    pos: Option<PositionV>,
    cmd: QueueCommand,
) -> bool {
    match cmd {
        QueueCommand::Push(items) => run_valid(m, items@, insert_each(at), pushes_valid()),
        QueueCommand::Claim(c) => run_valid(
            m,
            c.item_ids@,
            claim_each(c.lease_token@, c.lease_expires_at, opt_text(c.worker_id), false),
            has_room(),
        ),
        QueueCommand::CohortClaim(c) => run_valid(
            m,
            c.item_ids@,
            claim_each(c.lease_token@, c.lease_expires_at, None, true),
            has_room(),
        ),
        QueueCommand::MutateItems(c) => run_valid(
            m,
            c.items@,
            mutate_each(at, pos),
            mutations_counted(),
        ),
        QueueCommand::Finalize(os) => run_valid(m, os@, finalize_each(at, pos), settles_valid()),
        QueueCommand::ReplacePending(c) => supersede_counted(m, c),
        QueueCommand::LeaseExpired(ids) => run_valid(m, ids@, lapse_each(), has_room()),
        QueueCommand::CohortExpired(group) => run_valid(
            m,
            listing_of::<u64>(live_group(m, group@)),
            cohort_fail_each(at, pos),
            has_room(),
        ),
        _ => true,
    }
}

proof fn lemma_lease_counts(m: Model, cmd: QueueCommand)
    requires
        counts_exact(m),
        cmd is RenewLease || cmd is ReassignLease || cmd is FenceLease || cmd is UnfenceLease || cmd is WriteSideRecords,
    ensures
        counts_exact(applied(m, None, None, cmd).0),
{
    match cmd {
        QueueCommand::RenewLease(c) => {
            let f = renew_each(c.lease_expires_at);
            assert forall|n: Model, a: ItemId| counts_exact(n) implies counts_exact(
                (#[trigger] f(n, a)).0,
            ) by {
                if n.items.contains_key(a) {
                    lemma_still(n, f(n, a).0, a);
                }
            }
            lemma_still_run(m, c.item_ids@, f);
        },
        QueueCommand::ReassignLease(c) => {
            let f = reassign_each(c.lease_token@, c.lease_expires_at);
            assert forall|n: Model, a: ItemId| counts_exact(n) implies counts_exact(
                (#[trigger] f(n, a)).0,
            ) by {
                if n.items.contains_key(a) {
                    lemma_still(n, f(n, a).0, a);
                }
            }
            lemma_still_run(m, c.item_ids@, f);
        },
        QueueCommand::FenceLease(ids) => {
            lemma_fence_counts(m, ids@, true);
        },
        QueueCommand::UnfenceLease(ids) => {
            lemma_fence_counts(m, ids@, false);
        },
        QueueCommand::WriteSideRecords(rs) => {
            lemma_still_run(m, rs@, side_each());
        },
        _ => {},
    }
}

proof fn lemma_fence_counts(m: Model, ids: Seq<ItemId>, on: bool)
    requires
        counts_exact(m),
    ensures
        counts_exact(run(m, ids, fence_each(on)).0),
{
    let f = fence_each(on);
    assert forall|n: Model, a: ItemId| counts_exact(n) implies counts_exact(
        (#[trigger] f(n, a)).0,
    ) by {
        if n.items.contains_key(a) {
            lemma_still(n, f(n, a).0, a);
        }
    }
    lemma_still_run(m, ids, f);
}

proof fn lemma_claims_count(
    m: Model,
    ids: Seq<ItemId>,
    token: Seq<char>,
    expires: UtcTimestamp,
    worker: Option<Seq<char>>,
    cohort: bool,
)
    requires
        counts_exact(m),
        run_valid(m, ids, claim_each(token, expires, worker, cohort), has_room()),
        run(m, ids, claim_each(token, expires, worker, cohort)).1 is Ok,
    ensures
        counts_exact(run(m, ids, claim_each(token, expires, worker, cohort)).0),
{
    let f = claim_each(token, expires, worker, cohort);
    let v = has_room();
    assert forall|n: Model, a: ItemId|
        counts_exact(n) && v(n, a) && (#[trigger] f(n, a)).1 is Ok implies counts_exact(
        f(n, a).0,
    ) by {
        lemma_claim_counts(n, a, token, expires, worker, cohort);
    }
    lemma_run_counts(m, ids, f, v);
}

/// After every command that applies without failure, each count of the queue is the number of its live
/// items in that state, and the finished ones add up, as long as no item is pushed that is there
/// already. Superseded items are left out throughout.
#[verifier::rlimit(40)]
pub proof fn law_counts_follow_every_command(
    m: Model,
    at: Option<UtcTimestamp>,
    pos: Option<PositionV>,
    cmd: QueueCommand,
)
    requires
        counts_exact(m),
        countable(m, at, pos, cmd),
        applied(m, at, pos, cmd).1 is Ok,
    ensures
        counts_exact(applied(m, at, pos, cmd).0),
{
    match cmd {
        QueueCommand::Push(items) => {
            let f = insert_each(at);
            let v = pushes_valid();
            assert forall|n: Model, a: PushItem|
                counts_exact(n) && v(n, a) && (#[trigger] f(n, a)).1 is Ok implies counts_exact(
                f(n, a).0,
            ) by {
                lemma_insert_counts(n, a@, at);
            }
            lemma_run_counts(m, items@, f, v);
        },
        QueueCommand::Claim(c) => {
            lemma_claims_count(
                m,
                c.item_ids@,
                c.lease_token@,
                c.lease_expires_at,
                opt_text(c.worker_id),
                false,
            );
        },
        QueueCommand::CohortClaim(c) => {
            lemma_claims_count(m, c.item_ids@, c.lease_token@, c.lease_expires_at, None, true);
        },
        QueueCommand::UpdateFields(c) => {
            lemma_update_counts(m, c, at);
        },
        QueueCommand::UpdateFieldsBatch(cs) => {
            let f = update_each(at);
            assert forall|n: Model, a: UpdateFieldsCommand| counts_exact(n) implies counts_exact(
                (#[trigger] f(n, a)).0,
            ) by {
                lemma_update_counts(n, a, at);
            }
            lemma_still_run(m, cs@, f);
        },
        QueueCommand::MutateItems(c) => {
            let f = mutate_each(at, pos);
            let v = mutations_counted();
            assert forall|n: Model, a: ResolvedItemMutation|
                counts_exact(n) && v(n, a) && (#[trigger] f(n, a)).1 is Ok implies counts_exact(
                f(n, a).0,
            ) by {
                lemma_mutation_counts(n, a, at, pos);
            }
            lemma_run_counts(m, c.items@, f, v);
            let g = gate_each();
            assert forall|n: Model, a: GateChange| counts_exact(n) implies counts_exact(
                (#[trigger] g(n, a)).0,
            ) by {
                lemma_gates_count(n, texts(a.gate_keys@), a.blocked);
            }
            lemma_still_run(run(m, c.items@, f).0, c.gate_changes@, g);
        },
        QueueCommand::Finalize(os) => {
            let f = finalize_each(at, pos);
            let v = settles_valid();
            assert forall|n: Model, a: FinalizeOutcome|
                counts_exact(n) && v(n, a) && (#[trigger] f(n, a)).1 is Ok implies counts_exact(
                f(n, a).0,
            ) by {
                lemma_outcome_counts(n, a, at, pos);
            }
            lemma_run_counts(m, os@, f, v);
        },
        QueueCommand::ReplacePending(c) => {
            lemma_supersede_counts(m, c, at);
        },
        QueueCommand::LeaseExpired(ids) => {
            let f = lapse_each();
            let v = has_room();
            assert forall|n: Model, a: ItemId|
                counts_exact(n) && v(n, a) && (#[trigger] f(n, a)).1 is Ok implies counts_exact(
                f(n, a).0,
            ) by {
                lemma_lapse_counts(n, a);
            }
            lemma_run_counts(m, ids@, f, v);
        },
        QueueCommand::CohortExpired(group) => {
            let f = cohort_fail_each(at, pos);
            let v = has_room();
            assert forall|n: Model, a: ItemId|
                counts_exact(n) && v(n, a) && (#[trigger] f(n, a)).1 is Ok implies counts_exact(
                f(n, a).0,
            ) by {
                lemma_cohort_counts(n, a, at, pos);
            }
            lemma_run_counts(m, listing_of::<u64>(live_group(m, group@)), f, v);
        },
        QueueCommand::SetGates(g) => {
            lemma_gates_count(m, texts(g.gate_keys@), g.blocked);
        },
        QueueCommand::PurgeItems(c) => {
            law_counts_follow_a_purge(m, c.item_ids@);
        },
        QueueCommand::RenewLease(_) => {
            lemma_lease_counts(m, cmd);
        },
        QueueCommand::ReassignLease(_) => {
            lemma_lease_counts(m, cmd);
        },
        QueueCommand::FenceLease(_) => {
            lemma_lease_counts(m, cmd);
        },
        QueueCommand::UnfenceLease(_) => {
            lemma_lease_counts(m, cmd);
        },
        QueueCommand::WriteSideRecords(_) => {
            lemma_lease_counts(m, cmd);
        },
        _ => {},
    }
}

/// The counts follow items that are taken out, by a command or because their time is up.
pub proof fn law_counts_follow_a_purge(m: Model, ids: Seq<ItemId>)
    requires
        counts_exact(m),
    ensures
        counts_exact(run(m, ids, purge_each()).0),
{
    let f = purge_each();
    assert forall|n: Model, a: ItemId| counts_exact(n) implies counts_exact(
        (#[trigger] f(n, a)).0,
    ) by {
        lemma_purge_counts(n, a);
    }
    lemma_still_run(m, ids, f);
}

} // verus!
