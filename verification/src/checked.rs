//! Commands that were checked before they were logged do not fail when they are applied.

use crate::apply::{lemma_gates_frame, lemma_indexed_frame};
use crate::consistency::consistent;
use crate::history::{law_offered_items_may_be_claimed, law_selections_name_items_once, lemma_claim_moves, lemma_finalize_moves, lemma_lapse_moves, lemma_reassign_moves, lemma_renew_moves, lemma_update_moves, moved_on};
use crate::indexing::{index_checked, preflight, push_checked};
use crate::item::{Item, PushV, pushed_item};
use crate::model::{Model, Step, announced, applied, claim_each, cohort_fail_each, ends_lease, fence_each, finalize_each, forgotten, gate_each, gates_after, gates_changed, index_keys, insert_each, inserted, lacking, lapse_each, leave_if, live_group, mutate_each, mutated, purge_each, purged, put, reassign_each, regated, renew_each, replaced, replaced_item, run, settled_ids, side_each, superseded, uncounted, under_gates, unindexed, update_each, updated, updated_entity, updated_fields, updated_item, values_keys, withdrawn};
use crate::order::{lemma_ascending_distinct, lemma_listing_exists, listing_of};
use crate::pending::run_out;
use crate::reads::{ClaimByItemIdClass, candidates, claim_class, law_checked_leases_stand, lease_fault, leases_checked, update_checked};
use crate::text::{opt_text, texts};
use crate::types::{ClaimCommand, EntityV, FinalizeOutcome, GateChange, ItemId, PositionV, PushItem, QueueCommand, ReassignLeaseCommand, RenewLeaseCommand, ReplacePendingCommand, ResolvedItemMutation, ResolvedItemMutationAction, UpdateFieldsCommand, UtcTimestamp, ts_lt};
use crate::uniqueness::law_accepted_entries_were_checked;
use vstd::prelude::*;

verus! {

/// The index keys of a document could be worked out.
pub open spec fn legible(e: Option<EntityV>) -> bool {
    match e {
        Some(d) => d.keys is Ok,
        None => true,
    }
}

/// The index keys of every item's document could be worked out.
pub open spec fn readable(m: Model) -> bool {
    forall|id: ItemId| #[trigger] m.items.contains_key(id) ==> legible(m.items[id].entity)
}

/// A run in which each step succeeds on an item as it stood at the start, and touches no other.
proof fn lemma_run_succeeds<A>(
    m: Model,
    xs: Seq<A>,
    f: spec_fn(Model, A) -> Step,
    name: spec_fn(A) -> ItemId,
    ok: spec_fn(Item) -> bool,
)
    requires
        xs.map_values(name).no_duplicates(),
        forall|k: int|
            0 <= k < xs.len() ==> m.items.contains_key(name(#[trigger] xs[k])) && ok(
                m.items[name(xs[k])],
            ),
        forall|n: Model, a: A|
            n.items.contains_key(name(a)) && ok(n.items[name(a)]) ==> (#[trigger] f(n, a)).1 is Ok
                && moved_on(n, f(n, a).0, name(a)),
    ensures
        run(m, xs, f).1 is Ok,
    decreases xs.len(),
{
    if xs.len() > 0 {
        let rest = xs.drop_first();
        let ids = xs.map_values(name);
        let n = f(m, xs[0]).0;
        assert(m.items.contains_key(name(xs[0])) && ok(m.items[name(xs[0])]));
        assert(moved_on(m, n, name(xs[0])));
        assert(rest.map_values(name) =~= ids.drop_first());
        assert forall|k: int| 0 <= k < rest.len() implies n.items.contains_key(
            name(#[trigger] rest[k]),
        ) && ok(n.items[name(rest[k])]) by {
            assert(rest[k] == xs[k + 1]);
            assert(ids[k + 1] != ids[0]);
        }
        lemma_run_succeeds(n, rest, f, name, ok);
    }
}

/// A run in which each step succeeds on an item that there is, and no item goes.
proof fn lemma_run_lasts<A>(
    m: Model,
    xs: Seq<A>,
    f: spec_fn(Model, A) -> Step,
    name: spec_fn(A) -> ItemId,
)
    requires
        forall|k: int| 0 <= k < xs.len() ==> m.items.contains_key(name(#[trigger] xs[k])),
        forall|n: Model, a: A|
            n.items.contains_key(name(a)) ==> (#[trigger] f(n, a)).1 is Ok && moved_on(
                n,
                f(n, a).0,
                name(a),
            ),
    ensures
        run(m, xs, f).1 is Ok,
    decreases xs.len(),
{
    if xs.len() > 0 {
        let rest = xs.drop_first();
        let n = f(m, xs[0]).0;
        assert(m.items.contains_key(name(xs[0])));
        assert(moved_on(m, n, name(xs[0])));
        assert forall|k: int| 0 <= k < rest.len() implies n.items.contains_key(
            name(#[trigger] rest[k]),
        ) by {
            assert(rest[k] == xs[k + 1]);
        }
        lemma_run_lasts(n, rest, f, name);
    }
}

/// Outcomes of distinct items that pass the check of their leases are applied without failure.
pub proof fn law_checked_outcomes_apply(
    m: Model,
    at: Option<UtcTimestamp>,
    pos: Option<PositionV>,
    outcomes: Vec<FinalizeOutcome>,
)
    requires
        leases_checked(m, settled_ids(outcomes@)) is Ok,
        settled_ids(outcomes@).no_duplicates(),
    ensures
        applied(m, at, pos, QueueCommand::Finalize(outcomes)).1 is Ok,
{
    let os = outcomes@;
    let f = finalize_each(at, pos);
    let name = |o: FinalizeOutcome| o.item_id;
    let ok = |i: Item| i.state is Leased && !i.superseded;
    law_checked_leases_stand(m, settled_ids(os));
    assert(os.map_values(name) =~= settled_ids(os));
    assert forall|k: int| 0 <= k < os.len() implies m.items.contains_key(name(#[trigger] os[k]))
        && ok(m.items[name(os[k])]) by {
        assert(lease_fault(m, settled_ids(os)[k]) is None);
    }
    assert forall|n: Model, a: FinalizeOutcome|
        n.items.contains_key(name(a)) && ok(n.items[name(a)]) implies (#[trigger] f(n, a)).1 is Ok
        && moved_on(n, f(n, a).0, name(a)) by {
        lemma_finalize_moves(n, a, at, pos);
    }
    lemma_run_succeeds(m, os, f, name, ok);
}

/// Leases that pass the check are renewed without failure.
pub proof fn law_checked_renewals_apply(
    m: Model,
    at: Option<UtcTimestamp>,
    pos: Option<PositionV>,
    c: RenewLeaseCommand,
)
    requires
        leases_checked(m, c.item_ids@) is Ok,
    ensures
        applied(m, at, pos, QueueCommand::RenewLease(c)).1 is Ok,
{
    let ids = c.item_ids@;
    let f = renew_each(c.lease_expires_at);
    let whole = |a: ItemId| a;
    law_checked_leases_stand(m, ids);
    assert forall|k: int| 0 <= k < ids.len() implies m.items.contains_key(
        whole(#[trigger] ids[k]),
    ) by {
        assert(lease_fault(m, ids[k]) is None);
    }
    assert forall|n: Model, a: ItemId| n.items.contains_key(whole(a)) implies (#[trigger] f(
        n,
        a,
    )).1 is Ok && moved_on(n, f(n, a).0, whole(a)) by {
        lemma_renew_moves(n, a, c.lease_expires_at);
    }
    lemma_run_lasts(m, ids, f, whole);
}

/// Leases that pass the check are reassigned without failure.
pub proof fn law_checked_reassignments_apply(
    m: Model,
    at: Option<UtcTimestamp>,
    pos: Option<PositionV>,
    c: ReassignLeaseCommand,
)
    requires
        leases_checked(m, c.item_ids@) is Ok,
    ensures
        applied(m, at, pos, QueueCommand::ReassignLease(c)).1 is Ok,
{
    let ids = c.item_ids@;
    let f = reassign_each(c.lease_token@, c.lease_expires_at);
    let whole = |a: ItemId| a;
    law_checked_leases_stand(m, ids);
    assert forall|k: int| 0 <= k < ids.len() implies m.items.contains_key(
        whole(#[trigger] ids[k]),
    ) by {
        assert(lease_fault(m, ids[k]) is None);
    }
    assert forall|n: Model, a: ItemId| n.items.contains_key(whole(a)) implies (#[trigger] f(
        n,
        a,
    )).1 is Ok && moved_on(n, f(n, a).0, whole(a)) by {
        lemma_reassign_moves(n, a, c.lease_token@, c.lease_expires_at);
    }
    lemma_run_lasts(m, ids, f, whole);
}

/// A claim of distinct items that may be claimed is applied without failure.
pub proof fn law_claimable_items_are_claimed(
    m: Model,
    now: UtcTimestamp,
    at: Option<UtcTimestamp>,
    pos: Option<PositionV>,
    c: ClaimCommand,
)
    requires
        c.item_ids@.no_duplicates(),
        forall|k: int|
            0 <= k < c.item_ids@.len() ==> claim_class(m, #[trigger] c.item_ids@[k], now)
                == ClaimByItemIdClass::Claimable,
    ensures
        applied(m, at, pos, QueueCommand::Claim(c)).1 is Ok,
{
    let ids = c.item_ids@;
    let f = claim_each(c.lease_token@, c.lease_expires_at, opt_text(c.worker_id), false);
    let whole = |a: ItemId| a;
    let ok = |i: Item| i.state is Pending && !i.superseded;
    assert(ids.map_values(whole) =~= ids);
    assert forall|k: int| 0 <= k < ids.len() implies m.items.contains_key(whole(#[trigger] ids[k]))
        && ok(m.items[whole(ids[k])]) by {
        assert(claim_class(m, c.item_ids@[k], now) == ClaimByItemIdClass::Claimable);
    }
    assert forall|n: Model, a: ItemId|
        n.items.contains_key(whole(a)) && ok(n.items[whole(a)]) implies (#[trigger] f(n, a)).1 is Ok
        && moved_on(n, f(n, a).0, whole(a)) by {
        lemma_claim_moves(
            n,
            a,
            c.lease_token@,
            c.lease_expires_at,
            opt_text(c.worker_id),
            false,
        );
    }
    lemma_run_succeeds(m, ids, f, whole, ok);
}

/// A claim of what a selection offers is applied without failure.
pub proof fn law_offered_items_are_claimed(
    m: Model,
    now: UtcTimestamp,
    max: nat,
    at: Option<UtcTimestamp>,
    pos: Option<PositionV>,
    c: ClaimCommand,
)
    requires
        consistent(m),
        c.item_ids@ == candidates(m, now, max),
    ensures
        applied(m, at, pos, QueueCommand::Claim(c)).1 is Ok,
{
    law_selections_name_items_once(m, now, max);
    assert forall|k: int| 0 <= k < c.item_ids@.len() implies claim_class(
        m,
        #[trigger] c.item_ids@[k],
        now,
    ) == ClaimByItemIdClass::Claimable by {
        assert(candidates(m, now, max).contains(c.item_ids@[k]));
        law_offered_items_may_be_claimed(m, now, max, c.item_ids@[k]);
    }
    law_claimable_items_are_claimed(m, now, at, pos, c);
}

/// The end of distinct live leases is applied without failure.
pub proof fn law_live_leases_lapse(
    m: Model,
    at: Option<UtcTimestamp>,
    pos: Option<PositionV>,
    ids: Vec<ItemId>,
)
    requires
        ids@.no_duplicates(),
        forall|k: int|
            0 <= k < ids@.len() ==> m.items.contains_key(#[trigger] ids@[k])
                && m.items[ids@[k]].state is Leased && !m.items[ids@[k]].superseded,
    ensures
        applied(m, at, pos, QueueCommand::LeaseExpired(ids)).1 is Ok,
{
    let f = lapse_each();
    let whole = |a: ItemId| a;
    let ok = |i: Item| i.state is Leased && !i.superseded;
    assert(ids@.map_values(whole) =~= ids@);
    assert forall|n: Model, a: ItemId|
        n.items.contains_key(whole(a)) && ok(n.items[whole(a)]) implies (#[trigger] f(n, a)).1 is Ok
        && moved_on(n, f(n, a).0, whole(a)) by {
        lemma_lapse_moves(n, a);
    }
    lemma_run_succeeds(m, ids@, f, whole, ok);
}

/// The leases that are reported as run out end without failure.
pub proof fn law_run_out_leases_lapse(
    m: Model,
    now: UtcTimestamp,
    at: Option<UtcTimestamp>,
    pos: Option<PositionV>,
    ids: Vec<ItemId>,
)
    requires
        consistent(m),
        m.by_expiry.finite(),
        ids@ == run_out(listing_of::<(UtcTimestamp, u64)>(m.by_expiry), now).map_values(
            |p: (UtcTimestamp, ItemId)| p.1,
        ),
    ensures
        applied(m, at, pos, QueueCommand::LeaseExpired(ids)).1 is Ok,
{
    let l = listing_of::<(UtcTimestamp, u64)>(m.by_expiry);
    lemma_listing_exists::<(UtcTimestamp, u64)>(m.by_expiry);
    lemma_ascending_distinct::<(UtcTimestamp, u64)>(l);
    lemma_run_out_is_first(l, now);
    let r = run_out(l, now);
    assert forall|k: int| 0 <= k < r.len() implies #[trigger] m.by_expiry.contains(r[k]) by {
        assert(r[k] == l[k]);
        assert(l.to_set().contains(l[k]));
    }
    assert forall|i: int, j: int| 0 <= i < ids@.len() && 0 <= j < ids@.len() && i != j implies ids@[i]
        != ids@[j] by {
        assert(m.by_expiry.contains(r[i]) && m.by_expiry.contains(r[j]));
        assert(l[i] != l[j]);
    }
    assert forall|k: int| 0 <= k < ids@.len() implies m.items.contains_key(#[trigger] ids@[k])
        && m.items[ids@[k]].state is Leased && !m.items[ids@[k]].superseded by {
        assert(m.by_expiry.contains(r[k]));
    }
    law_live_leases_lapse(m, at, pos, ids);
}

proof fn lemma_run_out_is_first(l: Seq<(UtcTimestamp, ItemId)>, now: UtcTimestamp)
    ensures
        run_out(l, now).len() <= l.len(),
        forall|k: int| 0 <= k < run_out(l, now).len() ==> #[trigger] run_out(l, now)[k] == l[k],
    decreases l.len(),
{
    if l.len() > 0 && !ts_lt(l.last().0, now) {
        lemma_run_out_is_first(l.drop_last(), now);
    }
}

/// Each step of a run keeps the documents readable, whether it succeeds or not.
proof fn lemma_run_readable<A>(m: Model, xs: Seq<A>, f: spec_fn(Model, A) -> Step)
    requires
        readable(m),
        forall|n: Model, a: A| readable(n) ==> readable((#[trigger] f(n, a)).0),
    ensures
        readable(run(m, xs, f).0),
    decreases xs.len(),
{
    if xs.len() > 0 {
        assert(readable(f(m, xs[0]).0));
        lemma_run_readable(f(m, xs[0]).0, xs.drop_first(), f);
    }
}

proof fn lemma_insert_readable(m: Model, p: PushV, at: Option<UtcTimestamp>)
    requires
        readable(m),
    ensures
        readable(inserted(m, p, at).0),
{
    let i = pushed_item(p, m.next_seq, at);
    let n = announced(Model { next_seq: (m.next_seq + 1) as u64, ..m }, i);
    assert(n.items == m.items);
    match index_keys(n, i.fields, i.entity) {
        Err(_) => {},
        Ok(keys) => {
            lemma_indexed_frame(n, i.item_id, keys);
        },
    }
}

proof fn lemma_update_readable(m: Model, c: UpdateFieldsCommand, at: Option<UtcTimestamp>)
    requires
        readable(m),
    ensures
        readable(updated(m, c, at).0),
{
    let s = updated(m, c, at);
    if s.1 is Ok {
        lemma_update_moves(m, c, at);
        let i = m.items[c.item_id];
        let old_keys = index_keys(m, i.fields, i.entity)->Ok_0;
        let new_keys = index_keys(m, updated_fields(i, c), updated_entity(i, c))->Ok_0;
        let p = put(m, c.item_id, updated_item(i, c, at));
        lemma_indexed_frame(p, c.item_id, lacking(old_keys, new_keys));
        let u = unindexed(p, c.item_id, lacking(old_keys, new_keys));
        lemma_indexed_frame(u, c.item_id, lacking(new_keys, old_keys));
        assert(s.0.items == p.items);
    }
}

proof fn lemma_purge_readable(m: Model, id: ItemId)
    requires
        readable(m),
    ensures
        readable(purged(m, id).0),
{
    if m.items.contains_key(id) {
        let i = m.items[id];
        let n = Model { items: m.items.remove(id), ..m };
        assert forall|u: Model, keys: Seq<(Seq<char>, Seq<u8>)>| (#[trigger] unindexed(
            u,
            i.item_id,
            keys,
        )).items == u.items by {
            lemma_indexed_frame(u, i.item_id, keys);
        }
        assert(forgotten(n, i).0.items == n.items);
    }
}

proof fn lemma_mutation_readable(
    m: Model,
    x: ResolvedItemMutation,
    at: Option<UtcTimestamp>,
    pos: Option<PositionV>,
)
    requires
        readable(m),
    ensures
        readable(mutated(m, x, at, pos).0),
{
    let id = x.item_id;
    match x.action {
        ResolvedItemMutationAction::Purge => {
            lemma_purge_readable(m, id);
        },
        ResolvedItemMutationAction::Replace(v) => {
            if m.items.contains_key(id) {
                let i = m.items[id];
                match index_keys(m, i.fields, i.entity) {
                    Err(_) => {},
                    Ok(old_keys) => {
                        let n = withdrawn(m, id, i, ends_lease(i, v));
                        assert(n.items == m.items);
                        match values_keys(n, v) {
                            Err(_) => {},
                            Ok(new_keys) => {
                                let j = replaced_item(i, v, ends_lease(i, v), at, pos);
                                let p = put(n, id, j);
                                lemma_indexed_frame(p, id, lacking(old_keys, new_keys));
                                let u = unindexed(p, id, lacking(old_keys, new_keys));
                                lemma_indexed_frame(u, id, lacking(new_keys, old_keys));
                                assert(replaced(m, id, v, at, pos).0.items == p.items);
                            },
                        }
                    },
                }
            }
        },
    }
}

proof fn lemma_supersede_readable(m: Model, c: ReplacePendingCommand, at: Option<UtcTimestamp>)
    requires
        readable(m),
    ensures
        readable(superseded(m, c, at).0),
{
    let id = c.superseded_item_id;
    if m.items.contains_key(id) {
        let i = m.items[id];
        match index_keys(m, i.fields, i.entity) {
            Err(_) => {},
            Ok(keys) => {
                let m1 = put(m, id, Item { superseded: true, ..i });
                let m2 = leave_if(m1, i.state is Pending, i);
                let m3 = if i.superseded {
                    m2
                } else {
                    Model { metrics: uncounted(m2.metrics, i.state), ..m2 }
                };
                lemma_indexed_frame(m3, id, keys);
                let m4 = regated(unindexed(m3, id, keys), id, i.gate_keys, Seq::empty());
                assert(m4.items == m1.items);
                assert(readable(m4));
                lemma_insert_readable(
                    Model { by_key: m4.by_key.remove(c.client_item_key@), ..m4 },
                    c.replacement@,
                    at,
                );
            },
        }
    } else {
        lemma_insert_readable(
            Model { by_key: m.by_key.remove(c.client_item_key@), ..m },
            c.replacement@,
            at,
        );
    }
}

proof fn lemma_gates_readable(m: Model, keys: Seq<Seq<char>>, blocked: bool)
    requires
        readable(m),
    ensures
        readable(gates_changed(m, keys, blocked).0),
{
    let n = Model { blocked_gates: gates_after(m.blocked_gates, keys, blocked), ..m };
    lemma_gates_frame(n, listing_of::<u64>(under_gates(m, keys)), m.blocked_gates);
}

/// No command lets in a document whose index keys cannot be worked out.
pub proof fn law_documents_stay_readable(
    m: Model,
    at: Option<UtcTimestamp>,
    pos: Option<PositionV>,
    cmd: QueueCommand,
)
    requires
        readable(m),
    ensures
        readable(applied(m, at, pos, cmd).0),
{
    match cmd {
        QueueCommand::Push(items) => {
            let f = insert_each(at);
            assert forall|n: Model, a: PushItem| readable(n) implies readable(
                (#[trigger] f(n, a)).0,
            ) by {
                lemma_insert_readable(n, a@, at);
            }
            lemma_run_readable(m, items@, f);
        },
        QueueCommand::Claim(c) => {
            lemma_run_readable(
                m,
                c.item_ids@,
                claim_each(c.lease_token@, c.lease_expires_at, opt_text(c.worker_id), false),
            );
        },
        QueueCommand::CohortClaim(c) => {
            lemma_run_readable(
                m,
                c.item_ids@,
                claim_each(c.lease_token@, c.lease_expires_at, None, true),
            );
        },
        QueueCommand::RenewLease(c) => {
            lemma_run_readable(m, c.item_ids@, renew_each(c.lease_expires_at));
        },
        QueueCommand::ReassignLease(c) => {
            lemma_run_readable(
                m,
                c.item_ids@,
                reassign_each(c.lease_token@, c.lease_expires_at),
            );
        },
        QueueCommand::UpdateFields(c) => {
            lemma_update_readable(m, c, at);
        },
        QueueCommand::UpdateFieldsBatch(cs) => {
            let f = update_each(at);
            assert forall|n: Model, a: UpdateFieldsCommand| readable(n) implies readable(
                (#[trigger] f(n, a)).0,
            ) by {
                lemma_update_readable(n, a, at);
            }
            lemma_run_readable(m, cs@, f);
        },
        QueueCommand::MutateItems(c) => {
            let f = mutate_each(at, pos);
            assert forall|n: Model, a: ResolvedItemMutation| readable(n) implies readable(
                (#[trigger] f(n, a)).0,
            ) by {
                lemma_mutation_readable(n, a, at, pos);
            }
            lemma_run_readable(m, c.items@, f);
            let g = gate_each();
            assert forall|n: Model, a: GateChange| readable(n) implies readable(
                (#[trigger] g(n, a)).0,
            ) by {
                lemma_gates_readable(n, texts(a.gate_keys@), a.blocked);
            }
            lemma_run_readable(run(m, c.items@, f).0, c.gate_changes@, g);
        },
        QueueCommand::Finalize(os) => {
            lemma_run_readable(m, os@, finalize_each(at, pos));
        },
        QueueCommand::ReplacePending(c) => {
            lemma_supersede_readable(m, c, at);
        },
        QueueCommand::LeaseExpired(ids) => {
            lemma_run_readable(m, ids@, lapse_each());
        },
        QueueCommand::CohortExpired(group) => {
            lemma_run_readable(
                m,
                listing_of::<u64>(live_group(m, group@)),
                cohort_fail_each(at, pos),
            );
        },
        QueueCommand::FenceLease(ids) => {
            lemma_run_readable(m, ids@, fence_each(true));
        },
        QueueCommand::UnfenceLease(ids) => {
            lemma_run_readable(m, ids@, fence_each(false));
        },
        QueueCommand::SetGates(g) => {
            lemma_gates_readable(m, texts(g.gate_keys@), g.blocked);
        },
        QueueCommand::WriteSideRecords(rs) => {
            lemma_run_readable(m, rs@, side_each());
        },
        QueueCommand::PurgeItems(c) => {
            let f = purge_each();
            assert forall|n: Model, a: ItemId| readable(n) implies readable(
                (#[trigger] f(n, a)).0,
            ) by {
                lemma_purge_readable(n, a);
            }
            lemma_run_readable(m, c.item_ids@, f);
        },
        _ => {},
    }
}

/// An update that passes the checks of the item and of its index keys is applied without failure.
pub proof fn law_checked_updates_apply(
    m: Model,
    at: Option<UtcTimestamp>,
    pos: Option<PositionV>,
    c: UpdateFieldsCommand,
)
    requires
        readable(m),
        update_checked(m, c.item_id, c.expected_item_version) is Ok,
        index_checked(
            m,
            c.item_id,
            updated_fields(m.items[c.item_id], c),
            updated_entity(m.items[c.item_id], c),
            None,
        ) is Ok,
    ensures
        applied(m, at, pos, QueueCommand::UpdateFields(c)).1 is Ok,
{
}

proof fn lemma_updates_apply(m: Model, cs: Seq<UpdateFieldsCommand>, at: Option<UtcTimestamp>)
    requires
        readable(m),
        forall|k: int|
            0 <= k < cs.len() ==> m.items.contains_key((#[trigger] cs[k]).item_id) && (
            cs[k].set_entity_document is Some ==> cs[k].set_entity_document->Some_0@.keys is Ok),
    ensures
        run(m, cs, update_each(at)).1 is Ok,
    decreases cs.len(),
{
    if cs.len() > 0 {
        let c = cs[0];
        let n = updated(m, c, at).0;
        assert(m.items.contains_key(c.item_id));
        lemma_update_moves(m, c, at);
        lemma_update_readable(m, c, at);
        let rest = cs.drop_first();
        assert forall|k: int| 0 <= k < rest.len() implies n.items.contains_key(
            (#[trigger] rest[k]).item_id,
        ) && (rest[k].set_entity_document is Some ==> rest[k].set_entity_document->Some_0@.keys is Ok) by {
            assert(rest[k] == cs[k + 1]);
        }
        lemma_updates_apply(n, rest, at);
    }
}

/// The accepted entries of a batch update are applied without failure, all together or some of them.
pub proof fn law_accepted_updates_apply(
    m: Model,
    at: Option<UtcTimestamp>,
    pos: Option<PositionV>,
    cs: Seq<UpdateFieldsCommand>,
    list: Vec<UpdateFieldsCommand>,
)
    requires
        readable(m),
        cs.len() <= usize::MAX,
        preflight(m, cs) is Ok,
        forall|j: int|
            0 <= j < list@.len() ==> exists|k: int|
                0 <= k < cs.len() && preflight(m, cs)->Ok_0.0[k] && #[trigger] cs[k]
                    == #[trigger] list@[j],
    ensures
        applied(m, at, pos, QueueCommand::UpdateFieldsBatch(list)).1 is Ok,
{
    assert forall|j: int| 0 <= j < list@.len() implies m.items.contains_key(
        (#[trigger] list@[j]).item_id,
    ) && (list@[j].set_entity_document is Some ==> list@[j].set_entity_document->Some_0@.keys is Ok) by {
        let k = choose|k: int|
            0 <= k < cs.len() && preflight(m, cs)->Ok_0.0[k] && #[trigger] cs[k] == list@[j];
        law_accepted_entries_were_checked(m, cs, k);
    }
    lemma_updates_apply(m, list@, at);
}

/// Pushed items that passed the check of their index keys are applied without failure, whatever has
/// become of the queue since.
pub proof fn law_checked_pushes_apply(
    m: Model,
    n: Model,
    at: Option<UtcTimestamp>,
    pos: Option<PositionV>,
    items: Vec<PushItem>,
)
    requires
        push_checked(m, items@) is Ok,
    ensures
        applied(n, at, pos, QueueCommand::Push(items)).1 is Ok,
{
    lemma_pushes_legible(m, items@);
    lemma_pushes_apply(n, items@, at);
}

proof fn lemma_pushes_legible(m: Model, items: Seq<PushItem>)
    requires
        push_checked(m, items) is Ok,
    ensures
        forall|k: int| 0 <= k < items.len() ==> legible((#[trigger] items[k])@.entity),
    decreases items.len(),
{
    if items.len() > 0 {
        lemma_pushes_legible(m, items.drop_last());
        assert forall|k: int| 0 <= k < items.len() implies legible((#[trigger] items[k])@.entity) by {
            if k < items.len() - 1 {
                assert(items.drop_last()[k] == items[k]);
            }
        }
    }
}

proof fn lemma_pushes_apply(m: Model, items: Seq<PushItem>, at: Option<UtcTimestamp>)
    requires
        forall|k: int| 0 <= k < items.len() ==> legible((#[trigger] items[k])@.entity),
    ensures
        run(m, items, insert_each(at)).1 is Ok,
    decreases items.len(),
{
    if items.len() > 0 {
        let p = items[0]@;
        assert(legible(items[0]@.entity));
        let rest = items.drop_first();
        assert forall|k: int| 0 <= k < rest.len() implies legible((#[trigger] rest[k])@.entity) by {
            assert(rest[k] == items[k + 1]);
        }
        lemma_pushes_apply(inserted(m, p, at).0, rest, at);
    }
}

/// A replacement that passes the check of its index keys is applied without failure.
pub proof fn law_checked_replacements_apply(
    m: Model,
    at: Option<UtcTimestamp>,
    pos: Option<PositionV>,
    c: ReplacePendingCommand,
)
    requires
        readable(m),
        index_checked(
            m,
            c.replacement.item_id,
            c.replacement@.fields,
            c.replacement@.entity,
            Some(c.superseded_item_id),
        ) is Ok,
    ensures
        applied(m, at, pos, QueueCommand::ReplacePending(c)).1 is Ok,
{
}

} // verus!
