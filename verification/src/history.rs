//! What commands can do to an item, and what they cannot.

use crate::apply::{lemma_gates_frame, lemma_indexed_frame};
use crate::consistency::{keyed, lemma_places_finite, placed, stands};
use crate::eligibility::{EligKey, EligV, by_locality, due, due_keys, elig_lt, first_of, items_of, key_of, later_than, law_rank_error_is_bounded, law_relaxed_order_keeps_the_selection, ordered_after};
use crate::image::keys_proper;
use crate::item::{Item, PushV, client_key, pushed_item};
use crate::model::{Model, Step, announced, applied, claim_each, claimed, cohort_fail_each, cohort_failed, ends_lease, fence_each, final_event, finalize_each, finalized, fits, forgotten, gate_each, gates_after, gates_changed, index_keys, indexed, insert_each, inserted, lacking, lapse_each, lapsed, leave_if, live_group, mutate_each, mutated, purge_each, purged, put, reassign_each, reassigned, regated, renew_each, renewed, replaced, replaced_item, run, side_each, superseded, transitioned, uncounted, under_gates, unindexed, update_each, updated, updated_entity, updated_fields, updated_item, values_keys, withdrawn};
use crate::order::{OrderKey, ascending, lemma_ascending_at, lemma_ascending_distinct, lemma_listing_exists, lemma_listing_of, listing_of};
use crate::places::law_places_follow_every_command;
use crate::reads::{candidates, candidates_past, item_for_key, rank_bound};
use crate::text::{all_digits, digits_value, is_digit, numeral, opt_text, parsed_unsigned, texts};
use crate::types::{ClaimCommand, FinalizeOutcome, GateChange, ItemEvent, ItemId, ItemState, PositionV, PushItem, QueueCommand, ReplacePendingCommand, ResolvedItemMutation, ResolvedItemMutationAction, UpdateFieldsCommand, UtcTimestamp, ts_le, ts_lt};
use vstd::prelude::*;

verus! {

/// How often a list names an item.
pub open spec fn times(ids: Seq<ItemId>, id: ItemId) -> nat
    decreases ids.len(),
{
    if ids.len() == 0 {
        0
    } else {
        times(ids.drop_first(), id) + if ids[0] == id {
            1nat
        } else {
            0nat
        }
    }
}

/// The items that a command changes one by one, in order.
pub open spec fn changed_by(cmd: QueueCommand) -> Seq<ItemId> {
    match cmd {
        QueueCommand::Claim(c) => c.item_ids@,
        QueueCommand::CohortClaim(c) => c.item_ids@,
        QueueCommand::RenewLease(c) => c.item_ids@,
        QueueCommand::ReassignLease(c) => c.item_ids@,
        QueueCommand::UpdateFields(c) => seq![c.item_id],
        QueueCommand::UpdateFieldsBatch(cs) => cs@.map_values(|c: UpdateFieldsCommand| c.item_id),
        QueueCommand::Finalize(os) => os@.map_values(|o: FinalizeOutcome| o.item_id),
        QueueCommand::LeaseExpired(ids) => ids@,
        _ => Seq::empty(),
    }
}

/// A command that changes items one by one.
pub open spec fn item_wise(cmd: QueueCommand) -> bool {
    match cmd {
        QueueCommand::Claim(_) => true,
        QueueCommand::CohortClaim(_) => true,
        QueueCommand::RenewLease(_) => true,
        QueueCommand::ReassignLease(_) => true,
        QueueCommand::UpdateFields(_) => true,
        QueueCommand::UpdateFieldsBatch(_) => true,
        QueueCommand::Finalize(_) => true,
        QueueCommand::LeaseExpired(_) => true,
        _ => false,
    }
}

/// One item moved on by a version, and no other item changed.
pub open spec fn moved_on(m: Model, n: Model, id: ItemId) -> bool {
    &&& m.items.contains_key(id)
    &&& n.items == m.items.insert(id, n.items[id])
    &&& n.items[id].item_version == (m.items[id].item_version + 1) as u64
}

proof fn lemma_transition_moves(
    m: Model,
    id: ItemId,
    ev: ItemEvent,
    at: Option<UtcTimestamp>,
    pos: Option<PositionV>,
)
    ensures
        transitioned(m, id, ev, at, pos).1 is Ok ==> moved_on(
            m,
            transitioned(m, id, ev, at, pos).0,
            id,
        ),
        transitioned(m, id, ev, at, pos).1 is Err ==> transitioned(m, id, ev, at, pos).0 == m,
{
    if transitioned(m, id, ev, at, pos).1 is Ok {
        let n = transitioned(m, id, ev, at, pos).0;
        assert(n.items =~= m.items.insert(id, n.items[id]));
    }
}

pub proof fn lemma_claim_moves(
    m: Model,
    id: ItemId,
    token: Seq<char>,
    expires: UtcTimestamp,
    worker: Option<Seq<char>>,
    cohort: bool,
)
    ensures
        claimed(m, id, token, expires, worker, cohort).1 is Ok ==> moved_on(
            m,
            claimed(m, id, token, expires, worker, cohort).0,
            id,
        ) && claimed(m, id, token, expires, worker, cohort).0.items[id].state is Leased,
{
    lemma_transition_moves(m, id, ItemEvent::Claim, None, None);
    let s = claimed(m, id, token, expires, worker, cohort);
    if s.1 is Ok {
        assert(s.0.items =~= m.items.insert(id, s.0.items[id]));
    }
}

pub proof fn lemma_renew_moves(m: Model, id: ItemId, expires: UtcTimestamp)
    ensures
        renewed(m, id, expires).1 is Ok ==> moved_on(m, renewed(m, id, expires).0, id),
{
    let s = renewed(m, id, expires);
    if s.1 is Ok {
        assert(s.0.items =~= m.items.insert(id, s.0.items[id]));
    }
}

pub proof fn lemma_reassign_moves(m: Model, id: ItemId, token: Seq<char>, expires: UtcTimestamp)
    ensures
        reassigned(m, id, token, expires).1 is Ok ==> moved_on(
            m,
            reassigned(m, id, token, expires).0,
            id,
        ),
{
    let s = reassigned(m, id, token, expires);
    if s.1 is Ok {
        assert(s.0.items =~= m.items.insert(id, s.0.items[id]));
    }
}

/// An update touches the table at its item alone.
pub proof fn lemma_update_moves(m: Model, c: UpdateFieldsCommand, at: Option<UtcTimestamp>)
    ensures
        updated(m, c, at).1 is Ok ==> moved_on(m, updated(m, c, at).0, c.item_id)
            && updated(m, c, at).0.items[c.item_id] == updated_item(m.items[c.item_id], c, at),
        updated(m, c, at).1 is Err ==> updated(m, c, at).0 == m,
{
    let s = updated(m, c, at);
    if s.1 is Ok {
        let id = c.item_id;
        let i = m.items[id];
        let j = updated_item(i, c, at);
        let old_keys = index_keys(m, i.fields, i.entity)->Ok_0;
        let new_keys = index_keys(m, updated_fields(i, c), updated_entity(i, c))->Ok_0;
        let p = put(m, id, j);
        lemma_indexed_frame(p, id, lacking(old_keys, new_keys));
        let u = unindexed(p, id, lacking(old_keys, new_keys));
        lemma_indexed_frame(u, id, lacking(new_keys, old_keys));
        assert(s.0.items == p.items);
        assert(s.0.items =~= m.items.insert(id, s.0.items[id]));
    }
}

pub proof fn lemma_finalize_moves(
    m: Model,
    o: FinalizeOutcome,
    at: Option<UtcTimestamp>,
    pos: Option<PositionV>,
)
    ensures
        finalized(m, o, at, pos).1 is Ok ==> moved_on(m, finalized(m, o, at, pos).0, o.item_id),
        finalized(m, o, at, pos).1 is Err ==> finalized(m, o, at, pos).0 == m,
{
    match final_event(m, o) {
        Err(_) => {},
        Ok(ev) => {
            lemma_transition_moves(m, o.item_id, ev, at, pos);
            let s = finalized(m, o, at, pos);
            if s.1 is Ok {
                assert(s.0.items =~= m.items.insert(o.item_id, s.0.items[o.item_id]));
            }
        },
    }
}

pub proof fn lemma_lapse_moves(m: Model, id: ItemId)
    ensures
        lapsed(m, id).1 is Ok ==> moved_on(m, lapsed(m, id).0, id),
        lapsed(m, id).1 is Err ==> lapsed(m, id).0 == m,
{
    lemma_transition_moves(m, id, ItemEvent::LeaseExpired, None, None);
    let s = lapsed(m, id);
    if s.1 is Ok {
        assert(s.0.items =~= m.items.insert(id, s.0.items[id]));
    }
}

/// Where each step moves its item on, a whole run moves each item on as often as it is named.
proof fn lemma_run_moves<A>(
    m: Model,
    xs: Seq<A>,
    f: spec_fn(Model, A) -> Step,
    name: spec_fn(A) -> ItemId,
    id: ItemId,
)
    requires
        run(m, xs, f).1 is Ok,
        forall|n: Model, a: A| (#[trigger] f(n, a)).1 is Ok ==> moved_on(n, f(n, a).0, name(a)),
        m.items.contains_key(id) && xs.map_values(name).contains(id) ==> m.items[id].item_version
            + xs.len() <= u64::MAX,
    ensures
        run(m, xs, f).0.items.dom() == m.items.dom(),
        m.items.contains_key(id) ==> run(m, xs, f).0.items[id].item_version
            == m.items[id].item_version + times(xs.map_values(name), id),
        times(xs.map_values(name), id) == 0 && m.items.contains_key(id) ==> run(
            m,
            xs,
            f,
        ).0.items[id] == m.items[id],
    decreases xs.len(),
{
    let ids = xs.map_values(name);
    if xs.len() > 0 {
        let n = f(m, xs[0]).0;
        assert(moved_on(m, n, name(xs[0])));
        assert(n.items.dom() =~= m.items.dom());
        assert(xs.drop_first().map_values(name) =~= ids.drop_first());
        assert(ids[0] == name(xs[0]));
        if ids.drop_first().contains(id) {
            let k = choose|k: int| 0 <= k < ids.drop_first().len() && ids.drop_first()[k] == id;
            assert(ids[k + 1] == id);
        }
        assert(ids.contains(ids[0]));
        lemma_run_moves(n, xs.drop_first(), f, name, id);
    }
}

/// Every change of an item moves its version on by exactly one: after a command that applied, an item's
/// version has risen as often as the command names it. No item comes or goes, and those that are not
/// named stay as they were.
pub proof fn law_versions_count_changes(
    m: Model,
    at: Option<UtcTimestamp>,
    pos: Option<PositionV>,
    cmd: QueueCommand,
    id: ItemId,
)
    requires
        item_wise(cmd),
        fits(m, cmd),
        applied(m, at, pos, cmd).1 is Ok,
    ensures
        applied(m, at, pos, cmd).0.items.dom() == m.items.dom(),
        m.items.contains_key(id) ==> applied(m, at, pos, cmd).0.items[id].item_version
            == m.items[id].item_version + times(changed_by(cmd), id),
        m.items.contains_key(id) && times(changed_by(cmd), id) == 0 ==> applied(
            m,
            at,
            pos,
            cmd,
        ).0.items[id] == m.items[id],
{
    let whole = |a: ItemId| a;
    match cmd {
        QueueCommand::Claim(c) => {
            let f = claim_each(c.lease_token@, c.lease_expires_at, opt_text(c.worker_id), false);
            assert forall|n: Model, a: ItemId| (#[trigger] f(n, a)).1 is Ok implies moved_on(
                n,
                f(n, a).0,
                whole(a),
            ) by {
                lemma_claim_moves(
                    n,
                    a,
                    c.lease_token@,
                    c.lease_expires_at,
                    opt_text(c.worker_id),
                    false,
                );
            }
            assert(c.item_ids@.map_values(whole) =~= c.item_ids@);
            lemma_run_moves(m, c.item_ids@, f, whole, id);
        },
        QueueCommand::CohortClaim(c) => {
            let f = claim_each(c.lease_token@, c.lease_expires_at, None, true);
            assert forall|n: Model, a: ItemId| (#[trigger] f(n, a)).1 is Ok implies moved_on(
                n,
                f(n, a).0,
                whole(a),
            ) by {
                lemma_claim_moves(n, a, c.lease_token@, c.lease_expires_at, None, true);
            }
            assert(c.item_ids@.map_values(whole) =~= c.item_ids@);
            lemma_run_moves(m, c.item_ids@, f, whole, id);
        },
        QueueCommand::RenewLease(c) => {
            let f = renew_each(c.lease_expires_at);
            assert forall|n: Model, a: ItemId| (#[trigger] f(n, a)).1 is Ok implies moved_on(
                n,
                f(n, a).0,
                whole(a),
            ) by {
                lemma_renew_moves(n, a, c.lease_expires_at);
            }
            assert(c.item_ids@.map_values(whole) =~= c.item_ids@);
            lemma_run_moves(m, c.item_ids@, f, whole, id);
        },
        QueueCommand::ReassignLease(c) => {
            let f = reassign_each(c.lease_token@, c.lease_expires_at);
            assert forall|n: Model, a: ItemId| (#[trigger] f(n, a)).1 is Ok implies moved_on(
                n,
                f(n, a).0,
                whole(a),
            ) by {
                lemma_reassign_moves(n, a, c.lease_token@, c.lease_expires_at);
            }
            assert(c.item_ids@.map_values(whole) =~= c.item_ids@);
            lemma_run_moves(m, c.item_ids@, f, whole, id);
        },
        QueueCommand::UpdateFields(c) => {
            lemma_update_moves(m, c, at);
            let n = updated(m, c, at).0;
            assert(n.items.dom() =~= m.items.dom());
            reveal_with_fuel(times, 2);
            assert(seq![c.item_id].drop_first() =~= Seq::<ItemId>::empty());
        },
        QueueCommand::UpdateFieldsBatch(cs) => {
            let f = update_each(at);
            let name = |c: UpdateFieldsCommand| c.item_id;
            assert forall|n: Model, a: UpdateFieldsCommand|
                (#[trigger] f(n, a)).1 is Ok implies moved_on(n, f(n, a).0, name(a)) by {
                lemma_update_moves(n, a, at);
            }
            lemma_run_moves(m, cs@, f, name, id);
        },
        QueueCommand::Finalize(os) => {
            let f = finalize_each(at, pos);
            let name = |o: FinalizeOutcome| o.item_id;
            assert forall|n: Model, a: FinalizeOutcome|
                (#[trigger] f(n, a)).1 is Ok implies moved_on(n, f(n, a).0, name(a)) by {
                lemma_finalize_moves(n, a, at, pos);
            }
            lemma_run_moves(m, os@, f, name, id);
        },
        QueueCommand::LeaseExpired(ids) => {
            let f = lapse_each();
            assert forall|n: Model, a: ItemId| (#[trigger] f(n, a)).1 is Ok implies moved_on(
                n,
                f(n, a).0,
                whole(a),
            ) by {
                lemma_lapse_moves(n, a);
            }
            assert(ids@.map_values(whole) =~= ids@);
            lemma_run_moves(m, ids@, f, whole, id);
        },
        _ => {},
    }
}

/// A command that puts a new item under the identifier.
pub open spec fn pushes(cmd: QueueCommand, id: ItemId) -> bool {
    match cmd {
        QueueCommand::Push(items) => exists|k: int|
            0 <= k < items@.len() && (#[trigger] items@[k]).item_id == id,
        QueueCommand::ReplacePending(c) => c.replacement.item_id == id,
        _ => false,
    }
}

/// A finished item stays finished as it did, and a superseded one superseded.
pub open spec fn settled_for_good(m: Model, n: Model, id: ItemId) -> bool {
    m.items.contains_key(id) ==> {
        &&& n.items.contains_key(id)
        &&& (m.items[id].state.terminal() ==> n.items[id].state == m.items[id].state)
        &&& (m.items[id].superseded ==> n.items[id].superseded)
    }
}

proof fn lemma_run_settled<A>(m: Model, xs: Seq<A>, f: spec_fn(Model, A) -> Step, id: ItemId)
    requires
        forall|n: Model, k: int|
            0 <= k < xs.len() ==> settled_for_good(n, (#[trigger] f(n, xs[k])).0, id),
    ensures
        settled_for_good(m, run(m, xs, f).0, id),
    decreases xs.len(),
{
    if xs.len() > 0 {
        let s = f(m, xs[0]);
        assert(settled_for_good(m, s.0, id));
        if s.1 is Ok {
            let rest = xs.drop_first();
            assert forall|n: Model, k: int| 0 <= k < rest.len() implies settled_for_good(
                n,
                (#[trigger] f(n, rest[k])).0,
                id,
            ) by {
                assert(rest[k] == xs[k + 1]);
                assert(settled_for_good(n, f(n, xs[k + 1]).0, id));
            }
            lemma_run_settled(s.0, rest, f, id);
        }
    }
}

proof fn lemma_insert_settled(m: Model, p: PushV, at: Option<UtcTimestamp>, id: ItemId)
    requires
        p.item_id != id,
    ensures
        settled_for_good(m, inserted(m, p, at).0, id),
{
    let i = pushed_item(p, m.next_seq, at);
    let n = announced(Model { next_seq: (m.next_seq + 1) as u64, ..m }, i);
    assert(n.items == m.items);
    match index_keys(n, i.fields, i.entity) {
        Err(_) => {},
        Ok(keys) => {
            lemma_indexed_frame(n, i.item_id, keys);
        },
    }
}

proof fn lemma_transition_settled(
    m: Model,
    x: ItemId,
    ev: ItemEvent,
    at: Option<UtcTimestamp>,
    pos: Option<PositionV>,
    id: ItemId,
)
    ensures
        settled_for_good(m, transitioned(m, x, ev, at, pos).0, id),
        transitioned(m, x, ev, at, pos).1 is Ok ==> !m.items[x].superseded
            && !m.items[x].state.terminal(),
{
    lemma_transition_moves(m, x, ev, at, pos);
}

proof fn lemma_claim_settled(
    m: Model,
    x: ItemId,
    token: Seq<char>,
    expires: UtcTimestamp,
    worker: Option<Seq<char>>,
    cohort: bool,
    id: ItemId,
)
    ensures
        settled_for_good(m, claimed(m, x, token, expires, worker, cohort).0, id),
{
    lemma_transition_settled(m, x, ItemEvent::Claim, None, None, id);
    lemma_claim_moves(m, x, token, expires, worker, cohort);
}

proof fn lemma_update_settled(m: Model, c: UpdateFieldsCommand, at: Option<UtcTimestamp>, id: ItemId)
    ensures
        settled_for_good(m, updated(m, c, at).0, id),
{
    lemma_update_moves(m, c, at);
}

proof fn lemma_finalize_settled(
    m: Model,
    o: FinalizeOutcome,
    at: Option<UtcTimestamp>,
    pos: Option<PositionV>,
    id: ItemId,
)
    ensures
        settled_for_good(m, finalized(m, o, at, pos).0, id),
{
    lemma_finalize_moves(m, o, at, pos);
    match final_event(m, o) {
        Ok(ev) => {
            lemma_transition_settled(m, o.item_id, ev, at, pos, id);
        },
        Err(_) => {},
    }
}

proof fn lemma_lapse_settled(m: Model, x: ItemId, id: ItemId)
    ensures
        settled_for_good(m, lapsed(m, x).0, id),
{
    lemma_lapse_moves(m, x);
    lemma_transition_settled(m, x, ItemEvent::LeaseExpired, None, None, id);
}

proof fn lemma_supersede_settled(
    m: Model,
    c: ReplacePendingCommand,
    at: Option<UtcTimestamp>,
    id: ItemId,
)
    requires
        c.replacement.item_id != id,
    ensures
        settled_for_good(m, superseded(m, c, at).0, id),
{
    let x = c.superseded_item_id;
    if m.items.contains_key(x) {
        let i = m.items[x];
        match index_keys(m, i.fields, i.entity) {
            Err(_) => {},
            Ok(keys) => {
                let m1 = put(m, x, Item { superseded: true, ..i });
                let m2 = leave_if(m1, i.state is Pending, i);
                let m3 = if i.superseded {
                    m2
                } else {
                    Model { metrics: uncounted(m2.metrics, i.state), ..m2 }
                };
                lemma_indexed_frame(m3, x, keys);
                let m4 = regated(unindexed(m3, x, keys), x, i.gate_keys, Seq::empty());
                let m5 = Model { by_key: m4.by_key.remove(c.client_item_key@), ..m4 };
                assert(m5.items == m1.items);
                assert(settled_for_good(m, m5, id));
                lemma_insert_settled(m5, c.replacement@, at, id);
            },
        }
    } else {
        lemma_insert_settled(
            Model { by_key: m.by_key.remove(c.client_item_key@), ..m },
            c.replacement@,
            at,
            id,
        );
    }
}

proof fn lemma_cohort_settled(
    m: Model,
    group: Seq<char>,
    at: Option<UtcTimestamp>,
    pos: Option<PositionV>,
    id: ItemId,
)
    requires
        m.items.dom().finite(),
    ensures
        settled_for_good(
            m,
            run(m, listing_of::<u64>(live_group(m, group)), cohort_fail_each(at, pos)).0,
            id,
        ),
{
    let live = live_group(m, group);
    assert(live.subset_of(m.items.dom()));
    vstd::set_lib::lemma_set_subset_finite(m.items.dom(), live);
    lemma_listing_exists::<u64>(live);
    let ids = listing_of::<u64>(live);
    let f = cohort_fail_each(at, pos);
    if m.items.contains_key(id) && m.items[id].state.terminal() {
        assert forall|n: Model, k: int| 0 <= k < ids.len() implies settled_for_good(
            n,
            (#[trigger] f(n, ids[k])).0,
            id,
        ) by {
            assert(ids.to_set().contains(ids[k]));
            assert(ids[k] != id);
        }
        lemma_run_settled(m, ids, f, id);
    } else {
        lemma_cohort_superseded(m, ids, at, pos, id);
    }
}

/// Only a purge takes an item out, and only a mutation or a new item under its identifier can change
/// how a finished or a superseded item stands. Every other command leaves it so, even where it fails
/// halfway.
pub proof fn law_ends_are_final(
    m: Model,
    at: Option<UtcTimestamp>,
    pos: Option<PositionV>,
    cmd: QueueCommand,
    id: ItemId,
)
    requires
        !(cmd is MutateItems),
        !(cmd is PurgeItems),
        !pushes(cmd, id),
        m.items.dom().finite(),
    ensures
        settled_for_good(m, applied(m, at, pos, cmd).0, id),
{
    match cmd {
        QueueCommand::Push(items) => {
            let f = insert_each(at);
            assert forall|n: Model, k: int| 0 <= k < items@.len() implies settled_for_good(
                n,
                (#[trigger] f(n, items@[k])).0,
                id,
            ) by {
                assert(items@[k].item_id != id);
                lemma_insert_settled(n, items@[k]@, at, id);
            }
            lemma_run_settled(m, items@, f, id);
        },
        QueueCommand::Claim(c) => {
            let w = opt_text(c.worker_id);
            let f = claim_each(c.lease_token@, c.lease_expires_at, w, false);
            assert forall|n: Model, k: int| 0 <= k < c.item_ids@.len() implies settled_for_good(
                n,
                (#[trigger] f(n, c.item_ids@[k])).0,
                id,
            ) by {
                lemma_claim_settled(
                    n,
                    c.item_ids@[k],
                    c.lease_token@,
                    c.lease_expires_at,
                    w,
                    false,
                    id,
                );
            }
            lemma_run_settled(m, c.item_ids@, f, id);
        },
        QueueCommand::CohortClaim(c) => {
            let f = claim_each(c.lease_token@, c.lease_expires_at, None, true);
            assert forall|n: Model, k: int| 0 <= k < c.item_ids@.len() implies settled_for_good(
                n,
                (#[trigger] f(n, c.item_ids@[k])).0,
                id,
            ) by {
                lemma_claim_settled(
                    n,
                    c.item_ids@[k],
                    c.lease_token@,
                    c.lease_expires_at,
                    None,
                    true,
                    id,
                );
            }
            lemma_run_settled(m, c.item_ids@, f, id);
        },
        QueueCommand::RenewLease(c) => {
            lemma_run_settled(m, c.item_ids@, renew_each(c.lease_expires_at), id);
        },
        QueueCommand::ReassignLease(c) => {
            lemma_run_settled(
                m,
                c.item_ids@,
                reassign_each(c.lease_token@, c.lease_expires_at),
                id,
            );
        },
        QueueCommand::UpdateFields(c) => {
            lemma_update_settled(m, c, at, id);
        },
        QueueCommand::UpdateFieldsBatch(cs) => {
            let f = update_each(at);
            assert forall|n: Model, k: int| 0 <= k < cs@.len() implies settled_for_good(
                n,
                (#[trigger] f(n, cs@[k])).0,
                id,
            ) by {
                lemma_update_settled(n, cs@[k], at, id);
            }
            lemma_run_settled(m, cs@, f, id);
        },
        QueueCommand::Finalize(os) => {
            let f = finalize_each(at, pos);
            assert forall|n: Model, k: int| 0 <= k < os@.len() implies settled_for_good(
                n,
                (#[trigger] f(n, os@[k])).0,
                id,
            ) by {
                lemma_finalize_settled(n, os@[k], at, pos, id);
            }
            lemma_run_settled(m, os@, f, id);
        },
        QueueCommand::ReplacePending(c) => {
            lemma_supersede_settled(m, c, at, id);
        },
        QueueCommand::LeaseExpired(ids) => {
            let f = lapse_each();
            assert forall|n: Model, k: int| 0 <= k < ids@.len() implies settled_for_good(
                n,
                (#[trigger] f(n, ids@[k])).0,
                id,
            ) by {
                lemma_lapse_settled(n, ids@[k], id);
            }
            lemma_run_settled(m, ids@, f, id);
        },
        QueueCommand::CohortExpired(group) => {
            lemma_cohort_settled(m, group@, at, pos, id);
        },
        QueueCommand::FenceLease(ids) => {
            lemma_run_settled(m, ids@, fence_each(true), id);
        },
        QueueCommand::UnfenceLease(ids) => {
            lemma_run_settled(m, ids@, fence_each(false), id);
        },
        QueueCommand::SetGates(g) => {
            let keys = texts(g.gate_keys@);
            let n = Model { blocked_gates: gates_after(m.blocked_gates, keys, g.blocked), ..m };
            lemma_gates_frame(n, listing_of::<u64>(under_gates(m, keys)), m.blocked_gates);
        },
        QueueCommand::WriteSideRecords(rs) => {
            lemma_run_settled(m, rs@, side_each(), id);
        },
        _ => {},
    }
}

/// A failing cohort keeps which items are superseded.
proof fn lemma_cohort_superseded(
    m: Model,
    ids: Seq<ItemId>,
    at: Option<UtcTimestamp>,
    pos: Option<PositionV>,
    id: ItemId,
)
    ensures
        m.items.contains_key(id) ==> run(m, ids, cohort_fail_each(at, pos)).0.items.contains_key(id)
            && run(m, ids, cohort_fail_each(at, pos)).0.items[id].superseded
            == m.items[id].superseded,
    decreases ids.len(),
{
    if ids.len() > 0 {
        lemma_cohort_superseded(cohort_failed(m, ids[0], at, pos).0, ids.drop_first(), at, pos, id);
    }
}

/// What is due, among places.
proof fn lemma_due_keys(l: Seq<EligV>, now: UtcTimestamp, max: nat)
    ensures
        due_keys(l, now, max).to_set().subset_of(l.to_set()),
        forall|i: int|
            0 <= i < due_keys(l, now, max).len() ==> due(#[trigger] due_keys(l, now, max)[i], now),
        l.no_duplicates() ==> due_keys(l, now, max).no_duplicates(),
        due_keys(l, now, max).len() <= max,
    decreases l.len(),
{
    if l.len() > 0 && max > 0 {
        let rest = l.drop_first();
        let d = due_keys(l, now, max);
        if due(l[0], now) {
            let e = due_keys(rest, now, (max - 1) as nat);
            lemma_due_keys(rest, now, (max - 1) as nat);
            assert(d =~= seq![l[0]] + e);
            assert forall|x: EligV| d.to_set().contains(x) implies l.to_set().contains(x) by {
                let i = choose|i: int| 0 <= i < d.len() && d[i] == x;
                if i > 0 {
                    assert(e[i - 1] == x);
                    assert(e.to_set().contains(x));
                    assert(rest.to_set().contains(x));
                    let j = choose|j: int| 0 <= j < rest.len() && rest[j] == x;
                    assert(l[j + 1] == x);
                } else {
                    assert(l[0] == x);
                }
            }
            assert forall|i: int| 0 <= i < d.len() implies due(#[trigger] d[i], now) by {
                if i > 0 {
                    assert(d[i] == e[i - 1]);
                }
            }
            if l.no_duplicates() {
                assert(rest.no_duplicates());
                assert forall|i: int, j: int|
                    0 <= i < d.len() && 0 <= j < d.len() && i != j implies d[i] != d[j] by {
                    if i > 0 && j > 0 {
                        assert(d[i] == e[i - 1]);
                        assert(d[j] == e[j - 1]);
                    } else {
                        let k = if i > 0 {
                            i
                        } else {
                            j
                        };
                        assert(d[k] == e[k - 1]);
                        assert(e.to_set().contains(d[k]));
                        assert(rest.to_set().contains(d[k]));
                        let r = choose|r: int| 0 <= r < rest.len() && rest[r] == d[k];
                        assert(l[r + 1] == d[k]);
                        assert(l[0] != l[r + 1]);
                    }
                }
            }
        } else {
            lemma_due_keys(rest, now, max);
            assert forall|x: EligV| d.to_set().contains(x) implies l.to_set().contains(x) by {
                assert(rest.to_set().contains(x));
                let j = choose|j: int| 0 <= j < rest.len() && rest[j] == x;
                assert(l[j + 1] == x);
            }
            if l.no_duplicates() {
                assert(rest.no_duplicates());
            }
        }
    }
}

/// With room for all, everything that is due is among them.
proof fn lemma_due_complete(l: Seq<EligV>, now: UtcTimestamp, max: nat, k: EligV)
    requires
        l.len() <= max,
        l.contains(k),
        due(k, now),
    ensures
        due_keys(l, now, max).contains(k),
    decreases l.len(),
{
    let rest = l.drop_first();
    let i = choose|i: int| 0 <= i < l.len() && l[i] == k;
    if i > 0 {
        assert(rest[i - 1] == k);
    }
    if due(l[0], now) {
        let e = due_keys(rest, now, (max - 1) as nat);
        let d = due_keys(l, now, max);
        assert(d =~= seq![l[0]] + e);
        if i == 0 {
            assert(d[0] == k);
        } else {
            lemma_due_complete(rest, now, (max - 1) as nat, k);
            let j = choose|j: int| 0 <= j < e.len() && e[j] == k;
            assert(d[j + 1] == k);
        }
    } else {
        lemma_due_complete(rest, now, max, k);
    }
}

/// The places that a selection takes, in the order it offers them.
proof fn lemma_selection(m: Model, now: UtcTimestamp, max: nat)
    requires
        m.eligible.finite(),
    ensures
        ({
            let d = due_keys(listing_of::<EligKey>(m.eligible), now, max);
            &&& !m.paused ==> forall|id: ItemId|
                #![trigger candidates(m, now, max).contains(id)]
                candidates(m, now, max).contains(id) <==> exists|k: EligV|
                    d.contains(k) && (#[trigger] k.item) == id
            &&& d.to_set().subset_of(m.eligible)
            &&& forall|i: int| 0 <= i < d.len() ==> due(#[trigger] d[i], now)
        }),
{
    let l = listing_of::<EligKey>(m.eligible);
    lemma_listing_exists::<EligKey>(m.eligible);
    lemma_ascending_distinct::<EligKey>(l);
    lemma_due_keys(l, now, max);
    let d = due_keys(l, now, max);
    if !m.paused {
        let block = rank_bound(m) as nat + 1;
        let s = if rank_bound(m) == 0 {
            d
        } else {
            by_locality(d, block)
        };
        law_relaxed_order_keeps_the_selection(d, block);
        assert(s.to_set() == d.to_set());
        let c = candidates(m, now, max);
        assert(c == items_of(s));
        assert forall|id: ItemId|
            #![trigger c.contains(id)]
            c.contains(id) <==> exists|k: EligV| d.contains(k) && (#[trigger] k.item) == id by {
            if c.contains(id) {
                let i = choose|i: int| 0 <= i < c.len() && c[i] == id;
                assert(s.to_set().contains(s[i]));
                assert(d.to_set().contains(s[i]));
                assert(d.contains(s[i]) && s[i].item == id);
            }
            if exists|k: EligV| d.contains(k) && (#[trigger] k.item) == id {
                let k = choose|k: EligV| d.contains(k) && (#[trigger] k.item) == id;
                assert(d.to_set().contains(k));
                assert(s.to_set().contains(k));
                let i = choose|i: int| 0 <= i < s.len() && s[i] == k;
                assert(c[i] == id);
            }
        }
    }
}

/// The item may be claimed now.
pub open spec fn claimable(m: Model, id: ItemId, now: UtcTimestamp) -> bool {
    &&& m.items.contains_key(id)
    &&& stands(m, m.items[id])
    &&& match m.items[id].not_before {
        Some(nb) => ts_le(nb, now),
        None => true,
    }
}

/// Whatever a selection offers is pending, due, held back by no gate and not superseded.
pub proof fn law_offered_items_may_be_claimed(m: Model, now: UtcTimestamp, max: nat, id: ItemId)
    requires
        placed(m),
        candidates(m, now, max).contains(id),
    ensures
        !m.paused,
        claimable(m, id, now),
{
    lemma_places_finite(m);
    lemma_selection(m, now, max);
    let d = due_keys(listing_of::<EligKey>(m.eligible), now, max);
    let k = choose|k: EligV| d.contains(k) && (#[trigger] k.item) == id;
    let i = choose|i: int| 0 <= i < d.len() && d[i] == k;
    assert(due(d[i], now));
    assert(d.to_set().contains(k));
    assert(m.eligible.contains(k));
}

/// A selection names no item twice.
pub proof fn law_selections_name_items_once(m: Model, now: UtcTimestamp, max: nat)
    requires
        placed(m),
    ensures
        candidates(m, now, max).no_duplicates(),
{
    lemma_places_finite(m);
    if !m.paused {
        let l = listing_of::<EligKey>(m.eligible);
        lemma_listing_exists::<EligKey>(m.eligible);
        lemma_ascending_distinct::<EligKey>(l);
        lemma_due_keys(l, now, max);
        let d = due_keys(l, now, max);
        let s = if rank_bound(m) == 0 {
            d
        } else {
            by_locality(d, rank_bound(m) as nat + 1)
        };
        if rank_bound(m) != 0 {
            law_relaxed_order_keeps_the_selection(d, rank_bound(m) as nat + 1);
        }
        let ids = items_of(s);
        assert forall|i: int, j: int| 0 <= i < ids.len() && 0 <= j < ids.len() && i != j implies ids[i]
            != ids[j] by {
            assert(s.to_set().contains(s[i]) && s.to_set().contains(s[j]));
            assert(d.to_set().contains(s[i]) && d.to_set().contains(s[j]));
            assert(m.eligible.contains(s[i]) && m.eligible.contains(s[j]));
        }
    }
}

/// The places after one of an ascending list are those that follow it.
proof fn lemma_later_than_at(l: Seq<EligV>, i: int)
    requires
        ascending::<EligKey>(l),
        0 <= i < l.len(),
    ensures
        later_than(l, l[i]) == l.skip(i + 1),
    decreases l.len(),
{
    let rest = l.drop_first();
    assert(ascending::<EligKey>(rest)) by {
        assert forall|x: int, y: int| 0 <= x < y < rest.len() implies EligKey::kless(
            #[trigger] rest[x],
            #[trigger] rest[y],
        ) by {
            lemma_ascending_at::<EligKey>(l, x + 1, y + 1);
        }
    }
    EligKey::lt_irreflexive(l[i]);
    if i == 0 {
        reveal_with_fuel(later_than, 2);
        if rest.len() > 0 {
            lemma_ascending_at::<EligKey>(l, 0, 1);
            assert(rest[0] == l[1]);
        }
        assert(l.skip(1) =~= rest);
    } else {
        lemma_ascending_at::<EligKey>(l, 0, i);
        if EligKey::kless(l[i], l[0]) {
            EligKey::lt_transitive(l[i], l[0], l[i]);
        }
        assert(rest[i - 1] == l[i]);
        lemma_later_than_at(rest, i - 1);
        assert(rest.skip(i) =~= l.skip(i + 1));
    }
}

/// Pages of the pending order follow each other: what is seen after the last item of a full page is
/// what a longer page goes on with.
pub proof fn law_next_peek_follows(m: Model, a: nat, b: nat)
    requires
        placed(m),
        0 < a <= m.eligible.len(),
    ensures
        ({
            let page = ordered_after(m.eligible, m.compact, None, a);
            &&& m.items.contains_key(page.last())
            &&& ordered_after(m.eligible, m.compact, None, a + b) == page + ordered_after(
                m.eligible,
                m.compact,
                Some(key_of(m.items[page.last()], m.priority_model)),
                b,
            )
        }),
{
    lemma_places_finite(m);
    let l = listing_of::<EligKey>(m.eligible);
    lemma_listing_exists::<EligKey>(m.eligible);
    let k = l[a - 1];
    assert(l.to_set().contains(k));
    assert(m.eligible.contains(k));
    let page = items_of(first_of(l, a));
    assert(first_of(l, a) =~= l.take(a as int));
    assert(page.last() == k.item);
    lemma_later_than_at(l, a - 1);
    let more = first_of(l.skip(a as int), b);
    assert(first_of(l, a + b) =~= l.take(a as int) + more);
    assert(items_of(l.take(a as int) + more) =~= page + items_of(more));
}

/// The due places after the last of a full page are those that a longer page goes on with.
proof fn lemma_pages_follow(l: Seq<EligV>, now: UtcTimestamp, a: nat, b: nat)
    requires
        ascending::<EligKey>(l),
        a > 0,
        due_keys(l, now, a).len() == a,
    ensures
        l.contains(due_keys(l, now, a).last()),
        due_keys(l, now, a + b) == due_keys(l, now, a) + due_keys(
            later_than(l, due_keys(l, now, a).last()),
            now,
            b,
        ),
    decreases l.len(),
{
    let rest = l.drop_first();
    let d = due_keys(l, now, a);
    assert(ascending::<EligKey>(rest)) by {
        assert forall|i: int, j: int| 0 <= i < j < rest.len() implies EligKey::kless(
            #[trigger] rest[i],
            #[trigger] rest[j],
        ) by {
            lemma_ascending_at::<EligKey>(l, i + 1, j + 1);
        }
    }
    if due(l[0], now) && a == 1 {
        assert(due_keys(rest, now, 0) =~= Seq::<EligV>::empty());
        assert(d =~= seq![l[0]]);
        assert(later_than(l, l[0]) =~= rest) by {
            reveal_with_fuel(later_than, 2);
            EligKey::lt_irreflexive(l[0]);
            if rest.len() > 0 {
                lemma_ascending_at::<EligKey>(l, 0, 1);
                assert(rest[0] == l[1]);
            }
        }
        assert(l.contains(l[0]));
    } else {
        let n = if due(l[0], now) {
            (a - 1) as nat
        } else {
            a
        };
        let e = due_keys(rest, now, n);
        assert(d.last() == e.last());
        lemma_pages_follow(rest, now, n, b);
        let k = e.last();
        let j = choose|j: int| 0 <= j < rest.len() && rest[j] == k;
        assert(l[j + 1] == k);
        lemma_ascending_at::<EligKey>(l, 0, j + 1);
        assert(!EligKey::kless(k, l[0])) by {
            if EligKey::kless(k, l[0]) {
                EligKey::lt_transitive(k, l[0], k);
                EligKey::lt_irreflexive(k);
            }
        }
        assert(later_than(l, k) == later_than(rest, k));
        assert(due_keys(l, now, a + b) =~= d + due_keys(later_than(l, k), now, b));
    }
}

/// In strict order a selection that starts after the last item of a full one goes on where it ended.
pub proof fn law_next_selection_follows(m: Model, now: UtcTimestamp, a: nat, b: nat)
    requires
        placed(m),
        rank_bound(m) == 0,
        a > 0,
        candidates(m, now, a).len() == a,
    ensures
        candidates(m, now, a + b) == candidates(m, now, a) + candidates_past(
            m,
            now,
            Some(candidates(m, now, a).last()),
            b,
        ),
{
    lemma_places_finite(m);
    let l = listing_of::<EligKey>(m.eligible);
    lemma_listing_exists::<EligKey>(m.eligible);
    lemma_pages_follow(l, now, a, b);
    let d = due_keys(l, now, a);
    let k = d.last();
    assert(l.to_set().contains(k));
    assert(m.eligible.contains(k));
    let page = candidates(m, now, a);
    assert(page.last() == k.item);
    let more = due_keys(later_than(l, k), now, b);
    if b == 0 {
        assert(more =~= Seq::<EligV>::empty());
    }
    assert(items_of(d + more) =~= items_of(d) + items_of(more));
}

/// A selection with room for all offers every item that may be claimed, in whatever order it goes.
pub proof fn law_items_that_may_be_claimed_are_offered(
    m: Model,
    now: UtcTimestamp,
    max: nat,
    id: ItemId,
)
    requires
        placed(m),
        m.eligible.len() <= max,
        !m.paused,
        claimable(m, id, now),
    ensures
        candidates(m, now, max).contains(id),
{
    lemma_places_finite(m);
    let l = listing_of::<EligKey>(m.eligible);
    lemma_listing_exists::<EligKey>(m.eligible);
    lemma_ascending_distinct::<EligKey>(l);
    l.unique_seq_to_set();
    let k = key_of(m.items[id], m.priority_model);
    assert(m.eligible.contains(k));
    assert(l.to_set().contains(k));
    assert(m.items[id].item_id == id);
    lemma_due_complete(l, now, max, k);
    lemma_selection(m, now, max);
    let d = due_keys(l, now, max);
    assert(d.contains(k) && k.item == id);
}

/// A smaller selection is the beginning of one with room for all.
proof fn lemma_due_begins(l: Seq<EligV>, now: UtcTimestamp, max: nat, all: nat)
    requires
        l.len() <= all,
    ensures
        due_keys(l, now, max) == first_of(due_keys(l, now, all), max),
    decreases l.len(),
{
    let d = due_keys(l, now, all);
    if l.len() > 0 && max > 0 {
        let rest = l.drop_first();
        if due(l[0], now) {
            lemma_due_begins(rest, now, (max - 1) as nat, (all - 1) as nat);
            let e = due_keys(rest, now, (all - 1) as nat);
            assert(d =~= seq![l[0]] + e);
            assert(seq![l[0]] + first_of(e, (max - 1) as nat) =~= first_of(d, max));
        } else {
            lemma_due_begins(rest, now, max, all);
        }
    } else {
        assert(first_of(d, max) =~= Seq::<EligV>::empty());
    }
}

/// What is due keeps its order.
proof fn lemma_due_ascends(l: Seq<EligV>, now: UtcTimestamp, max: nat)
    requires
        ascending::<EligKey>(l),
    ensures
        ascending::<EligKey>(due_keys(l, now, max)),
    decreases l.len(),
{
    if l.len() > 0 && max > 0 {
        let rest = l.drop_first();
        assert(ascending::<EligKey>(rest)) by {
            assert forall|x: int, y: int| 0 <= x < y < rest.len() implies EligKey::kless(
                #[trigger] rest[x],
                #[trigger] rest[y],
            ) by {
                lemma_ascending_at::<EligKey>(l, x + 1, y + 1);
            }
        }
        if due(l[0], now) {
            let e = due_keys(rest, now, (max - 1) as nat);
            let d = due_keys(l, now, max);
            lemma_due_ascends(rest, now, (max - 1) as nat);
            lemma_due_keys(rest, now, (max - 1) as nat);
            assert(d =~= seq![l[0]] + e);
            assert forall|x: int, y: int| 0 <= x < y < d.len() implies EligKey::kless(
                #[trigger] d[x],
                #[trigger] d[y],
            ) by {
                assert(d[y] == e[y - 1]);
                if x == 0 {
                    assert(e.to_set().contains(e[y - 1]));
                    assert(rest.to_set().contains(e[y - 1]));
                    let j = choose|j: int| 0 <= j < rest.len() && rest[j] == e[y - 1];
                    lemma_ascending_at::<EligKey>(l, 0, j + 1);
                } else {
                    assert(d[x] == e[x - 1]);
                    lemma_ascending_at::<EligKey>(e, x - 1, y - 1);
                }
            }
        } else {
            lemma_due_ascends(rest, now, max);
        }
    }
}

/// The places of the items that may be claimed now.
pub open spec fn waiting(m: Model, now: UtcTimestamp) -> Set<EligV> {
    Set::new(
        |k: EligV| claimable(m, k.item, now) && k == key_of(m.items[k.item], m.priority_model),
    )
}

/// The items that may be claimed now, in the strict order: priced ones first, then by rank, then by
/// creation.
pub open spec fn in_line(m: Model, now: UtcTimestamp) -> Seq<ItemId> {
    items_of(listing_of::<EligKey>(waiting(m, now)))
}

/// What is due, among all places, is what may be claimed now.
proof fn lemma_line(m: Model, now: UtcTimestamp, max: nat)
    requires
        placed(m),
    ensures
        ({
            let line = listing_of::<EligKey>(waiting(m, now));
            &&& ascending::<EligKey>(line)
            &&& line.no_duplicates()
            &&& line.to_set() == waiting(m, now)
            &&& due_keys(listing_of::<EligKey>(m.eligible), now, max) == first_of(line, max)
        }),
{
    lemma_places_finite(m);
    let l = listing_of::<EligKey>(m.eligible);
    lemma_listing_exists::<EligKey>(m.eligible);
    lemma_ascending_distinct::<EligKey>(l);
    let d = due_keys(l, now, l.len());
    lemma_due_keys(l, now, l.len());
    lemma_due_ascends(l, now, l.len());
    lemma_ascending_distinct::<EligKey>(d);
    assert forall|k: EligV| d.to_set().contains(k) <==> waiting(m, now).contains(k) by {
        if d.to_set().contains(k) {
            let i = choose|i: int| 0 <= i < d.len() && d[i] == k;
            assert(due(d[i], now));
            assert(l.to_set().contains(k));
            assert(m.eligible.contains(k));
        }
        if waiting(m, now).contains(k) {
            assert(m.items[k.item].item_id == k.item);
            assert(m.eligible.contains(k));
            assert(l.to_set().contains(k));
            lemma_due_complete(l, now, l.len(), k);
        }
    }
    assert(d.to_set() =~= waiting(m, now));
    lemma_listing_of::<EligKey>(d);
    lemma_due_begins(l, now, max, l.len());
}

/// What a selection offers at a position stands no further than the bound from it in the line.
pub open spec fn near(line: Seq<ItemId>, c: Seq<ItemId>, i: int, bound: u32) -> bool {
    exists|j: int|
        0 <= j < c.len() && #[trigger] line[j] == c[i] && j - i <= bound && i - j <= bound
}

/// The items to claim next are, while the queue is not paused, the first of those that may be claimed,
/// each once and each at most the allowed rank error away from its place in the strict order; without
/// a rank error they stand in that order.
pub proof fn law_first_in_line_are_offered(m: Model, now: UtcTimestamp, max: nat)
    requires
        placed(m),
    ensures
        m.paused ==> candidates(m, now, max) == Seq::<ItemId>::empty(),
        !m.paused ==> {
            let line = in_line(m, now);
            let c = candidates(m, now, max);
            &&& c.len() == first_of(line, max).len()
            &&& c.no_duplicates()
            &&& c.to_set() == first_of(line, max).to_set()
            &&& rank_bound(m) == 0 ==> c == first_of(line, max)
            &&& forall|i: int| 0 <= i < c.len() ==> #[trigger] near(line, c, i, rank_bound(m))
        },
{
    lemma_places_finite(m);
    if !m.paused {
        let d = due_keys(listing_of::<EligKey>(m.eligible), now, max);
        let places = listing_of::<EligKey>(waiting(m, now));
        let line = in_line(m, now);
        let c = candidates(m, now, max);
        let block = rank_bound(m) as nat + 1;
        lemma_line(m, now, max);
        law_selections_name_items_once(m, now, max);
        assert(d.no_duplicates());
        assert(items_of(d) =~= first_of(line, max));
        let t = if rank_bound(m) == 0 {
            d
        } else {
            by_locality(d, block)
        };
        law_relaxed_order_keeps_the_selection(d, block);
        t.unique_seq_to_set();
        d.unique_seq_to_set();
        assert(t.to_set() == d.to_set());
        assert(c == items_of(t));
        assert forall|id: ItemId| c.contains(id) <==> items_of(d).contains(id) by {
            if c.contains(id) {
                let i = choose|i: int| 0 <= i < c.len() && c[i] == id;
                assert(t.to_set().contains(t[i]));
                let j = choose|j: int| 0 <= j < d.len() && d[j] == t[i];
                assert(items_of(d)[j] == id);
            }
            if items_of(d).contains(id) {
                let i = choose|i: int| 0 <= i < d.len() && items_of(d)[i] == id;
                assert(d.to_set().contains(d[i]));
                let j = choose|j: int| 0 <= j < t.len() && t[j] == d[i];
                assert(c[j] == id);
            }
        }
        assert(c.to_set() =~= first_of(line, max).to_set());
        assert(c.len() == first_of(line, max).len());
        assert(rank_bound(m) == 0 ==> c == first_of(line, max));
        assert forall|i: int| 0 <= i < c.len() implies #[trigger] near(line, c, i, rank_bound(m)) by {
            if rank_bound(m) == 0 {
                assert(line[i] == c[i]);
            } else {
                law_rank_error_is_bounded(d, block, i);
                let j = choose|j: int|
                    0 <= j < d.len() && d[j] == by_locality(d, block)[i] && j - i < block && i - j
                        < block;
                assert(places[j] == d[j]);
                assert(line[j] == c[i]);
            }
        }
    }
}

/// Those in line are just the items that may be claimed, each once; priced ones stand before unpriced
/// ones, a lower rank before a higher, and under one rank the one that was created first.
pub proof fn law_line_is_ordered(m: Model, now: UtcTimestamp)
    requires
        placed(m),
    ensures
        forall|id: ItemId| #[trigger] in_line(m, now).contains(id) <==> claimable(m, id, now),
        in_line(m, now).no_duplicates(),
        forall|i: int, j: int|
            0 <= i < j < in_line(m, now).len() ==> elig_lt(
                key_of(m.items[#[trigger] in_line(m, now)[i]], m.priority_model),
                key_of(m.items[#[trigger] in_line(m, now)[j]], m.priority_model),
            ),
{
    lemma_places_finite(m);
    let places = listing_of::<EligKey>(waiting(m, now));
    let line = in_line(m, now);
    lemma_line(m, now, 0);
    assert forall|i: int| 0 <= i < places.len() implies places[i] == key_of(
        m.items[#[trigger] line[i]],
        m.priority_model,
    ) by {
        assert(places.to_set().contains(places[i]));
    }
    assert forall|id: ItemId| #[trigger] line.contains(id) <==> claimable(m, id, now) by {
        if line.contains(id) {
            let i = choose|i: int| 0 <= i < line.len() && line[i] == id;
            assert(places.to_set().contains(places[i]));
        }
        if claimable(m, id, now) {
            let k = key_of(m.items[id], m.priority_model);
            assert(m.items[id].item_id == id);
            assert(waiting(m, now).contains(k));
            assert(places.to_set().contains(k));
            let i = choose|i: int| 0 <= i < places.len() && places[i] == k;
            assert(line[i] == id);
        }
    }
    assert forall|i: int, j: int| 0 <= i < j < line.len() implies elig_lt(
        key_of(m.items[#[trigger] line[i]], m.priority_model),
        key_of(m.items[#[trigger] line[j]], m.priority_model),
    ) by {
        lemma_ascending_at::<EligKey>(places, i, j);
    }
    assert forall|i: int, j: int| 0 <= i < line.len() && 0 <= j < line.len() && i != j implies line[i]
        != line[j] by {
        assert(places[i] != places[j]);
    }
}

proof fn lemma_claims_hold(
    m: Model,
    ids: Seq<ItemId>,
    token: Seq<char>,
    expires: UtcTimestamp,
    worker: Option<Seq<char>>,
    cohort: bool,
    id: ItemId,
)
    requires
        run(m, ids, claim_each(token, expires, worker, cohort)).1 is Ok,
        ids.contains(id) || (m.items.contains_key(id) && m.items[id].state is Leased),
    ensures
        run(m, ids, claim_each(token, expires, worker, cohort)).0.items.contains_key(id),
        run(m, ids, claim_each(token, expires, worker, cohort)).0.items[id].state is Leased,
    decreases ids.len(),
{
    if ids.len() > 0 {
        lemma_claim_moves(m, ids[0], token, expires, worker, cohort);
        let n = claimed(m, ids[0], token, expires, worker, cohort).0;
        let rest = ids.drop_first();
        if ids.contains(id) && ids[0] != id {
            let i = choose|i: int| 0 <= i < ids.len() && ids[i] == id;
            assert(rest[i - 1] == id);
        }
        lemma_claims_hold(n, rest, token, expires, worker, cohort, id);
    }
}

/// Items that one claim took are offered to no other until they come back.
pub proof fn law_claimed_items_are_not_offered(
    m: Model,
    at: Option<UtcTimestamp>,
    pos: Option<PositionV>,
    c: ClaimCommand,
    now: UtcTimestamp,
    max: nat,
    id: ItemId,
)
    requires
        placed(m),
        applied(m, at, pos, QueueCommand::Claim(c)).1 is Ok,
        c.item_ids@.contains(id),
    ensures
        !candidates(applied(m, at, pos, QueueCommand::Claim(c)).0, now, max).contains(id),
{
    let n = applied(m, at, pos, QueueCommand::Claim(c)).0;
    law_places_follow_every_command(m, at, pos, QueueCommand::Claim(c));
    lemma_claims_hold(
        m,
        c.item_ids@,
        c.lease_token@,
        c.lease_expires_at,
        opt_text(c.worker_id),
        false,
        id,
    );
    if candidates(n, now, max).contains(id) {
        law_offered_items_may_be_claimed(n, now, max, id);
    }
}

/// The change of a gate moves items in and out of the order, and changes no item: neither its version
/// nor since when it has been eligible.
pub proof fn law_gates_change_no_item(
    m: Model,
    at: Option<UtcTimestamp>,
    pos: Option<PositionV>,
    g: GateChange,
)
    ensures
        applied(m, at, pos, QueueCommand::SetGates(g)).1 is Ok,
        applied(m, at, pos, QueueCommand::SetGates(g)).0.items == m.items,
        applied(m, at, pos, QueueCommand::SetGates(g)).0.metrics == m.metrics,
{
    let keys = texts(g.gate_keys@);
    let n = Model { blocked_gates: gates_after(m.blocked_gates, keys, g.blocked), ..m };
    lemma_gates_frame(n, listing_of::<u64>(under_gates(m, keys)), m.blocked_gates);
}

/// A retry sends an item back only while it has deliveries left: one that has used them up fails.
pub proof fn law_spent_retries_fail(
    m: Model,
    o: FinalizeOutcome,
    at: Option<UtcTimestamp>,
    pos: Option<PositionV>,
)
    requires
        o.kind is Retry,
        finalized(m, o, at, pos).1 is Ok,
    ensures
        finalized(m, o, at, pos).0.items[o.item_id].state == if m.items[o.item_id].attempt_count
            >= m.items[o.item_id].max_attempts {
            ItemState::Failed
        } else {
            ItemState::Pending
        },
{
}

/// A recurring series goes on until its end: a rearm for a later time completes the item.
pub proof fn law_series_end(
    m: Model,
    o: FinalizeOutcome,
    at: Option<UtcTimestamp>,
    pos: Option<PositionV>,
)
    requires
        o.kind is Rearm,
        finalized(m, o, at, pos).1 is Ok,
    ensures
        finalized(m, o, at, pos).0.items[o.item_id].state == if m.recurrence.mode is Recurring
            && m.recurrence.until is Some && o.not_before is Some && ts_lt(m.recurrence.until->Some_0, o.not_before->Some_0) {
            ItemState::Complete
        } else {
            ItemState::Pending
        },
{
}

/// What a queue holds beside its items.
pub open spec fn beside(m: Model) -> (Map<Seq<u8>, Seq<u8>>, Map<Seq<u8>, u64>) {
    (m.side_records, m.instance_fences)
}

proof fn lemma_run_beside<A>(m: Model, xs: Seq<A>, f: spec_fn(Model, A) -> Step)
    requires
        forall|n: Model, a: A| beside((#[trigger] f(n, a)).0) == beside(n),
    ensures
        beside(run(m, xs, f).0) == beside(m),
    decreases xs.len(),
{
    if xs.len() > 0 {
        lemma_run_beside(f(m, xs[0]).0, xs.drop_first(), f);
    }
}

proof fn lemma_indexing_beside()
    ensures
        forall|m: Model, id: ItemId, keys: Seq<(Seq<char>, Seq<u8>)>|
            beside(#[trigger] indexed(m, id, keys)) == beside(m),
        forall|m: Model, id: ItemId, keys: Seq<(Seq<char>, Seq<u8>)>|
            beside(#[trigger] unindexed(m, id, keys)) == beside(m),
{
    assert forall|m: Model, id: ItemId, keys: Seq<(Seq<char>, Seq<u8>)>| beside(
        #[trigger] indexed(m, id, keys),
    ) == beside(m) by {
        lemma_indexed_frame(m, id, keys);
    }
    assert forall|m: Model, id: ItemId, keys: Seq<(Seq<char>, Seq<u8>)>| beside(
        #[trigger] unindexed(m, id, keys),
    ) == beside(m) by {
        lemma_indexed_frame(m, id, keys);
    }
}

proof fn lemma_gates_beside(m: Model, keys: Seq<Seq<char>>, blocked: bool)
    ensures
        beside(gates_changed(m, keys, blocked).0) == beside(m),
{
    let n = Model { blocked_gates: gates_after(m.blocked_gates, keys, blocked), ..m };
    lemma_gates_frame(n, listing_of::<u64>(under_gates(m, keys)), m.blocked_gates);
}

proof fn lemma_insert_beside(m: Model, p: PushV, at: Option<UtcTimestamp>)
    ensures
        beside(inserted(m, p, at).0) == beside(m),
{
    lemma_indexing_beside();
}

proof fn lemma_update_beside(m: Model, c: UpdateFieldsCommand, at: Option<UtcTimestamp>)
    ensures
        beside(updated(m, c, at).0) == beside(m),
{
    lemma_indexing_beside();
}

proof fn lemma_purge_beside(m: Model, id: ItemId)
    ensures
        beside(purged(m, id).0) == beside(m),
{
    lemma_indexing_beside();
}

proof fn lemma_mutation_beside(
    m: Model,
    x: ResolvedItemMutation,
    at: Option<UtcTimestamp>,
    pos: Option<PositionV>,
)
    ensures
        beside(mutated(m, x, at, pos).0) == beside(m),
{
    match x.action {
        ResolvedItemMutationAction::Purge => {
            lemma_purge_beside(m, x.item_id);
        },
        ResolvedItemMutationAction::Replace(v) => {
            lemma_indexing_beside();
        },
    }
}

proof fn lemma_supersede_beside(m: Model, c: ReplacePendingCommand, at: Option<UtcTimestamp>)
    ensures
        beside(superseded(m, c, at).0) == beside(m),
{
    lemma_indexing_beside();
}

/// The commands about leases.
proof fn lemma_leases_beside(
    m: Model,
    at: Option<UtcTimestamp>,
    pos: Option<PositionV>,
    cmd: QueueCommand,
)
    requires
        cmd is Claim || cmd is CohortClaim || cmd is RenewLease || cmd is ReassignLease || cmd
            is LeaseExpired || cmd is FenceLease || cmd is UnfenceLease,
    ensures
        beside(applied(m, at, pos, cmd).0) == beside(m),
{
    match cmd {
        QueueCommand::Claim(c) => {
            lemma_run_beside(
                m,
                c.item_ids@,
                claim_each(c.lease_token@, c.lease_expires_at, opt_text(c.worker_id), false),
            );
        },
        QueueCommand::CohortClaim(c) => {
            lemma_run_beside(
                m,
                c.item_ids@,
                claim_each(c.lease_token@, c.lease_expires_at, None, true),
            );
        },
        QueueCommand::RenewLease(c) => {
            lemma_run_beside(m, c.item_ids@, renew_each(c.lease_expires_at));
        },
        QueueCommand::ReassignLease(c) => {
            lemma_run_beside(m, c.item_ids@, reassign_each(c.lease_token@, c.lease_expires_at));
        },
        QueueCommand::LeaseExpired(ids) => {
            lemma_run_beside(m, ids@, lapse_each());
        },
        QueueCommand::FenceLease(ids) => {
            lemma_run_beside(m, ids@, fence_each(true));
        },
        QueueCommand::UnfenceLease(ids) => {
            lemma_run_beside(m, ids@, fence_each(false));
        },
        _ => {},
    }
}

/// Side records and fences outlive the work beside them: only the commands that are about them change
/// them.
pub proof fn law_side_records_outlive_work(
    m: Model,
    at: Option<UtcTimestamp>,
    pos: Option<PositionV>,
    cmd: QueueCommand,
)
    requires
        !(cmd is WriteSideRecords),
        !(cmd is AdvanceInstanceFence),
    ensures
        applied(m, at, pos, cmd).0.side_records == m.side_records,
        applied(m, at, pos, cmd).0.instance_fences == m.instance_fences,
{
    match cmd {
        QueueCommand::Push(items) => {
            let f = insert_each(at);
            assert forall|n: Model, a: PushItem| beside((#[trigger] f(n, a)).0) == beside(n) by {
                lemma_insert_beside(n, a@, at);
            }
            lemma_run_beside(m, items@, f);
        },
        QueueCommand::UpdateFields(c) => {
            lemma_update_beside(m, c, at);
        },
        QueueCommand::UpdateFieldsBatch(cs) => {
            let f = update_each(at);
            assert forall|n: Model, a: UpdateFieldsCommand| beside((#[trigger] f(n, a)).0)
                == beside(n) by {
                lemma_update_beside(n, a, at);
            }
            lemma_run_beside(m, cs@, f);
        },
        QueueCommand::MutateItems(c) => {
            let f = mutate_each(at, pos);
            assert forall|n: Model, a: ResolvedItemMutation| beside((#[trigger] f(n, a)).0)
                == beside(n) by {
                lemma_mutation_beside(n, a, at, pos);
            }
            lemma_run_beside(m, c.items@, f);
            let g = gate_each();
            assert forall|n: Model, a: GateChange| beside((#[trigger] g(n, a)).0) == beside(n) by {
                lemma_gates_beside(n, texts(a.gate_keys@), a.blocked);
            }
            lemma_run_beside(run(m, c.items@, f).0, c.gate_changes@, g);
        },
        QueueCommand::Finalize(os) => {
            lemma_run_beside(m, os@, finalize_each(at, pos));
        },
        QueueCommand::ReplacePending(c) => {
            lemma_supersede_beside(m, c, at);
        },
        QueueCommand::CohortExpired(group) => {
            lemma_run_beside(
                m,
                listing_of::<u64>(live_group(m, group@)),
                cohort_fail_each(at, pos),
            );
        },
        QueueCommand::SetGates(g) => {
            lemma_gates_beside(m, texts(g.gate_keys@), g.blocked);
        },
        QueueCommand::PurgeItems(c) => {
            let f = purge_each();
            assert forall|n: Model, a: ItemId| beside((#[trigger] f(n, a)).0) == beside(n) by {
                lemma_purge_beside(n, a);
            }
            lemma_run_beside(m, c.item_ids@, f);
        },
        QueueCommand::CreateQueue => {},
        QueueCommand::CohortRenewLease(_) => {},
        QueueCommand::CohortFinalize(_) => {},
        QueueCommand::PauseQueue(_) => {},
        QueueCommand::ResumeQueue => {},
        _ => {
            lemma_leases_beside(m, at, pos, cmd);
        },
    }
}

/// A numeral reads back as its number.
pub proof fn law_numerals_read_back(n: nat, limit: nat)
    requires
        n <= limit,
    ensures
        parsed_unsigned(numeral(n), limit) == Some(n),
{
    lemma_numeral_digits(n);
}

proof fn lemma_numeral_digits(n: nat)
    ensures
        numeral(n).len() > 0,
        all_digits(numeral(n)),
        digits_value(numeral(n)) == n,
        numeral(n)[0] != '+',
    decreases n,
{
    let s = numeral(n);
    if n < 10 {
        assert(s.drop_last() =~= Seq::<char>::empty());
        reveal_with_fuel(digits_value, 2);
    } else {
        lemma_numeral_digits(n / 10);
        assert(s.drop_last() =~= numeral(n / 10));
        assert(s[0] == numeral(n / 10)[0]);
        assert forall|i: int| 0 <= i < s.len() implies is_digit(#[trigger] s[i]) by {
            if i < s.len() - 1 {
                assert(s[i] == numeral(n / 10)[i]);
            }
        }
    }
}

/// A live item that was pushed without a key of its own is found by its numeral, with no entry among
/// the keys.
pub proof fn law_default_key_finds_its_item(m: Model, id: ItemId)
    requires
        m.items.contains_key(id),
        !m.items[id].superseded,
        m.items[id].explicit_key is None,
        !m.by_key.contains_key(client_key(m.items[id])),
        keyed(m),
    ensures
        item_for_key(m, client_key(m.items[id])) == Some(id),
{
    law_numerals_read_back(id as nat, u64::MAX as nat);
}

/// A push under the item's own numeral makes no entry among the keys.
pub proof fn law_default_keys_take_no_entry(m: Model, p: PushV, at: Option<UtcTimestamp>)
    requires
        p.client_item_key == numeral(p.item_id as nat),
    ensures
        inserted(m, p, at).0.by_key == m.by_key,
{
    let i = pushed_item(p, m.next_seq, at);
    let n = announced(Model { next_seq: (m.next_seq + 1) as u64, ..m }, i);
    match index_keys(n, i.fields, i.entity) {
        Err(_) => {},
        Ok(keys) => {
            lemma_indexed_frame(n, i.item_id, keys);
        },
    }
}

/// Every item was created under a number that the queue has gone past.
pub open spec fn numbered(m: Model) -> bool {
    forall|id: ItemId| #[trigger]
        m.items.contains_key(id) ==> m.items[id].created_seq < m.next_seq
}

/// The items that are left are named and numbered as before, and the counter stands still.
spec fn names_kept(m: Model, n: Model) -> bool {
    &&& n.next_seq == m.next_seq
    &&& forall|id: ItemId| #[trigger]
        n.items.contains_key(id) ==> m.items.contains_key(id) && n.items[id].created_seq
            == m.items[id].created_seq && n.items[id].explicit_key == m.items[id].explicit_key
            && n.items[id].item_id == m.items[id].item_id
}

proof fn lemma_run_names<A>(m: Model, xs: Seq<A>, f: spec_fn(Model, A) -> Step)
    requires
        forall|n: Model, a: A| names_kept(n, (#[trigger] f(n, a)).0),
    ensures
        names_kept(m, run(m, xs, f).0),
    decreases xs.len(),
{
    if xs.len() > 0 {
        assert(names_kept(m, f(m, xs[0]).0));
        lemma_run_names(f(m, xs[0]).0, xs.drop_first(), f);
    }
}

proof fn lemma_update_names(m: Model, c: UpdateFieldsCommand, at: Option<UtcTimestamp>)
    ensures
        names_kept(m, updated(m, c, at).0),
{
    lemma_update_moves(m, c, at);
    let s = updated(m, c, at);
    if s.1 is Ok {
        let i = m.items[c.item_id];
        let old_keys = index_keys(m, i.fields, i.entity)->Ok_0;
        let new_keys = index_keys(m, updated_fields(i, c), updated_entity(i, c))->Ok_0;
        let p = put(m, c.item_id, updated_item(i, c, at));
        lemma_indexed_frame(p, c.item_id, lacking(old_keys, new_keys));
        let u = unindexed(p, c.item_id, lacking(old_keys, new_keys));
        lemma_indexed_frame(u, c.item_id, lacking(new_keys, old_keys));
        assert(s.0.next_seq == m.next_seq);
    }
}

proof fn lemma_purge_names(m: Model, id: ItemId)
    ensures
        names_kept(m, purged(m, id).0),
{
    if m.items.contains_key(id) {
        let i = m.items[id];
        let n = Model { items: m.items.remove(id), ..m };
        assert forall|u: Model, keys: Seq<(Seq<char>, Seq<u8>)>| (#[trigger] unindexed(
            u,
            i.item_id,
            keys,
        )).items == u.items && unindexed(u, i.item_id, keys).next_seq == u.next_seq by {
            lemma_indexed_frame(u, i.item_id, keys);
        }
        assert(forgotten(n, i).0.items == n.items);
        assert(forgotten(n, i).0.next_seq == n.next_seq);
    }
}

proof fn lemma_mutation_names(
    m: Model,
    x: ResolvedItemMutation,
    at: Option<UtcTimestamp>,
    pos: Option<PositionV>,
)
    ensures
        names_kept(m, mutated(m, x, at, pos).0),
{
    let id = x.item_id;
    match x.action {
        ResolvedItemMutationAction::Purge => {
            lemma_purge_names(m, id);
        },
        ResolvedItemMutationAction::Replace(v) => {
            if m.items.contains_key(id) && index_keys(m, m.items[id].fields, m.items[id].entity) is Ok {
                let i = m.items[id];
                let old_keys = index_keys(m, i.fields, i.entity)->Ok_0;
                let n = withdrawn(m, id, i, ends_lease(i, v));
                if values_keys(n, v) is Ok {
                    let new_keys = values_keys(n, v)->Ok_0;
                    let p = put(n, id, replaced_item(i, v, ends_lease(i, v), at, pos));
                    lemma_indexed_frame(p, id, lacking(old_keys, new_keys));
                    let u = unindexed(p, id, lacking(old_keys, new_keys));
                    lemma_indexed_frame(u, id, lacking(new_keys, old_keys));
                    assert(replaced(m, id, v, at, pos).0.items == p.items);
                }
            }
        },
    }
}

proof fn lemma_gates_names(m: Model, keys: Seq<Seq<char>>, blocked: bool)
    ensures
        names_kept(m, gates_changed(m, keys, blocked).0),
{
    let n = Model { blocked_gates: gates_after(m.blocked_gates, keys, blocked), ..m };
    lemma_gates_frame(n, listing_of::<u64>(under_gates(m, keys)), m.blocked_gates);
}

proof fn lemma_insert_numbers(m: Model, p: PushV, at: Option<UtcTimestamp>)
    requires
        numbered(m),
        keys_proper(m),
        m.next_seq < u64::MAX,
    ensures
        numbered(inserted(m, p, at).0),
        keys_proper(inserted(m, p, at).0),
        keyed(m) ==> keyed(inserted(m, p, at).0),
        inserted(m, p, at).0.next_seq == m.next_seq + 1,
{
    let i = pushed_item(p, m.next_seq, at);
    let n = announced(Model { next_seq: (m.next_seq + 1) as u64, ..m }, i);
    assert(n.items == m.items);
    match index_keys(n, i.fields, i.entity) {
        Err(_) => {},
        Ok(keys) => {
            lemma_indexed_frame(n, i.item_id, keys);
        },
    }
}

proof fn lemma_push_numbers(m: Model, items: Seq<PushItem>, at: Option<UtcTimestamp>)
    requires
        numbered(m),
        keys_proper(m),
        m.next_seq + items.len() <= u64::MAX,
    ensures
        numbered(run(m, items, insert_each(at)).0),
        keys_proper(run(m, items, insert_each(at)).0),
        keyed(m) ==> keyed(run(m, items, insert_each(at)).0),
        run(m, items, insert_each(at)).0.next_seq <= m.next_seq + items.len(),
    decreases items.len(),
{
    if items.len() > 0 {
        lemma_insert_numbers(m, items[0]@, at);
        lemma_push_numbers(inserted(m, items[0]@, at).0, items.drop_first(), at);
    }
}

/// How often a command moves the creation counter.
pub open spec fn creations(cmd: QueueCommand) -> nat {
    match cmd {
        QueueCommand::Push(items) => items@.len(),
        QueueCommand::ReplacePending(_) => 1,
        _ => 0,
    }
}

proof fn lemma_supersede_numbers(m: Model, c: ReplacePendingCommand, at: Option<UtcTimestamp>)
    requires
        numbered(m),
        keys_proper(m),
        m.next_seq < u64::MAX,
    ensures
        numbered(superseded(m, c, at).0),
        keys_proper(superseded(m, c, at).0),
        keyed(m) ==> keyed(superseded(m, c, at).0),
        superseded(m, c, at).0.next_seq <= m.next_seq + 1,
{
    let id = c.superseded_item_id;
    if m.items.contains_key(id) {
        let i = m.items[id];
        match index_keys(m, i.fields, i.entity) {
            Err(_) => {},
            Ok(keys) => {
                let m1 = put(m, id, Item { superseded: true, ..i });
                let m2 = leave_if(m1, i.state is Pending, i);
                let m3 = if i.superseded {
                    m2
                } else {
                    Model { metrics: uncounted(m2.metrics, i.state), ..m2 }
                };
                lemma_indexed_frame(m3, id, keys);
                let m4 = regated(unindexed(m3, id, keys), id, i.gate_keys, Seq::empty());
                assert(m4.items == m1.items && m4.next_seq == m.next_seq);
                lemma_insert_numbers(
                    Model { by_key: m4.by_key.remove(c.client_item_key@), ..m4 },
                    c.replacement@,
                    at,
                );
            },
        }
    } else {
        lemma_insert_numbers(
            Model { by_key: m.by_key.remove(c.client_item_key@), ..m },
            c.replacement@,
            at,
        );
    }
}

proof fn lemma_claims_names(
    m: Model,
    ids: Seq<ItemId>,
    token: Seq<char>,
    expires: UtcTimestamp,
    worker: Option<Seq<char>>,
    cohort: bool,
)
    ensures
        names_kept(m, run(m, ids, claim_each(token, expires, worker, cohort)).0),
{
    lemma_run_names(m, ids, claim_each(token, expires, worker, cohort));
}

proof fn lemma_outcomes_names(
    m: Model,
    os: Seq<FinalizeOutcome>,
    at: Option<UtcTimestamp>,
    pos: Option<PositionV>,
)
    ensures
        names_kept(m, run(m, os, finalize_each(at, pos)).0),
{
    lemma_run_names(m, os, finalize_each(at, pos));
}

/// The commands on leases.
proof fn lemma_lease_names(
    m: Model,
    at: Option<UtcTimestamp>,
    pos: Option<PositionV>,
    cmd: QueueCommand,
)
    requires
        creations(cmd) == 0,
        !(cmd is Push || cmd is UpdateFields || cmd is UpdateFieldsBatch || cmd is MutateItems || cmd is SetGates
            || cmd is WriteSideRecords || cmd is PurgeItems),
    ensures
        names_kept(m, applied(m, at, pos, cmd).0),
{
    match cmd {
        QueueCommand::Claim(c) => {
            lemma_claims_names(
                m,
                c.item_ids@,
                c.lease_token@,
                c.lease_expires_at,
                opt_text(c.worker_id),
                false,
            );
        },
        QueueCommand::CohortClaim(c) => {
            lemma_claims_names(m, c.item_ids@, c.lease_token@, c.lease_expires_at, None, true);
        },
        QueueCommand::RenewLease(c) => {
            lemma_run_names(m, c.item_ids@, renew_each(c.lease_expires_at));
        },
        QueueCommand::ReassignLease(c) => {
            lemma_run_names(m, c.item_ids@, reassign_each(c.lease_token@, c.lease_expires_at));
        },
        QueueCommand::Finalize(os) => {
            lemma_outcomes_names(m, os@, at, pos);
        },
        QueueCommand::LeaseExpired(ids) => {
            lemma_run_names(m, ids@, lapse_each());
        },
        QueueCommand::CohortExpired(group) => {
            lemma_run_names(
                m,
                listing_of::<u64>(live_group(m, group@)),
                cohort_fail_each(at, pos),
            );
        },
        QueueCommand::FenceLease(ids) => {
            lemma_run_names(m, ids@, fence_each(true));
        },
        QueueCommand::UnfenceLease(ids) => {
            lemma_run_names(m, ids@, fence_each(false));
        },
        _ => {},
    }
}

/// Whatever a command does, items stay under their identifiers and keep the numbers they were created
/// under, new ones get numbers that no other has had, and no item stores the key that it has anyway.
pub proof fn law_names_and_numbers_stand(
    m: Model,
    at: Option<UtcTimestamp>,
    pos: Option<PositionV>,
    cmd: QueueCommand,
)
    requires
        numbered(m),
        keys_proper(m),
        m.next_seq + creations(cmd) <= u64::MAX,
    ensures
        numbered(applied(m, at, pos, cmd).0),
        keys_proper(applied(m, at, pos, cmd).0),
        keyed(m) ==> keyed(applied(m, at, pos, cmd).0),
        applied(m, at, pos, cmd).0.next_seq <= m.next_seq + creations(cmd),
{
    let end = applied(m, at, pos, cmd).0;
    match cmd {
        QueueCommand::Push(items) => {
            lemma_push_numbers(m, items@, at);
        },
        QueueCommand::ReplacePending(c) => {
            lemma_supersede_numbers(m, c, at);
        },
        QueueCommand::UpdateFields(c) => {
            lemma_update_names(m, c, at);
        },
        QueueCommand::UpdateFieldsBatch(cs) => {
            let f = update_each(at);
            assert forall|n: Model, a: UpdateFieldsCommand| names_kept(n, (#[trigger] f(n, a)).0) by {
                lemma_update_names(n, a, at);
            }
            lemma_run_names(m, cs@, f);
        },
        QueueCommand::MutateItems(c) => {
            let f = mutate_each(at, pos);
            assert forall|n: Model, a: ResolvedItemMutation| names_kept(n, (#[trigger] f(n, a)).0) by {
                lemma_mutation_names(n, a, at, pos);
            }
            lemma_run_names(m, c.items@, f);
            let g = gate_each();
            assert forall|n: Model, a: GateChange| names_kept(n, (#[trigger] g(n, a)).0) by {
                lemma_gates_names(n, texts(a.gate_keys@), a.blocked);
            }
            lemma_run_names(run(m, c.items@, f).0, c.gate_changes@, g);
        },
        QueueCommand::SetGates(g) => {
            lemma_gates_names(m, texts(g.gate_keys@), g.blocked);
        },
        QueueCommand::WriteSideRecords(rs) => {
            lemma_run_names(m, rs@, side_each());
        },
        QueueCommand::PurgeItems(c) => {
            let f = purge_each();
            assert forall|n: Model, a: ItemId| names_kept(n, (#[trigger] f(n, a)).0) by {
                lemma_purge_names(n, a);
            }
            lemma_run_names(m, c.item_ids@, f);
        },
        _ => {
            lemma_lease_names(m, at, pos, cmd);
        },
    }
    if !(cmd is Push || cmd is ReplacePending) {
        assert(names_kept(m, end));
    }
}

} // verus!
