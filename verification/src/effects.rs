//! What each command makes of the items that it names, field by field.

use crate::apply::{lemma_gates_frame, lemma_indexed_frame};
use crate::consistency::{placed, stands};
use crate::history::{lemma_claim_moves, lemma_finalize_moves, lemma_lapse_moves, lemma_reassign_moves, lemma_renew_moves, lemma_update_moves};
use crate::item::{Item, PushV, pushed_item};
use crate::model::{Model, Step, announced, applied, claim_each, cohort_fail_each, ends_lease, fence_each, finalize_each, gates_after, gates_changed, index_keys, insert_each, inserted, lacking, lapse_each, live_group, mutate_each, purge_each, purged, put, reassign_each, renew_each, replaced, replaced_item, run, under_gates, unindexed, update_each, updated, values_keys, withdrawn};
use crate::order::{lemma_ascending_distinct, lemma_listing_exists, listing_of};
use crate::places::law_places_follow_every_command;
use crate::reads::candidates;
use crate::text::{numeral, opt_text, texts};
use crate::types::{AdvanceInstanceFenceCommand, ClaimCommand, CohortClaimCommand, ErrorV, FinalizeOutcome, GateChange, ItemId, ItemState, NotBeforeUpdate, PayloadUpdate, PositionV, PriorityUpdate, PurgeItemsCommand, PushItem, QueueCommand, ReassignLeaseCommand, RecurrencePolicy, RenewLeaseCommand, ReplacePendingCommand, ResolvedItemMutation, ResolvedItemMutationAction, SideRecord, UpdateFieldsCommand, UtcTimestamp, field_bytes, metadata_of, opt_bytes, opt_doc, opt_priority};
use vstd::prelude::*;

verus! {

/// A moment as a count of nanoseconds.
pub open spec fn instant(t: UtcTimestamp) -> int {
    t.seconds * 1_000_000_000 + t.nanoseconds
}

/// The nanoseconds of a moment are less than a second.
pub open spec fn proper(t: UtcTimestamp) -> bool {
    t.nanoseconds < 1_000_000_000
}

/// The order of moments is that of their nanoseconds.
pub proof fn law_moments_are_ordered_by_their_nanoseconds(a: UtcTimestamp, b: UtcTimestamp)
    requires
        proper(a),
        proper(b),
    ensures
        crate::types::ts_lt(a, b) <==> instant(a) < instant(b),
        crate::types::ts_le(a, b) <==> instant(a) <= instant(b),
        instant(crate::types::ts_max(a, b)) >= instant(a),
        instant(crate::types::ts_max(a, b)) >= instant(b),
        crate::types::ts_max(a, b) == a || crate::types::ts_max(a, b) == b,
{
}

/// Two items hold the same of what clients gave them.
pub open spec fn same_content(a: Item, b: Item) -> bool {
    &&& a.item_id == b.item_id
    &&& a.explicit_key == b.explicit_key
    &&& a.priority == b.priority
    &&& a.group_key == b.group_key
    &&& a.cohort_size == b.cohort_size
    &&& a.payload == b.payload
    &&& a.fields == b.fields
    &&& a.metadata == b.metadata
    &&& a.gate_keys == b.gate_keys
    &&& a.entity == b.entity
    &&& a.max_attempts == b.max_attempts
    &&& a.created_seq == b.created_seq
    &&& a.superseded == b.superseded
}

pub open spec fn same_schedule(a: Item, b: Item) -> bool {
    a.not_before == b.not_before && a.eligible_since == b.eligible_since
}

pub open spec fn same_end(a: Item, b: Item) -> bool {
    a.terminal_at == b.terminal_at && a.terminal_position == b.terminal_position
}

pub open spec fn unleased_item(a: Item) -> bool {
    &&& a.lease_token is None
    &&& a.lease_expires_at is None
    &&& !a.lease_is_cohort
    &&& a.worker_id is None
}

/// A run of steps that each change the item that they name does to each item what its step does.
proof fn lemma_run_effects<A>(
    m: Model,
    xs: Seq<A>,
    f: spec_fn(Model, A) -> Step,
    name: spec_fn(A) -> ItemId,
    effect: spec_fn(A, Item, Item) -> bool,
)
    requires
        run(m, xs, f).1 is Ok,
        xs.map_values(name).no_duplicates(),
        forall|n: Model, a: A|
            (#[trigger] f(n, a)).1 is Ok ==> {
                let x = name(a);
                &&& n.items.contains_key(x) ==> f(n, a).0.items == n.items.insert(
                    x,
                    f(n, a).0.items[x],
                ) && effect(a, n.items[x], f(n, a).0.items[x])
                &&& !n.items.contains_key(x) ==> f(n, a).0.items == n.items
            },
    ensures
        run(m, xs, f).0.items.dom() == m.items.dom(),
        forall|k: int|
            0 <= k < xs.len() && m.items.contains_key(name(#[trigger] xs[k])) ==> effect(
                xs[k],
                m.items[name(xs[k])],
                run(m, xs, f).0.items[name(xs[k])],
            ),
        forall|id: ItemId|
            m.items.contains_key(id) && !xs.map_values(name).contains(id)
                ==> #[trigger] run(m, xs, f).0.items[id] == m.items[id],
    decreases xs.len(),
{
    let names = xs.map_values(name);
    if xs.len() > 0 {
        let rest = xs.drop_first();
        let n = f(m, xs[0]).0;
        let end = run(m, xs, f).0;
        let x = name(xs[0]);
        assert(f(m, xs[0]).1 is Ok);
        assert(rest.map_values(name) =~= names.drop_first());
        assert(rest.map_values(name).no_duplicates());
        lemma_run_effects(n, rest, f, name, effect);
        assert(n.items.dom() =~= m.items.dom());
        assert(names[0] == x);
        assert(!rest.map_values(name).contains(x)) by {
            if rest.map_values(name).contains(x) {
                let j = choose|j: int|
                    0 <= j < rest.map_values(name).len() && rest.map_values(name)[j] == x;
                assert(names[j + 1] == x);
            }
        }
        assert forall|k: int|
            0 <= k < xs.len() && m.items.contains_key(name(#[trigger] xs[k])) implies effect(
            xs[k],
            m.items[name(xs[k])],
            end.items[name(xs[k])],
        ) by {
            if k == 0 {
                assert(end.items[x] == n.items[x]);
            } else {
                assert(rest[k - 1] == xs[k]);
                assert(names[k] == name(xs[k]));
                assert(name(xs[k]) != x);
                assert(effect(
                    rest[k - 1],
                    n.items[name(rest[k - 1])],
                    end.items[name(rest[k - 1])],
                ));
            }
        }
        assert forall|id: ItemId|
            m.items.contains_key(id) && !names.contains(id) implies #[trigger] end.items[id]
            == m.items[id] by {
            assert(id != x) by {
                assert(names.contains(names[0]));
            }
            if rest.map_values(name).contains(id) {
                let j = choose|j: int|
                    0 <= j < rest.map_values(name).len() && rest.map_values(name)[j] == id;
                assert(names[j + 1] == id);
            }
        }
    }
}

/// Where every step fails on an item that is not there, a run that succeeds found all of them.
proof fn lemma_run_found<A>(
    m: Model,
    xs: Seq<A>,
    f: spec_fn(Model, A) -> Step,
    name: spec_fn(A) -> ItemId,
)
    requires
        run(m, xs, f).1 is Ok,
        forall|n: Model, a: A|
            (#[trigger] f(n, a)).1 is Ok ==> n.items.contains_key(name(a)) && f(n, a).0.items.dom()
                == n.items.dom(),
    ensures
        forall|k: int| 0 <= k < xs.len() ==> m.items.contains_key(name(#[trigger] xs[k])),
    decreases xs.len(),
{
    if xs.len() > 0 {
        let rest = xs.drop_first();
        let n = f(m, xs[0]).0;
        assert(f(m, xs[0]).1 is Ok);
        lemma_run_found(n, rest, f, name);
        assert forall|k: int| 0 <= k < xs.len() implies m.items.contains_key(
            name(#[trigger] xs[k]),
        ) by {
            if k > 0 {
                assert(rest[k - 1] == xs[k]);
                assert(n.items.dom().contains(name(rest[k - 1])));
            }
        }
    }
}

/// A claimed item was pending and nothing had replaced it. It is leased now under the token of the
/// claim, until the time of the claim, to the worker of the claim, which counts as a delivery; all else
/// stays.
pub open spec fn leased_to(
    b: Item,
    a: Item,
    token: Seq<char>,
    until: UtcTimestamp,
    worker: Option<Seq<char>>,
    cohort: bool,
) -> bool {
    &&& b.state is Pending && !b.superseded
    &&& a.state is Leased
    &&& a.lease_token == Some(token)
    &&& a.lease_expires_at == Some(until)
    &&& a.lease_is_cohort == cohort
    &&& a.worker_id == worker
    &&& a.attempt_count == (b.attempt_count + 1) as u32
    &&& a.item_version == (b.item_version + 1) as u64
    &&& a.fenced == b.fenced
    &&& same_content(a, b)
    &&& same_schedule(a, b)
    &&& same_end(a, b)
}

/// What a claim does to the items that it names, and that it touches no other.
pub proof fn law_claims_lease_items(
    m: Model,
    at: Option<UtcTimestamp>,
    pos: Option<PositionV>,
    c: ClaimCommand,
)
    requires
        applied(m, at, pos, QueueCommand::Claim(c)).1 is Ok,
        c.item_ids@.no_duplicates(),
    ensures
        ({
            let n = applied(m, at, pos, QueueCommand::Claim(c)).0;
            &&& n.items.dom() == m.items.dom()
            &&& forall|id: ItemId| #[trigger]
                c.item_ids@.contains(id) ==> m.items.contains_key(id) && leased_to(
                    m.items[id],
                    n.items[id],
                    c.lease_token@,
                    c.lease_expires_at,
                    opt_text(c.worker_id),
                    false,
                )
            &&& forall|id: ItemId|
                m.items.contains_key(id) && !c.item_ids@.contains(id) ==> #[trigger] n.items[id]
                    == m.items[id]
        }),
{
    lemma_claims(m, c.item_ids@, c.lease_token@, c.lease_expires_at, opt_text(c.worker_id), false);
}

proof fn lemma_claims(
    m: Model,
    ids: Seq<ItemId>,
    token: Seq<char>,
    until: UtcTimestamp,
    worker: Option<Seq<char>>,
    cohort: bool,
)
    requires
        run(m, ids, claim_each(token, until, worker, cohort)).1 is Ok,
        ids.no_duplicates(),
    ensures
        ({
            let n = run(m, ids, claim_each(token, until, worker, cohort)).0;
            &&& n.items.dom() == m.items.dom()
            &&& forall|id: ItemId| #[trigger]
                ids.contains(id) ==> m.items.contains_key(id) && leased_to(
                    m.items[id],
                    n.items[id],
                    token,
                    until,
                    if cohort {
                        m.items[id].worker_id
                    } else {
                        worker
                    },
                    cohort,
                )
            &&& forall|id: ItemId|
                m.items.contains_key(id) && !ids.contains(id) ==> #[trigger] n.items[id]
                    == m.items[id]
        }),
{
    let f = claim_each(token, until, worker, cohort);
    let name = |a: ItemId| a;
    let effect = |a: ItemId, b: Item, e: Item|
        leased_to(
            b,
            e,
            token,
            until,
            if cohort {
                b.worker_id
            } else {
                worker
            },
            cohort,
        );
    assert(ids.map_values(name) =~= ids);
    assert forall|n: Model, a: ItemId| (#[trigger] f(n, a)).1 is Ok implies {
        let x = name(a);
        &&& n.items.contains_key(x)
        &&& f(n, a).0.items == n.items.insert(x, f(n, a).0.items[x])
        &&& effect(a, n.items[x], f(n, a).0.items[x])
        &&& f(n, a).0.items.dom() == n.items.dom()
    } by {
        lemma_claim_moves(n, a, token, until, worker, cohort);
        assert(f(n, a).0.items.dom() =~= n.items.dom());
    }
    lemma_run_effects(m, ids, f, name, effect);
    lemma_run_found(m, ids, f, name);
    let n = run(m, ids, f).0;
    assert forall|id: ItemId| #[trigger] ids.contains(id) implies m.items.contains_key(id) && effect(
        id,
        m.items[id],
        n.items[id],
    ) by {
        let k = choose|k: int| 0 <= k < ids.len() && ids[k] == id;
        assert(m.items.contains_key(name(ids[k])));
        assert(effect(ids[k], m.items[name(ids[k])], n.items[name(ids[k])]));
    }
}

/// What the claim of a cohort does to the items that it names: as a claim, but the worker stays.
pub proof fn law_cohort_claims_lease_items(
    m: Model,
    at: Option<UtcTimestamp>,
    pos: Option<PositionV>,
    c: CohortClaimCommand,
)
    requires
        applied(m, at, pos, QueueCommand::CohortClaim(c)).1 is Ok,
        c.item_ids@.no_duplicates(),
    ensures
        ({
            let n = applied(m, at, pos, QueueCommand::CohortClaim(c)).0;
            &&& n.items.dom() == m.items.dom()
            &&& forall|id: ItemId| #[trigger]
                c.item_ids@.contains(id) ==> m.items.contains_key(id) && leased_to(
                    m.items[id],
                    n.items[id],
                    c.lease_token@,
                    c.lease_expires_at,
                    m.items[id].worker_id,
                    true,
                )
            &&& forall|id: ItemId|
                m.items.contains_key(id) && !c.item_ids@.contains(id) ==> #[trigger] n.items[id]
                    == m.items[id]
        }),
{
    lemma_claims(m, c.item_ids@, c.lease_token@, c.lease_expires_at, None, true);
}

/// What a renewal does to the items that it names: the expiry moves, and nothing else but the version.
pub proof fn law_renewals_move_the_expiry(
    m: Model,
    at: Option<UtcTimestamp>,
    pos: Option<PositionV>,
    c: RenewLeaseCommand,
)
    requires
        applied(m, at, pos, QueueCommand::RenewLease(c)).1 is Ok,
        c.item_ids@.no_duplicates(),
    ensures
        ({
            let n = applied(m, at, pos, QueueCommand::RenewLease(c)).0;
            &&& n.items.dom() == m.items.dom()
            &&& forall|id: ItemId| #[trigger]
                c.item_ids@.contains(id) ==> m.items.contains_key(id) && n.items[id] == (Item {
                    lease_expires_at: Some(c.lease_expires_at),
                    item_version: (m.items[id].item_version + 1) as u64,
                    ..m.items[id]
                }) && n.by_expiry.contains((c.lease_expires_at, id))
            &&& forall|id: ItemId|
                m.items.contains_key(id) && !c.item_ids@.contains(id) ==> #[trigger] n.items[id]
                    == m.items[id]
        }),
{
    let f = renew_each(c.lease_expires_at);
    let name = |a: ItemId| a;
    let ids = c.item_ids@;
    let effect = |a: ItemId, b: Item, e: Item|
        e == (Item {
            lease_expires_at: Some(c.lease_expires_at),
            item_version: (b.item_version + 1) as u64,
            ..b
        });
    assert(ids.map_values(name) =~= ids);
    assert forall|n: Model, a: ItemId| (#[trigger] f(n, a)).1 is Ok implies {
        let x = name(a);
        &&& n.items.contains_key(x)
        &&& f(n, a).0.items == n.items.insert(x, f(n, a).0.items[x])
        &&& effect(a, n.items[x], f(n, a).0.items[x])
        &&& f(n, a).0.items.dom() == n.items.dom()
    } by {
        lemma_renew_moves(n, a, c.lease_expires_at);
        assert(f(n, a).0.items.dom() =~= n.items.dom());
    }
    lemma_run_effects(m, ids, f, name, effect);
    lemma_run_found(m, ids, f, name);
    let n = run(m, ids, f).0;
    assert forall|id: ItemId| #[trigger] ids.contains(id) implies m.items.contains_key(id) && effect(
        id,
        m.items[id],
        n.items[id],
    ) by {
        let k = choose|k: int| 0 <= k < ids.len() && ids[k] == id;
        assert(m.items.contains_key(name(ids[k])));
        assert(effect(ids[k], m.items[name(ids[k])], n.items[name(ids[k])]));
    }
    lemma_renewed_expiries(m, ids, c.lease_expires_at);
}

proof fn lemma_renewed_expiries(m: Model, ids: Seq<ItemId>, until: UtcTimestamp)
    requires
        run(m, ids, renew_each(until)).1 is Ok,
    ensures
        forall|id: ItemId|
            ids.contains(id) || m.items.contains_key(id) && m.items[id].lease_expires_at == Some(
                until,
            ) && m.by_expiry.contains((until, id)) ==> #[trigger] run(
                m,
                ids,
                renew_each(until),
            ).0.by_expiry.contains((until, id)),
    decreases ids.len(),
{
    if ids.len() > 0 {
        let f = renew_each(until);
        let n = f(m, ids[0]).0;
        let rest = ids.drop_first();
        lemma_renewed_expiries(n, rest, until);
        assert forall|id: ItemId|
            ids.contains(id) || m.items.contains_key(id) && m.items[id].lease_expires_at == Some(
                until,
            ) && m.by_expiry.contains((until, id)) implies #[trigger] run(m, ids, f).0.by_expiry.contains(
            (until, id),
        ) by {
            if ids.contains(id) && id != ids[0] {
                let k = choose|k: int| 0 <= k < ids.len() && ids[k] == id;
                assert(rest[k - 1] == id);
            } else if id == ids[0] {
                assert(n.by_expiry.contains((until, id)));
            }
        }
    }
}

/// What a reassignment does to the items that it names: a new token and expiry, one more delivery, and
/// nothing else but the version.
pub proof fn law_reassignments_change_the_holder(
    m: Model,
    at: Option<UtcTimestamp>,
    pos: Option<PositionV>,
    c: ReassignLeaseCommand,
)
    requires
        applied(m, at, pos, QueueCommand::ReassignLease(c)).1 is Ok,
        c.item_ids@.no_duplicates(),
    ensures
        ({
            let n = applied(m, at, pos, QueueCommand::ReassignLease(c)).0;
            &&& n.items.dom() == m.items.dom()
            &&& forall|id: ItemId| #[trigger]
                c.item_ids@.contains(id) ==> m.items.contains_key(id) && n.items[id] == (Item {
                    lease_token: Some(c.lease_token@),
                    lease_expires_at: Some(c.lease_expires_at),
                    attempt_count: (m.items[id].attempt_count + 1) as u32,
                    item_version: (m.items[id].item_version + 1) as u64,
                    ..m.items[id]
                })
            &&& forall|id: ItemId|
                m.items.contains_key(id) && !c.item_ids@.contains(id) ==> #[trigger] n.items[id]
                    == m.items[id]
        }),
{
    let f = reassign_each(c.lease_token@, c.lease_expires_at);
    let name = |a: ItemId| a;
    let ids = c.item_ids@;
    let effect = |a: ItemId, b: Item, e: Item|
        e == (Item {
            lease_token: Some(c.lease_token@),
            lease_expires_at: Some(c.lease_expires_at),
            attempt_count: (b.attempt_count + 1) as u32,
            item_version: (b.item_version + 1) as u64,
            ..b
        });
    assert(ids.map_values(name) =~= ids);
    assert forall|n: Model, a: ItemId| (#[trigger] f(n, a)).1 is Ok implies {
        let x = name(a);
        &&& n.items.contains_key(x)
        &&& f(n, a).0.items == n.items.insert(x, f(n, a).0.items[x])
        &&& effect(a, n.items[x], f(n, a).0.items[x])
        &&& f(n, a).0.items.dom() == n.items.dom()
    } by {
        lemma_reassign_moves(n, a, c.lease_token@, c.lease_expires_at);
        assert(f(n, a).0.items.dom() =~= n.items.dom());
    }
    lemma_run_effects(m, ids, f, name, effect);
    lemma_run_found(m, ids, f, name);
    let n = run(m, ids, f).0;
    assert forall|id: ItemId| #[trigger] ids.contains(id) implies m.items.contains_key(id) && effect(
        id,
        m.items[id],
        n.items[id],
    ) by {
        let k = choose|k: int| 0 <= k < ids.len() && ids[k] == id;
        assert(m.items.contains_key(name(ids[k])));
        assert(effect(ids[k], m.items[name(ids[k])], n.items[name(ids[k])]));
    }
}

/// What the expiry of leases does to the items that it names: they were leased, and are pending again
/// without a lease.
pub proof fn law_run_out_leases_go_back(
    m: Model,
    at: Option<UtcTimestamp>,
    pos: Option<PositionV>,
    ids: Vec<ItemId>,
)
    requires
        applied(m, at, pos, QueueCommand::LeaseExpired(ids)).1 is Ok,
        ids@.no_duplicates(),
    ensures
        ({
            let n = applied(m, at, pos, QueueCommand::LeaseExpired(ids)).0;
            &&& n.items.dom() == m.items.dom()
            &&& forall|id: ItemId| #[trigger]
                ids@.contains(id) ==> m.items.contains_key(id) && lapsed_right(
                    m.items[id],
                    n.items[id],
                )
            &&& forall|id: ItemId|
                m.items.contains_key(id) && !ids@.contains(id) ==> #[trigger] n.items[id]
                    == m.items[id]
        }),
{
    let f = lapse_each();
    let name = |a: ItemId| a;
    let effect = |a: ItemId, b: Item, e: Item| lapsed_right(b, e);
    assert(ids@.map_values(name) =~= ids@);
    assert forall|n: Model, a: ItemId| (#[trigger] f(n, a)).1 is Ok implies {
        let x = name(a);
        &&& n.items.contains_key(x)
        &&& f(n, a).0.items == n.items.insert(x, f(n, a).0.items[x])
        &&& effect(a, n.items[x], f(n, a).0.items[x])
        &&& f(n, a).0.items.dom() == n.items.dom()
    } by {
        lemma_lapse_moves(n, a);
        assert(f(n, a).0.items.dom() =~= n.items.dom());
    }
    lemma_run_effects(m, ids@, f, name, effect);
    lemma_run_found(m, ids@, f, name);
    let n = run(m, ids@, f).0;
    assert forall|id: ItemId| #[trigger] ids@.contains(id) implies m.items.contains_key(id)
        && effect(id, m.items[id], n.items[id]) by {
        let k = choose|k: int| 0 <= k < ids@.len() && ids@[k] == id;
        assert(m.items.contains_key(name(ids@[k])));
        assert(effect(ids@[k], m.items[name(ids@[k])], n.items[name(ids@[k])]));
    }
}

/// A leased item is pending again, without its lease; its deliveries, its schedule and its fence stay.
pub open spec fn lapsed_right(b: Item, a: Item) -> bool {
    &&& b.state is Leased && !b.superseded
    &&& a.state is Pending
    &&& unleased_item(a)
    &&& a.attempt_count == b.attempt_count
    &&& a.item_version == (b.item_version + 1) as u64
    &&& a.fenced == b.fenced
    &&& same_content(a, b)
    &&& same_schedule(a, b)
    &&& same_end(a, b)
}

/// The next occurrence of a recurring queue would lie past the end of its series.
pub open spec fn past_the_series(r: RecurrencePolicy, next: Option<UtcTimestamp>) -> bool {
    &&& r.mode is Recurring
    &&& next is Some
    &&& r.until is Some
    &&& (r.until->Some_0.seconds < next->Some_0.seconds || (r.until->Some_0.seconds
        == next->Some_0.seconds && r.until->Some_0.nanoseconds < next->Some_0.nanoseconds))
}

/// The later of two moments.
pub open spec fn is_later_of(t: UtcTimestamp, a: UtcTimestamp, b: UtcTimestamp) -> bool {
    &&& t == a || t == b
    &&& t.seconds >= a.seconds && t.seconds >= b.seconds
    &&& t.seconds == a.seconds ==> t.nanoseconds >= a.nanoseconds
    &&& t.seconds == b.seconds ==> t.nanoseconds >= b.nanoseconds
}

/// An item went from one state to another as its outcome says. It was leased and has no lease left. A
/// completed one is complete and a failed one failed, at the time and place of the command. A retry goes
/// back to pending for its time, but fails where its deliveries are used up. A release goes back as it
/// was. A rearm goes back to pending for its next time with its deliveries forgotten, but completes where
/// that time is past the end of the series.
pub open spec fn settled_right(
    r: RecurrencePolicy,
    at: Option<UtcTimestamp>,
    pos: Option<PositionV>,
    o: FinalizeOutcome,
    b: Item,
    a: Item,
) -> bool {
    let now = match at {
        Some(t) => t,
        None => b.eligible_since,
    };
    let over = a.state is Complete || a.state is Failed;
    &&& b.state is Leased && !b.superseded
    &&& unleased_item(a)
    &&& !a.fenced
    &&& a.item_version == (b.item_version + 1) as u64
    &&& same_content(a, b)
    &&& o.kind is Complete ==> a.state is Complete
    &&& o.kind is Fail ==> a.state is Failed
    &&& o.kind is Retry ==> (if b.attempt_count >= b.max_attempts {
        a.state is Failed
    } else {
        a.state is Pending
    })
    &&& o.kind is Release ==> a.state is Pending
    &&& o.kind is Rearm ==> (if past_the_series(r, o.not_before) {
        a.state is Complete
    } else {
        a.state is Pending
    })
    &&& over ==> a.terminal_at == at && a.terminal_position == pos && same_schedule(a, b)
    &&& !over ==> same_end(a, b)
    &&& !(o.kind is Rearm && a.state is Pending) ==> a.attempt_count == b.attempt_count
    &&& a.state is Pending && o.kind is Release ==> same_schedule(a, b)
    &&& a.state is Pending && o.kind is Retry ==> (match o.not_before {
        Some(nb) => a.not_before == Some(nb) && a.eligible_since == nb,
        None => same_schedule(a, b),
    })
    &&& a.state is Pending && o.kind is Rearm ==> a.attempt_count == 0 && (match o.not_before {
        Some(nb) => a.not_before == Some(nb) && is_later_of(a.eligible_since, nb, now),
        None => a.not_before == b.not_before && a.eligible_since == now,
    })
}

/// What outcomes do to the items that they name.
pub proof fn law_outcomes_settle_items(
    m: Model,
    at: Option<UtcTimestamp>,
    pos: Option<PositionV>,
    os: Vec<FinalizeOutcome>,
)
    requires
        applied(m, at, pos, QueueCommand::Finalize(os)).1 is Ok,
        os@.map_values(|o: FinalizeOutcome| o.item_id).no_duplicates(),
    ensures
        ({
            let n = applied(m, at, pos, QueueCommand::Finalize(os)).0;
            &&& n.items.dom() == m.items.dom()
            &&& forall|k: int|
                0 <= k < os@.len() ==> m.items.contains_key((#[trigger] os@[k]).item_id)
                    && settled_right(
                    m.recurrence,
                    at,
                    pos,
                    os@[k],
                    m.items[os@[k].item_id],
                    n.items[os@[k].item_id],
                )
            &&& forall|id: ItemId|
                m.items.contains_key(id) && !os@.map_values(
                    |o: FinalizeOutcome| o.item_id,
                ).contains(id) ==> #[trigger] n.items[id] == m.items[id]
        }),
{
    let f = finalize_each(at, pos);
    let g = |n: Model, o: FinalizeOutcome|
        if n.recurrence == m.recurrence {
            f(n, o)
        } else {
            (n, Err::<(), ErrorV>(ErrorV::NotFound))
        };
    let name = |o: FinalizeOutcome| o.item_id;
    let effect = |o: FinalizeOutcome, b: Item, a: Item| settled_right(m.recurrence, at, pos, o, b, a);
    lemma_same_recurrence(m, os@, at, pos, g);
    assert forall|n: Model, a: FinalizeOutcome| (#[trigger] g(n, a)).1 is Ok implies {
        let x = name(a);
        &&& n.items.contains_key(x)
        &&& g(n, a).0.items == n.items.insert(x, g(n, a).0.items[x])
        &&& effect(a, n.items[x], g(n, a).0.items[x])
        &&& g(n, a).0.items.dom() == n.items.dom()
    } by {
        lemma_finalize_moves(n, a, at, pos);
        assert(g(n, a).0.items.dom() =~= n.items.dom());
    }
    lemma_run_effects(m, os@, g, name, effect);
    lemma_run_found(m, os@, g, name);
    let n = run(m, os@, f).0;
    assert forall|k: int| 0 <= k < os@.len() implies m.items.contains_key((#[trigger] os@[k]).item_id)
        && settled_right(
        m.recurrence,
        at,
        pos,
        os@[k],
        m.items[os@[k].item_id],
        n.items[os@[k].item_id],
    ) by {
        assert(m.items.contains_key(name(os@[k])));
        assert(effect(os@[k], m.items[name(os@[k])], n.items[name(os@[k])]));
    }
}

proof fn lemma_same_recurrence(
    m: Model,
    os: Seq<FinalizeOutcome>,
    at: Option<UtcTimestamp>,
    pos: Option<PositionV>,
    g: spec_fn(Model, FinalizeOutcome) -> Step,
)
    requires
        forall|n: Model, o: FinalizeOutcome|
            n.recurrence == m.recurrence ==> #[trigger] g(n, o) == finalize_each(at, pos)(n, o),
    ensures
        run(m, os, g) == run(m, os, finalize_each(at, pos)),
    decreases os.len(),
{
    if os.len() > 0 {
        let n = finalize_each(at, pos)(m, os[0]).0;
        assert(g(m, os[0]) == finalize_each(at, pos)(m, os[0]));
        assert(n.recurrence == m.recurrence);
        lemma_same_recurrence(n, os.drop_first(), at, pos, g);
    }
}

/// An item that is rearmed for its next occurrence is offered at no moment before it.
pub proof fn law_rearmed_items_wait(
    m: Model,
    at: Option<UtcTimestamp>,
    pos: Option<PositionV>,
    os: Vec<FinalizeOutcome>,
    k: int,
    now: UtcTimestamp,
    max: nat,
)
    requires
        placed(m),
        applied(m, at, pos, QueueCommand::Finalize(os)).1 is Ok,
        os@.map_values(|o: FinalizeOutcome| o.item_id).no_duplicates(),
        0 <= k < os@.len(),
        os@[k].kind is Rearm || os@[k].kind is Retry,
        os@[k].not_before is Some,
        proper(now),
        proper(os@[k].not_before->Some_0),
        instant(now) < instant(os@[k].not_before->Some_0),
    ensures
        !candidates(applied(m, at, pos, QueueCommand::Finalize(os)).0, now, max).contains(
            os@[k].item_id,
        ),
{
    let n = applied(m, at, pos, QueueCommand::Finalize(os)).0;
    law_outcomes_settle_items(m, at, pos, os);
    law_places_follow_every_command(m, at, pos, QueueCommand::Finalize(os));
    assert(m.items.contains_key(os@[k].item_id));
    if candidates(n, now, max).contains(os@[k].item_id) {
        crate::history::law_offered_items_may_be_claimed(n, now, max, os@[k].item_id);
    }
}

/// From its next occurrence on a rearmed item may be claimed, unless a gate holds it back: a selection
/// with room for all offers it.
pub proof fn law_rearmed_items_come_back(
    m: Model,
    at: Option<UtcTimestamp>,
    pos: Option<PositionV>,
    os: Vec<FinalizeOutcome>,
    k: int,
    now: UtcTimestamp,
    max: nat,
)
    requires
        placed(m),
        applied(m, at, pos, QueueCommand::Finalize(os)).1 is Ok,
        os@.map_values(|o: FinalizeOutcome| o.item_id).no_duplicates(),
        0 <= k < os@.len(),
        os@[k].kind is Rearm,
        os@[k].not_before is Some,
        !past_the_series(m.recurrence, os@[k].not_before),
        proper(now),
        proper(os@[k].not_before->Some_0),
        instant(os@[k].not_before->Some_0) <= instant(now),
        ({
            let n = applied(m, at, pos, QueueCommand::Finalize(os)).0;
            &&& !n.paused
            &&& n.eligible.len() <= max
            &&& forall|g: Seq<char>|
                m.items[os@[k].item_id].gate_keys.contains(g) ==> !n.blocked_gates.contains(g)
        }),
    ensures
        candidates(applied(m, at, pos, QueueCommand::Finalize(os)).0, now, max).contains(
            os@[k].item_id,
        ),
{
    let n = applied(m, at, pos, QueueCommand::Finalize(os)).0;
    let id = os@[k].item_id;
    law_outcomes_settle_items(m, at, pos, os);
    law_places_follow_every_command(m, at, pos, QueueCommand::Finalize(os));
    assert(m.items.contains_key(id));
    assert(n.items.dom().contains(id));
    assert(stands(n, n.items[id])) by {
        let keys = n.items[id].gate_keys;
        assert forall|i: int| 0 <= i < keys.len() implies !n.blocked_gates.contains(
            #[trigger] keys[i],
        ) by {
            assert(keys.contains(keys[i]));
        }
    }
    crate::history::law_items_that_may_be_claimed_are_offered(n, now, max, id);
}

/// The item that a push makes: pending, at its first version, with no delivery, no lease and no end, and
/// with all that was pushed. It is eligible since its time, or else since the command.
pub open spec fn pushed_right(p: PushV, seq: u64, at: Option<UtcTimestamp>, a: Item) -> bool {
    &&& a.item_id == p.item_id
    &&& (match a.explicit_key {
        Some(k) => k == p.client_item_key && k != numeral(p.item_id as nat),
        None => p.client_item_key == numeral(p.item_id as nat),
    })
    &&& a.priority == p.priority
    &&& a.not_before == p.not_before
    &&& a.group_key == p.group_key
    &&& a.cohort_size == p.cohort_size
    &&& a.payload == p.payload
    &&& a.fields == p.fields
    &&& a.metadata == p.metadata
    &&& a.gate_keys == p.gate_keys
    &&& a.entity == p.entity
    &&& a.max_attempts == p.max_attempts
    &&& a.state is Pending
    &&& a.item_version == 1
    &&& a.attempt_count == 0
    &&& a.created_seq == seq
    &&& unleased_item(a)
    &&& !a.fenced
    &&& !a.superseded
    &&& a.terminal_at is None
    &&& a.terminal_position is None
    &&& (match (p.not_before, at) {
        (Some(nb), _) => a.eligible_since == nb,
        (None, Some(t)) => a.eligible_since == t,
        (None, None) => a.eligible_since.seconds == 0 && a.eligible_since.nanoseconds == 0,
    })
}

proof fn lemma_insert_effect(m: Model, p: PushV, at: Option<UtcTimestamp>)
    requires
        inserted(m, p, at).1 is Ok,
        m.next_seq < u64::MAX,
    ensures
        ({
            let n = inserted(m, p, at).0;
            &&& n.items == m.items.insert(p.item_id, n.items[p.item_id])
            &&& n.items.contains_key(p.item_id)
            &&& pushed_right(p, m.next_seq, at, n.items[p.item_id])
            &&& n.next_seq == m.next_seq + 1
        }),
{
    let i = pushed_item(p, m.next_seq, at);
    let n = announced(Model { next_seq: (m.next_seq + 1) as u64, ..m }, i);
    let keys = index_keys(n, i.fields, i.entity)->Ok_0;
    lemma_indexed_frame(n, i.item_id, keys);
    assert(inserted(m, p, at).0.items =~= m.items.insert(p.item_id, i));
}

proof fn lemma_pushes(m: Model, items: Seq<PushItem>, at: Option<UtcTimestamp>)
    requires
        run(m, items, insert_each(at)).1 is Ok,
        items.map_values(|p: PushItem| p.item_id).no_duplicates(),
        m.next_seq + items.len() <= u64::MAX,
    ensures
        ({
            let n = run(m, items, insert_each(at)).0;
            &&& forall|k: int|
                0 <= k < items.len() ==> n.items.contains_key((#[trigger] items[k]).item_id)
                    && pushed_right(
                    items[k]@,
                    (m.next_seq + k) as u64,
                    at,
                    n.items[items[k].item_id],
                )
            &&& forall|id: ItemId|
                !items.map_values(|p: PushItem| p.item_id).contains(id) ==> (
                #[trigger] n.items.contains_key(id) <==> m.items.contains_key(id))
            &&& forall|id: ItemId|
                !items.map_values(|p: PushItem| p.item_id).contains(id) && m.items.contains_key(id)
                    ==> #[trigger] n.items[id] == m.items[id]
            &&& n.next_seq == m.next_seq + items.len()
        }),
    decreases items.len(),
{
    let ids = items.map_values(|p: PushItem| p.item_id);
    if items.len() > 0 {
        let f = insert_each(at);
        let first = items[0];
        let rest = items.drop_first();
        assert(f(m, first).1 is Ok);
        lemma_insert_effect(m, first@, at);
        let n1 = f(m, first).0;
        let n = run(m, items, f).0;
        let others = rest.map_values(|p: PushItem| p.item_id);
        assert(others =~= ids.drop_first());
        lemma_pushes(n1, rest, at);
        assert(ids[0] == first.item_id);
        assert(!others.contains(first.item_id)) by {
            if others.contains(first.item_id) {
                let j = choose|j: int| 0 <= j < others.len() && others[j] == first.item_id;
                assert(ids[j + 1] == first.item_id);
            }
        }
        assert(n.items.contains_key(first.item_id) <==> n1.items.contains_key(first.item_id));
        assert(n.items[first.item_id] == n1.items[first.item_id]);
        assert forall|k: int| 0 <= k < items.len() implies n.items.contains_key(
            (#[trigger] items[k]).item_id,
        ) && pushed_right(items[k]@, (m.next_seq + k) as u64, at, n.items[items[k].item_id]) by {
            if k > 0 {
                assert(rest[k - 1] == items[k]);
                assert(n.items.contains_key(rest[k - 1].item_id));
            }
        }
        assert forall|id: ItemId| !ids.contains(id) implies (#[trigger] n.items.contains_key(id)
            <==> m.items.contains_key(id)) && (m.items.contains_key(id) ==> n.items[id]
            == m.items[id]) by {
            assert(id != first.item_id) by {
                assert(ids.contains(ids[0]));
            }
            if others.contains(id) {
                let j = choose|j: int| 0 <= j < others.len() && others[j] == id;
                assert(ids[j + 1] == id);
            }
            assert(n.items.contains_key(id) <==> n1.items.contains_key(id));
        }
    }
}

/// What a push does: each pushed item is there as it was pushed, numbered in the order of the push, and
/// no other item changes.
pub proof fn law_pushes_add_items(
    m: Model,
    at: Option<UtcTimestamp>,
    pos: Option<PositionV>,
    items: Vec<PushItem>,
)
    requires
        applied(m, at, pos, QueueCommand::Push(items)).1 is Ok,
        items@.map_values(|p: PushItem| p.item_id).no_duplicates(),
        m.next_seq + items@.len() <= u64::MAX,
    ensures
        ({
            let n = applied(m, at, pos, QueueCommand::Push(items)).0;
            &&& forall|k: int|
                0 <= k < items@.len() ==> n.items.contains_key((#[trigger] items@[k]).item_id)
                    && pushed_right(
                    items@[k]@,
                    (m.next_seq + k) as u64,
                    at,
                    n.items[items@[k].item_id],
                )
            &&& forall|id: ItemId|
                !items@.map_values(|p: PushItem| p.item_id).contains(id) ==> (
                #[trigger] n.items.contains_key(id) <==> m.items.contains_key(id))
            &&& forall|id: ItemId|
                !items@.map_values(|p: PushItem| p.item_id).contains(id) && m.items.contains_key(id)
                    ==> #[trigger] n.items[id] == m.items[id]
            &&& n.next_seq == m.next_seq + items@.len()
        }),
{
    lemma_pushes(m, items@, at);
}

/// The last of some changes to a field, if any names it.
pub open spec fn last_change(ops: Seq<(String, Option<bytes::Bytes>)>, name: Seq<char>, k: int) -> bool {
    &&& 0 <= k < ops.len()
    &&& ops[k].0@ == name
    &&& forall|j: int| k < j < ops.len() ==> (#[trigger] ops[j]).0@ != name
}

/// What changes make of fields: the last change of a field decides, and a field that no change names
/// stays.
pub open spec fn changed_right(
    before: Map<Seq<char>, Seq<u8>>,
    ops: Seq<(String, Option<bytes::Bytes>)>,
    after: Map<Seq<char>, Seq<u8>>,
) -> bool {
    &&& forall|name: Seq<char>, k: int| #[trigger]
        last_change(ops, name, k) ==> (match ops[k].1 {
            Some(v) => after.contains_key(name) && after[name] == crate::shared::bytes_of(v),
            None => !after.contains_key(name),
        })
    &&& forall|name: Seq<char>|
        (forall|k: int| 0 <= k < ops.len() ==> (#[trigger] ops[k]).0@ != name) ==> (
        #[trigger] after.contains_key(name) <==> before.contains_key(name)) && (
        before.contains_key(name) ==> after[name] == before[name])
}

pub proof fn lemma_field_changes(before: Map<Seq<char>, Seq<u8>>, ops: Seq<(String, Option<bytes::Bytes>)>)
    ensures
        changed_right(before, ops, crate::model::edited_fields(before, ops)),
    decreases ops.len(),
{
    if ops.len() > 0 {
        let rest = ops.drop_last();
        let mid = crate::model::edited_fields(before, rest);
        let after = crate::model::edited_fields(before, ops);
        lemma_field_changes(before, rest);
        assert forall|name: Seq<char>, k: int| #[trigger] last_change(ops, name, k) implies (
        match ops[k].1 {
            Some(v) => after.contains_key(name) && after[name] == crate::shared::bytes_of(v),
            None => !after.contains_key(name),
        }) by {
            if k < ops.len() - 1 {
                assert(ops[ops.len() - 1].0@ != name);
                assert(rest[k] == ops[k]);
                assert forall|j: int| k < j < rest.len() implies (#[trigger] rest[j]).0@ != name by {
                    assert(rest[j] == ops[j]);
                }
                assert(last_change(rest, name, k));
            }
        }
        assert forall|name: Seq<char>|
            (forall|k: int| 0 <= k < ops.len() ==> (#[trigger] ops[k]).0@ != name) implies (
        #[trigger] after.contains_key(name) <==> before.contains_key(name)) && (
        before.contains_key(name) ==> after[name] == before[name]) by {
            assert(ops[ops.len() - 1].0@ != name);
            assert forall|k: int| 0 <= k < rest.len() implies (#[trigger] rest[k]).0@ != name by {
                assert(rest[k] == ops[k]);
            }
            assert(mid.contains_key(name) <==> before.contains_key(name));
        }
    }
}

/// The fields that an update starts from.
pub open spec fn set_or_kept(c: UpdateFieldsCommand, b: Item) -> Map<Seq<char>, Seq<u8>> {
    match c.set_fields {
        Some(f) => field_bytes(*f),
        None => b.fields,
    }
}

/// An item was updated as its command says: whatever the command sets is as it sets it, whatever it
/// keeps is as it was, and neither the state nor the lease nor the deliveries change.
pub open spec fn updated_right(
    c: UpdateFieldsCommand,
    at: Option<UtcTimestamp>,
    b: Item,
    a: Item,
) -> bool {
    let now = match at {
        Some(t) => t,
        None => b.eligible_since,
    };
    &&& changed_right(set_or_kept(c, b), c.field_ops@, a.fields)
    &&& a.payload == (match c.payload {
        PayloadUpdate::Replace(p) => opt_bytes(p),
        PayloadUpdate::Keep => b.payload,
    })
    &&& a.priority == (match c.set_priority {
        PriorityUpdate::Replace(p) => opt_priority(p),
        PriorityUpdate::Keep => b.priority,
    })
    &&& a.not_before == (match c.set_not_before {
        NotBeforeUpdate::Replace(nb) => nb,
        NotBeforeUpdate::Keep => b.not_before,
    })
    &&& (match c.set_not_before {
        NotBeforeUpdate::Keep => a.eligible_since == b.eligible_since,
        NotBeforeUpdate::Replace(_) => if c.api001_batch {
            a.eligible_since == b.eligible_since
        } else {
            match a.not_before {
                Some(nb) => is_later_of(a.eligible_since, nb, now),
                None => a.eligible_since == now,
            }
        },
    })
    &&& c.set_metadata is Some ==> a.metadata == metadata_of(*c.set_metadata->Some_0)
    &&& c.set_metadata is None ==> a.metadata == b.metadata
    &&& c.set_gate_keys is Some ==> a.gate_keys == texts(c.set_gate_keys->Some_0@)
    &&& c.set_gate_keys is None ==> a.gate_keys == b.gate_keys
    &&& c.set_entity_document is Some ==> a.entity == Some(c.set_entity_document->Some_0@)
    &&& c.set_entity_document is None ==> a.entity == b.entity
    &&& a.item_version == (b.item_version + 1) as u64
    &&& a.item_id == b.item_id
    &&& a.explicit_key == b.explicit_key
    &&& a.group_key == b.group_key
    &&& a.cohort_size == b.cohort_size
    &&& a.max_attempts == b.max_attempts
    &&& a.created_seq == b.created_seq
    &&& a.superseded == b.superseded
    &&& a.state == b.state
    &&& a.attempt_count == b.attempt_count
    &&& a.lease_token == b.lease_token
    &&& a.lease_expires_at == b.lease_expires_at
    &&& a.lease_is_cohort == b.lease_is_cohort
    &&& a.worker_id == b.worker_id
    &&& a.fenced == b.fenced
    &&& same_end(a, b)
}

proof fn lemma_update_effect(m: Model, c: UpdateFieldsCommand, at: Option<UtcTimestamp>)
    requires
        updated(m, c, at).1 is Ok,
    ensures
        ({
            let n = updated(m, c, at).0;
            &&& m.items.contains_key(c.item_id)
            &&& n.items == m.items.insert(c.item_id, n.items[c.item_id])
            &&& n.items.dom() == m.items.dom()
            &&& updated_right(c, at, m.items[c.item_id], n.items[c.item_id])
        }),
{
    lemma_update_moves(m, c, at);
    let n = updated(m, c, at).0;
    assert(n.items.dom() =~= m.items.dom());
    lemma_field_changes(set_or_kept(c, m.items[c.item_id]), c.field_ops@);
}

/// What an update does to its item, and that it touches no other.
pub proof fn law_updates_change_what_they_set(
    m: Model,
    at: Option<UtcTimestamp>,
    pos: Option<PositionV>,
    c: UpdateFieldsCommand,
)
    requires
        applied(m, at, pos, QueueCommand::UpdateFields(c)).1 is Ok,
    ensures
        ({
            let n = applied(m, at, pos, QueueCommand::UpdateFields(c)).0;
            &&& m.items.contains_key(c.item_id)
            &&& updated_right(c, at, m.items[c.item_id], n.items[c.item_id])
            &&& n.items == m.items.insert(c.item_id, n.items[c.item_id])
        }),
{
    lemma_update_effect(m, c, at);
}

/// What several updates do to their items.
pub proof fn law_batched_updates_change_what_they_set(
    m: Model,
    at: Option<UtcTimestamp>,
    pos: Option<PositionV>,
    cs: Vec<UpdateFieldsCommand>,
)
    requires
        applied(m, at, pos, QueueCommand::UpdateFieldsBatch(cs)).1 is Ok,
        cs@.map_values(|c: UpdateFieldsCommand| c.item_id).no_duplicates(),
    ensures
        ({
            let n = applied(m, at, pos, QueueCommand::UpdateFieldsBatch(cs)).0;
            &&& n.items.dom() == m.items.dom()
            &&& forall|k: int|
                0 <= k < cs@.len() ==> m.items.contains_key((#[trigger] cs@[k]).item_id)
                    && updated_right(
                    cs@[k],
                    at,
                    m.items[cs@[k].item_id],
                    n.items[cs@[k].item_id],
                )
            &&& forall|id: ItemId|
                m.items.contains_key(id) && !cs@.map_values(
                    |c: UpdateFieldsCommand| c.item_id,
                ).contains(id) ==> #[trigger] n.items[id] == m.items[id]
        }),
{
    let f = update_each(at);
    let name = |c: UpdateFieldsCommand| c.item_id;
    let effect = |c: UpdateFieldsCommand, b: Item, a: Item| updated_right(c, at, b, a);
    assert forall|n: Model, a: UpdateFieldsCommand| (#[trigger] f(n, a)).1 is Ok implies {
        let x = name(a);
        &&& n.items.contains_key(x)
        &&& f(n, a).0.items == n.items.insert(x, f(n, a).0.items[x])
        &&& effect(a, n.items[x], f(n, a).0.items[x])
        &&& f(n, a).0.items.dom() == n.items.dom()
    } by {
        lemma_update_effect(n, a, at);
    }
    lemma_run_effects(m, cs@, f, name, effect);
    lemma_run_found(m, cs@, f, name);
    let n = run(m, cs@, f).0;
    assert forall|k: int| 0 <= k < cs@.len() implies m.items.contains_key((#[trigger] cs@[k]).item_id)
        && updated_right(cs@[k], at, m.items[cs@[k].item_id], n.items[cs@[k].item_id]) by {
        assert(m.items.contains_key(name(cs@[k])));
        assert(effect(cs@[k], m.items[name(cs@[k])], n.items[name(cs@[k])]));
    }
}

/// What fencing and lifting a fence do: the fence of each named item that is there, and nothing else.
pub proof fn law_fences_set_the_fence(
    m: Model,
    at: Option<UtcTimestamp>,
    pos: Option<PositionV>,
    ids: Vec<ItemId>,
    on: bool,
)
    requires
        ids@.no_duplicates(),
    ensures
        ({
            let s = if on {
                applied(m, at, pos, QueueCommand::FenceLease(ids))
            } else {
                applied(m, at, pos, QueueCommand::UnfenceLease(ids))
            };
            &&& s.1 is Ok
            &&& s.0.items.dom() == m.items.dom()
            &&& forall|id: ItemId| #[trigger]
                ids@.contains(id) && m.items.contains_key(id) ==> s.0.items[id] == (Item {
                    fenced: on,
                    ..m.items[id]
                })
            &&& forall|id: ItemId|
                m.items.contains_key(id) && !ids@.contains(id) ==> #[trigger] s.0.items[id]
                    == m.items[id]
        }),
{
    let f = fence_each(on);
    let name = |a: ItemId| a;
    let effect = |a: ItemId, b: Item, e: Item| e == (Item { fenced: on, ..b });
    lemma_fences_succeed(m, ids@, on);
    assert(ids@.map_values(name) =~= ids@);
    lemma_run_effects(m, ids@, f, name, effect);
    let n = run(m, ids@, f).0;
    assert forall|id: ItemId| #[trigger] ids@.contains(id) && m.items.contains_key(id) implies effect(
        id,
        m.items[id],
        n.items[id],
    ) by {
        let k = choose|k: int| 0 <= k < ids@.len() && ids@[k] == id;
        assert(m.items.contains_key(name(ids@[k])));
        assert(effect(ids@[k], m.items[name(ids@[k])], n.items[name(ids@[k])]));
    }
}

proof fn lemma_fences_succeed(m: Model, ids: Seq<ItemId>, on: bool)
    ensures
        run(m, ids, fence_each(on)).1 is Ok,
    decreases ids.len(),
{
    if ids.len() > 0 {
        lemma_fences_succeed(fence_each(on)(m, ids[0]).0, ids.drop_first(), on);
    }
}

/// What the expiry of a cohort does: every item of the group that was not over fails at the time and
/// place of the command, and no other item changes.
pub proof fn law_expired_cohorts_fail(
    m: Model,
    at: Option<UtcTimestamp>,
    pos: Option<PositionV>,
    group: String,
)
    requires
        m.items.dom().finite(),
        applied(m, at, pos, QueueCommand::CohortExpired(group)).1 is Ok,
    ensures
        ({
            let n = applied(m, at, pos, QueueCommand::CohortExpired(group)).0;
            &&& n.items.dom() == m.items.dom()
            &&& forall|id: ItemId| #[trigger]
                m.items.contains_key(id) ==> n.items[id] == (if m.items[id].group_key == Some(group@)
                    && (m.items[id].state is Pending || m.items[id].state is Leased) {
                    Item {
                        state: ItemState::Failed,
                        item_version: (m.items[id].item_version + 1) as u64,
                        terminal_at: at,
                        terminal_position: pos,
                        ..m.items[id]
                    }
                } else {
                    m.items[id]
                })
        }),
{
    let live = live_group(m, group@);
    let ids = listing_of::<u64>(live);
    let f = cohort_fail_each(at, pos);
    let name = |a: ItemId| a;
    let effect = |a: ItemId, b: Item, e: Item|
        e == (Item {
            state: ItemState::Failed,
            item_version: (b.item_version + 1) as u64,
            terminal_at: at,
            terminal_position: pos,
            ..b
        });
    assert(live.subset_of(m.items.dom()));
    vstd::set_lib::lemma_set_subset_finite(m.items.dom(), live);
    lemma_listing_exists::<u64>(live);
    lemma_ascending_distinct::<u64>(ids);
    assert(ids.map_values(name) =~= ids);
    assert forall|n: Model, a: ItemId| (#[trigger] f(n, a)).1 is Ok implies {
        let x = name(a);
        &&& n.items.contains_key(x) ==> f(n, a).0.items == n.items.insert(x, f(n, a).0.items[x])
            && effect(a, n.items[x], f(n, a).0.items[x])
        &&& !n.items.contains_key(x) ==> f(n, a).0.items == n.items
    } by {
        if n.items.contains_key(a) {
            assert(f(n, a).0.items =~= n.items.insert(a, f(n, a).0.items[a]));
        }
    }
    lemma_run_effects(m, ids, f, name, effect);
    let n = run(m, ids, f).0;
    assert forall|id: ItemId| #[trigger] m.items.contains_key(id) implies n.items[id] == (if m.items[id].group_key
        == Some(group@) && (m.items[id].state is Pending || m.items[id].state is Leased) {
        Item {
            state: ItemState::Failed,
            item_version: (m.items[id].item_version + 1) as u64,
            terminal_at: at,
            terminal_position: pos,
            ..m.items[id]
        }
    } else {
        m.items[id]
    }) by {
        assert(live.contains(id) <==> ids.to_set().contains(id));
        if live.contains(id) {
            let k = choose|k: int| 0 <= k < ids.len() && ids[k] == id;
            assert(m.items.contains_key(name(ids[k])));
            assert(effect(ids[k], m.items[name(ids[k])], n.items[name(ids[k])]));
        } else {
            assert(!ids.contains(id));
        }
    }
}

/// An item holds the values that a mutation resolved for it. Its lease ends where the mutation calls it
/// off or leaves the item other than leased, and stays otherwise; where it is over, it is so at the time
/// and place of the command.
pub open spec fn replaced_right(
    v: crate::types::ResolvedItemValues,
    at: Option<UtcTimestamp>,
    pos: Option<PositionV>,
    b: Item,
    a: Item,
) -> bool {
    let ends = b.state is Leased && (v.invalidate_lease || !(v.state is Leased));
    &&& a.state == v.state
    &&& a.item_version == v.item_version
    &&& a.priority == opt_priority(v.priority)
    &&& a.not_before == v.not_before
    &&& a.eligible_since == v.eligible_since
    &&& a.payload == opt_bytes(v.payload)
    &&& a.fields == field_bytes(*v.fields)
    &&& a.metadata == metadata_of(*v.metadata)
    &&& a.gate_keys == texts(v.gate_keys@)
    &&& a.entity == opt_doc(v.entity_document)
    &&& ends ==> unleased_item(a) && !a.fenced
    &&& !ends ==> a.lease_token == b.lease_token && a.lease_expires_at == b.lease_expires_at
        && a.lease_is_cohort == b.lease_is_cohort && a.worker_id == b.worker_id && a.fenced
        == b.fenced
    &&& (if v.state is Complete || v.state is Failed {
        a.terminal_at == at && a.terminal_position == pos
    } else {
        a.terminal_at is None && a.terminal_position is None
    })
    &&& a.item_id == b.item_id
    &&& a.explicit_key == b.explicit_key
    &&& a.group_key == b.group_key
    &&& a.cohort_size == b.cohort_size
    &&& a.max_attempts == b.max_attempts
    &&& a.attempt_count == b.attempt_count
    &&& a.created_seq == b.created_seq
    &&& a.superseded == b.superseded
}

proof fn lemma_replace_effect(
    m: Model,
    id: ItemId,
    v: crate::types::ResolvedItemValues,
    at: Option<UtcTimestamp>,
    pos: Option<PositionV>,
)
    requires
        replaced(m, id, v, at, pos).1 is Ok,
    ensures
        ({
            let n = replaced(m, id, v, at, pos).0;
            &&& m.items.contains_key(id)
            &&& n.items == m.items.insert(id, n.items[id])
            &&& replaced_right(v, at, pos, m.items[id], n.items[id])
        }),
{
    let i = m.items[id];
    let old_keys = index_keys(m, i.fields, i.entity)->Ok_0;
    let w = withdrawn(m, id, i, ends_lease(i, v));
    let new_keys = values_keys(w, v)->Ok_0;
    let j = replaced_item(i, v, ends_lease(i, v), at, pos);
    let p = put(w, id, j);
    lemma_indexed_frame(p, id, lacking(old_keys, new_keys));
    let u = unindexed(p, id, lacking(old_keys, new_keys));
    lemma_indexed_frame(u, id, lacking(new_keys, old_keys));
    assert(replaced(m, id, v, at, pos).0.items =~= m.items.insert(id, j));
}

proof fn lemma_purge_effect(m: Model, id: ItemId)
    ensures
        purged(m, id).0.items == m.items.remove(id),
{
    if m.items.contains_key(id) {
        let i = m.items[id];
        let n = Model { items: m.items.remove(id), ..m };
        assert forall|u: Model, keys: Seq<(Seq<char>, Seq<u8>)>| (#[trigger] unindexed(
            u,
            i.item_id,
            keys,
        )).items == u.items by {
            lemma_indexed_frame(u, i.item_id, keys);
        }
        assert(crate::model::forgotten(n, i).0.items == n.items);
    } else {
        assert(m.items.remove(id) =~= m.items);
    }
}

proof fn lemma_purges(m: Model, ids: Seq<ItemId>)
    requires
        run(m, ids, purge_each()).1 is Ok,
    ensures
        forall|id: ItemId| #[trigger]
            run(m, ids, purge_each()).0.items.contains_key(id) <==> m.items.contains_key(id)
                && !ids.contains(id),
        forall|id: ItemId|
            m.items.contains_key(id) && !ids.contains(id) ==> #[trigger] run(
                m,
                ids,
                purge_each(),
            ).0.items[id] == m.items[id],
    decreases ids.len(),
{
    if ids.len() > 0 {
        let f = purge_each();
        let n = f(m, ids[0]).0;
        let rest = ids.drop_first();
        lemma_purge_effect(m, ids[0]);
        lemma_purges(n, rest);
        let end = run(m, ids, f).0;
        assert forall|id: ItemId| ids.contains(id) <==> id == ids[0] || rest.contains(id) by {
            if ids.contains(id) {
                let k = choose|k: int| 0 <= k < ids.len() && ids[k] == id;
                if k > 0 {
                    assert(rest[k - 1] == id);
                }
            }
            if rest.contains(id) {
                let k = choose|k: int| 0 <= k < rest.len() && rest[k] == id;
                assert(ids[k + 1] == id);
            }
        }
        assert forall|id: ItemId| #[trigger] end.items.contains_key(id) <==> m.items.contains_key(id)
            && !ids.contains(id) by {
            assert(ids.contains(id) <==> id == ids[0] || rest.contains(id));
        }
        assert forall|id: ItemId| m.items.contains_key(id) && !ids.contains(id) implies #[trigger] end.items[id]
            == m.items[id] by {
            assert(ids.contains(id) <==> id == ids[0] || rest.contains(id));
        }
    }
}

/// What a purge does: the named items are gone, and no other item changes.
pub proof fn law_purges_take_items_out(
    m: Model,
    at: Option<UtcTimestamp>,
    pos: Option<PositionV>,
    c: PurgeItemsCommand,
    id: ItemId,
)
    requires
        applied(m, at, pos, QueueCommand::PurgeItems(c)).1 is Ok,
    ensures
        ({
            let n = applied(m, at, pos, QueueCommand::PurgeItems(c)).0;
            &&& n.items.contains_key(id) <==> m.items.contains_key(id) && !c.item_ids@.contains(id)
            &&& n.items.contains_key(id) ==> n.items[id] == m.items[id]
        }),
{
    lemma_purges(m, c.item_ids@);
}

proof fn lemma_mutations(
    m: Model,
    xs: Seq<ResolvedItemMutation>,
    at: Option<UtcTimestamp>,
    pos: Option<PositionV>,
)
    requires
        run(m, xs, mutate_each(at, pos)).1 is Ok,
        xs.map_values(|x: ResolvedItemMutation| x.item_id).no_duplicates(),
    ensures
        ({
            let n = run(m, xs, mutate_each(at, pos)).0;
            &&& forall|k: int|
                0 <= k < xs.len() ==> #[trigger] mutated_right(
                    xs[k],
                    at,
                    pos,
                    m.items,
                    n.items,
                )
            &&& forall|id: ItemId|
                !xs.map_values(|x: ResolvedItemMutation| x.item_id).contains(id) ==> (
                #[trigger] n.items.contains_key(id) <==> m.items.contains_key(id))
                    && (m.items.contains_key(id) ==> n.items[id] == m.items[id])
        }),
    decreases xs.len(),
{
    let ids = xs.map_values(|x: ResolvedItemMutation| x.item_id);
    if xs.len() > 0 {
        let f = mutate_each(at, pos);
        let x = xs[0];
        let rest = xs.drop_first();
        assert(f(m, x).1 is Ok);
        let n1 = f(m, x).0;
        let n = run(m, xs, f).0;
        match x.action {
            ResolvedItemMutationAction::Purge => {
                lemma_purge_effect(m, x.item_id);
            },
            ResolvedItemMutationAction::Replace(v) => {
                lemma_replace_effect(m, x.item_id, v, at, pos);
            },
        }
        let others = rest.map_values(|x: ResolvedItemMutation| x.item_id);
        assert(others =~= ids.drop_first());
        lemma_mutations(n1, rest, at, pos);
        assert(ids[0] == x.item_id);
        assert(!others.contains(x.item_id)) by {
            if others.contains(x.item_id) {
                let j = choose|j: int| 0 <= j < others.len() && others[j] == x.item_id;
                assert(ids[j + 1] == x.item_id);
            }
        }
        assert(n.items.contains_key(x.item_id) <==> n1.items.contains_key(x.item_id));
        assert(mutated_right(xs[0], at, pos, m.items, n.items));
        assert forall|k: int| 0 <= k < xs.len() implies #[trigger] mutated_right(
            xs[k],
            at,
            pos,
            m.items,
            n.items,
        ) by {
            if k > 0 {
                assert(rest[k - 1] == xs[k]);
                assert(ids[k] == xs[k].item_id);
                assert(xs[k].item_id != x.item_id);
                assert(mutated_right(rest[k - 1], at, pos, n1.items, n.items));
            }
        }
        assert forall|id: ItemId| !ids.contains(id) implies (#[trigger] n.items.contains_key(id)
            <==> m.items.contains_key(id)) && (m.items.contains_key(id) ==> n.items[id]
            == m.items[id]) by {
            assert(id != x.item_id) by {
                assert(ids.contains(ids[0]));
            }
            if others.contains(id) {
                let j = choose|j: int| 0 <= j < others.len() && others[j] == id;
                assert(ids[j + 1] == id);
            }
            assert(n.items.contains_key(id) <==> n1.items.contains_key(id));
        }
    }
}

/// An item was mutated as resolved: it is gone, or it holds the resolved values.
pub open spec fn mutated_right(
    x: ResolvedItemMutation,
    at: Option<UtcTimestamp>,
    pos: Option<PositionV>,
    b: Map<ItemId, Item>,
    a: Map<ItemId, Item>,
) -> bool {
    match x.action {
        ResolvedItemMutationAction::Purge => !a.contains_key(x.item_id),
        ResolvedItemMutationAction::Replace(v) => b.contains_key(x.item_id) && a.contains_key(
            x.item_id,
        ) && replaced_right(v, at, pos, b[x.item_id], a[x.item_id]),
    }
}

proof fn lemma_gate_runs(m: Model, gs: Seq<GateChange>)
    ensures
        run(m, gs, crate::model::gate_each()).0.items == m.items,
    decreases gs.len(),
{
    if gs.len() > 0 {
        let f = crate::model::gate_each();
        lemma_gates_effect(m, texts(gs[0].gate_keys@), gs[0].blocked);
        lemma_gate_runs(f(m, gs[0]).0, gs.drop_first());
    }
}

proof fn lemma_gates_effect(m: Model, keys: Seq<Seq<char>>, blocked: bool)
    ensures
        ({
            let n = gates_changed(m, keys, blocked).0;
            &&& n.items == m.items
            &&& n.blocked_gates == gates_after(m.blocked_gates, keys, blocked)
        }),
{
    let n = Model { blocked_gates: gates_after(m.blocked_gates, keys, blocked), ..m };
    lemma_gates_frame(n, listing_of::<u64>(under_gates(m, keys)), m.blocked_gates);
}

/// What a resolved mutation does: each named item is gone or holds the resolved values, and no other
/// item changes.
pub proof fn law_mutations_set_the_resolved_values(
    m: Model,
    at: Option<UtcTimestamp>,
    pos: Option<PositionV>,
    c: crate::types::MutateItemsCommand,
    k: int,
    id: ItemId,
)
    requires
        applied(m, at, pos, QueueCommand::MutateItems(c)).1 is Ok,
        c.items@.map_values(|x: ResolvedItemMutation| x.item_id).no_duplicates(),
        0 <= k < c.items@.len(),
        !c.items@.map_values(|x: ResolvedItemMutation| x.item_id).contains(id),
    ensures
        ({
            let n = applied(m, at, pos, QueueCommand::MutateItems(c)).0;
            &&& mutated_right(c.items@[k], at, pos, m.items, n.items)
            &&& n.items.contains_key(id) <==> m.items.contains_key(id)
            &&& m.items.contains_key(id) ==> n.items[id] == m.items[id]
        }),
{
    lemma_mutations(m, c.items@, at, pos);
    let mid = run(m, c.items@, mutate_each(at, pos)).0;
    lemma_gate_runs(mid, c.gate_changes@);
    assert(mutated_right(c.items@[k], at, pos, m.items, mid.items));
}

/// What a change of gates does: exactly the named gates are blocked, or open, and no other gate and no
/// item changes.
pub proof fn law_gates_are_set(
    m: Model,
    at: Option<UtcTimestamp>,
    pos: Option<PositionV>,
    g: GateChange,
    k: Seq<char>,
)
    ensures
        ({
            let n = applied(m, at, pos, QueueCommand::SetGates(g)).0;
            &&& n.items == m.items
            &&& n.blocked_gates.contains(k) == (if texts(g.gate_keys@).contains(k) {
                g.blocked
            } else {
                m.blocked_gates.contains(k)
            })
        }),
{
    let keys = texts(g.gate_keys@);
    lemma_gates_effect(m, keys, g.blocked);
    assert(keys.to_set().contains(k) == keys.contains(k));
}

/// What pausing, resuming and moving a fence do, and that they do nothing else.
pub proof fn law_switches_are_set(
    m: Model,
    at: Option<UtcTimestamp>,
    pos: Option<PositionV>,
    drain: bool,
    c: AdvanceInstanceFenceCommand,
)
    ensures
        ({
            let p = applied(m, at, pos, QueueCommand::PauseQueue(drain));
            p.1 is Ok && p.0 == (Model { paused: true, pause_drain_intake: drain, ..m })
        }),
        ({
            let p = applied(m, at, pos, QueueCommand::ResumeQueue);
            p.1 is Ok && p.0 == (Model { paused: false, pause_drain_intake: false, ..m })
        }),
        ({
            let p = applied(m, at, pos, QueueCommand::AdvanceInstanceFence(c));
            p.1 is Ok && p.0 == (Model {
                instance_fences: m.instance_fences.insert(c.instance_key@, c.next),
                ..m
            })
        }),
{
}

/// The last of some records under a key.
pub open spec fn last_record(rs: Seq<SideRecord>, key: Seq<u8>, k: int) -> bool {
    &&& 0 <= k < rs.len()
    &&& rs[k].key@ == key
    &&& forall|j: int| k < j < rs.len() ==> (#[trigger] rs[j]).key@ != key
}

proof fn lemma_side_records(m: Model, rs: Seq<SideRecord>, key: Seq<u8>)
    ensures
        ({
            let s = run(m, rs, crate::model::side_each());
            &&& s.1 is Ok
            &&& s.0 == (Model { side_records: s.0.side_records, ..m })
            &&& forall|k: int| #[trigger]
                last_record(rs, key, k) ==> s.0.side_records.contains_key(key)
                    && s.0.side_records[key] == crate::shared::bytes_of(rs[k].payload)
            &&& (forall|k: int| 0 <= k < rs.len() ==> (#[trigger] rs[k]).key@ != key) ==> (
            s.0.side_records.contains_key(key) <==> m.side_records.contains_key(key)) && (
            m.side_records.contains_key(key) ==> s.0.side_records[key] == m.side_records[key])
        }),
    decreases rs.len(),
{
    let f = crate::model::side_each();
    if rs.len() > 0 {
        let n = f(m, rs[0]).0;
        let rest = rs.drop_first();
        lemma_side_records(n, rest, key);
        let s = run(m, rs, f);
        assert forall|k: int| #[trigger] last_record(rs, key, k) implies s.0.side_records.contains_key(
            key,
        ) && s.0.side_records[key] == crate::shared::bytes_of(rs[k].payload) by {
            if k > 0 {
                assert forall|j: int| k - 1 < j < rest.len() implies (#[trigger] rest[j]).key@
                    != key by {
                    assert(rest[j] == rs[j + 1]);
                }
                assert(rest[k - 1] == rs[k]);
                assert(last_record(rest, key, k - 1));
            } else {
                assert forall|j: int| 0 <= j < rest.len() implies (#[trigger] rest[j]).key@ != key by {
                    assert(rest[j] == rs[j + 1]);
                }
            }
        }
        if forall|k: int| 0 <= k < rs.len() ==> (#[trigger] rs[k]).key@ != key {
            assert(rs[0].key@ != key);
            assert forall|j: int| 0 <= j < rest.len() implies (#[trigger] rest[j]).key@ != key by {
                assert(rest[j] == rs[j + 1]);
            }
        }
    }
}

/// What writing side records does: under each key stands what was written there last, and nothing else
/// changes.
pub proof fn law_side_records_are_kept(
    m: Model,
    at: Option<UtcTimestamp>,
    pos: Option<PositionV>,
    rs: Vec<SideRecord>,
    key: Seq<u8>,
)
    ensures
        ({
            let s = applied(m, at, pos, QueueCommand::WriteSideRecords(rs));
            &&& s.1 is Ok
            &&& s.0 == (Model { side_records: s.0.side_records, ..m })
            &&& forall|k: int| #[trigger]
                last_record(rs@, key, k) ==> s.0.side_records.contains_key(key)
                    && s.0.side_records[key] == crate::shared::bytes_of(rs@[k].payload)
            &&& (forall|k: int| 0 <= k < rs@.len() ==> (#[trigger] rs@[k]).key@ != key) ==> (
            s.0.side_records.contains_key(key) <==> m.side_records.contains_key(key)) && (
            m.side_records.contains_key(key) ==> s.0.side_records[key] == m.side_records[key])
        }),
{
    lemma_side_records(m, rs@, key);
}

/// What a replacement does: the old item is marked as replaced and otherwise stays, the new one is there
/// as it was pushed, and no other item changes.
pub proof fn law_replacements_supersede(
    m: Model,
    at: Option<UtcTimestamp>,
    pos: Option<PositionV>,
    c: ReplacePendingCommand,
    id: ItemId,
)
    requires
        applied(m, at, pos, QueueCommand::ReplacePending(c)).1 is Ok,
        m.next_seq < u64::MAX,
        c.replacement.item_id != c.superseded_item_id,
    ensures
        ({
            let n = applied(m, at, pos, QueueCommand::ReplacePending(c)).0;
            let old = c.superseded_item_id;
            let new = c.replacement.item_id;
            &&& n.items.contains_key(new) && pushed_right(
                c.replacement@,
                m.next_seq,
                at,
                n.items[new],
            )
            &&& m.items.contains_key(old) ==> n.items.contains_key(old) && n.items[old] == (Item {
                superseded: true,
                ..m.items[old]
            })
            &&& id != old && id != new ==> (n.items.contains_key(id) <==> m.items.contains_key(id))
                && (m.items.contains_key(id) ==> n.items[id] == m.items[id])
        }),
{
    let old = c.superseded_item_id;
    let cleared = crate::model::retired(m, old).0;
    if m.items.contains_key(old) {
        let i = m.items[old];
        let keys = index_keys(m, i.fields, i.entity)->Ok_0;
        let m1 = put(m, old, Item { superseded: true, ..i });
        let m2 = crate::model::leave_if(m1, i.state is Pending, i);
        let m3 = if i.superseded {
            m2
        } else {
            Model { metrics: crate::model::uncounted(m2.metrics, i.state), ..m2 }
        };
        lemma_indexed_frame(m3, old, keys);
        assert(cleared.items == m1.items);
    }
    let base = Model { by_key: cleared.by_key.remove(c.client_item_key@), ..cleared };
    assert(base.next_seq == m.next_seq);
    lemma_insert_effect(base, c.replacement@, at);
}

/// When a claim of one item fails, and why: it is not there, something has replaced it, or it is not
/// pending. The queue then stays as it was.
pub proof fn law_claims_fail_rightly(
    m: Model,
    at: Option<UtcTimestamp>,
    pos: Option<PositionV>,
    c: ClaimCommand,
    id: ItemId,
)
    requires
        c.item_ids@ == seq![id],
    ensures
        ({
            let s = applied(m, at, pos, QueueCommand::Claim(c));
            &&& s.1 is Ok <==> m.items.contains_key(id) && !m.items[id].superseded
                && m.items[id].state is Pending
            &&& !m.items.contains_key(id) ==> s.1 == Err::<(), ErrorV>(ErrorV::NotFound)
            &&& m.items.contains_key(id) && m.items[id].superseded ==> s.1 == Err::<(), ErrorV>(
                ErrorV::Superseded,
            )
            &&& s.1 is Err ==> s.0 == m
        }),
{
    reveal_with_fuel(run, 2);
    assert(c.item_ids@.drop_first() =~= Seq::<ItemId>::empty());
}

/// When an outcome for one item fails, and why: it is not there, something has replaced it, or it is not
/// leased. The queue then stays as it was.
pub proof fn law_outcomes_fail_rightly(
    m: Model,
    at: Option<UtcTimestamp>,
    pos: Option<PositionV>,
    os: Vec<FinalizeOutcome>,
    o: FinalizeOutcome,
)
    requires
        os@ == seq![o],
    ensures
        ({
            let s = applied(m, at, pos, QueueCommand::Finalize(os));
            let id = o.item_id;
            &&& s.1 is Ok <==> m.items.contains_key(id) && !m.items[id].superseded
                && m.items[id].state is Leased
            &&& !m.items.contains_key(id) ==> s.1 == Err::<(), ErrorV>(ErrorV::NotFound)
            &&& m.items.contains_key(id) && m.items[id].superseded ==> s.1 == Err::<(), ErrorV>(
                ErrorV::Superseded,
            )
            &&& s.1 is Err ==> s.0 == m
        }),
{
    reveal_with_fuel(run, 2);
    assert(os@.drop_first() =~= Seq::<FinalizeOutcome>::empty());
}

} // verus!
