//! What holds of every state of a queue: its indexes and counts agree with its items.

use crate::apply::{lemma_gates_frame, lemma_indexed_frame};
use crate::eligibility::{EligV, is_plain, key_of, plain_key};
use crate::item::{Item, PushV, pushed_item};
use crate::model::{Model, Step, announced, applied, claim_each, claimed, cohort_fail_each, cohort_failed, counts_room, ends_lease, enter_if, fence_each, fenced, final_event, finalize_each, finalized, gate_each, gate_settle, gate_settled, gated, gates_after, gates_changed, gates_joined, handed_back, index_keys, insert_each, inserted, lacking, lapse_each, lapsed, leave_if, live_group, moved, moves_place, mutate_each, purge_each, purged, put, ready, reassign_each, reassigned, regated, released_item, renew_each, renewed, replaced, replaced_item, rescheduled_item, room_for, run, side_each, side_written, superseded, transitioned, uncounted, under_gates, unindexed, unleased, update_each, updated, updated_entity, updated_fields, updated_item, values_keys, withdrawn};
use crate::order::{lemma_ascending_distinct, lemma_listing_exists, listing_of};
use crate::text::{opt_text, texts};
use crate::types::{FinalizeOutcome, GateChange, ItemEvent, ItemId, ItemState, PositionV, PushItem, QueueCommand, ReplacePendingCommand, ResolvedItemMutation, ResolvedItemMutationAction, ResolvedItemValues, SideRecord, UpdateFieldsCommand, UtcTimestamp, next_state};
use vstd::prelude::*;

verus! {

/// Every item stands under its own identifier.
pub open spec fn keyed(m: Model) -> bool {
    forall|id: ItemId| #[trigger] m.items.contains_key(id) ==> m.items[id].item_id == id
}

/// The item has a place among the eligible.
pub open spec fn stands(m: Model, i: Item) -> bool {
    ready(m, i) && !i.superseded
}

/// The places are those of the pending items that no gate holds back and none replaced. While only
/// creation order is kept, no place has more to it.
pub open spec fn places_exact(m: Model) -> bool {
    &&& forall|id: ItemId| #[trigger]
        m.items.contains_key(id) && stands(m, m.items[id]) ==> m.eligible.contains(
            key_of(m.items[id], m.priority_model),
        )
    &&& forall|k: EligV| #[trigger]
        m.eligible.contains(k) ==> m.items.contains_key(k.item) && stands(m, m.items[k.item])
            && key_of(m.items[k.item], m.priority_model) == k
    &&& m.compact ==> forall|k: EligV| #[trigger] m.eligible.contains(k) ==> is_plain(k)
}

/// Every gate key of a live item leads to it.
pub open spec fn gates_known(m: Model) -> bool {
    &&& m.gate_members.finite()
    &&& forall|id: ItemId, k: Seq<char>|
        m.items.contains_key(id) && !m.items[id].superseded && #[trigger]
        m.items[id].gate_keys.contains(k) ==> m.gate_members.contains((k, id))
}

/// The item is leased to somebody.
pub open spec fn held(i: Item) -> bool {
    i.state is Leased && !i.superseded && i.lease_token is Some
}

/// The item has an ordinary lease that runs out.
pub open spec fn expires_at(i: Item, e: UtcTimestamp) -> bool {
    i.state is Leased && !i.superseded && !i.lease_is_cohort && i.lease_expires_at == Some(e)
}

/// The lease indexes hold exactly the leases.
pub open spec fn leases_exact(m: Model) -> bool {
    &&& forall|id: ItemId| #[trigger]
        m.leased.contains(id) <==> m.items.contains_key(id) && held(m.items[id])
    &&& forall|p: (Seq<char>, ItemId)| #[trigger]
        m.by_consumer.contains(p) <==> m.items.contains_key(p.1) && held(m.items[p.1])
            && m.items[p.1].lease_token == Some(p.0)
    &&& forall|p: (UtcTimestamp, ItemId)| #[trigger]
        m.by_expiry.contains(p) <==> m.items.contains_key(p.1) && expires_at(m.items[p.1], p.0)
}

/// The live items in a state.
pub open spec fn in_state(items: Map<ItemId, Item>, s: ItemState) -> Set<ItemId> {
    items.dom().filter(|id: ItemId| !items[id].superseded && items[id].state == s)
}

/// The counts are those of the live items.
pub open spec fn counts_exact(m: Model) -> bool {
    &&& m.items.dom().finite()
    &&& m.metrics.pending == in_state(m.items, ItemState::Pending).len()
    &&& m.metrics.leased == in_state(m.items, ItemState::Leased).len()
    &&& m.metrics.complete == in_state(m.items, ItemState::Complete).len()
    &&& m.metrics.failed == in_state(m.items, ItemState::Failed).len()
    &&& m.metrics.resident_terminal_count == m.metrics.complete + m.metrics.failed
}

/// All of it.
pub open spec fn consistent(m: Model) -> bool {
    &&& keyed(m)
    &&& places_exact(m)
    &&& gates_known(m)
    &&& leases_exact(m)
    &&& counts_exact(m)
}

/// The order to claim in agrees with the items.
pub open spec fn placed(m: Model) -> bool {
    &&& keyed(m)
    &&& places_exact(m)
    &&& gates_known(m)
    &&& m.items.dom().finite()
}

/// There are no more places than items.
pub proof fn lemma_places_finite(m: Model)
    requires
        placed(m),
    ensures
        m.eligible.finite(),
{
    let f = |id: ItemId| key_of(m.items[id], m.priority_model);
    m.items.dom().lemma_map_finite(f);
    assert(m.eligible.subset_of(m.items.dom().map(f))) by {
        assert forall|k: EligV| m.eligible.contains(k) implies m.items.dom().map(f).contains(k) by {
            assert(m.items.dom().contains(k.item) && f(k.item) == k);
        }
    }
    vstd::set_lib::lemma_set_subset_finite(m.items.dom().map(f), m.eligible);
}

/// An item changes from `i` to `j`, and its place follows.
pub proof fn lemma_places_move(
    m: Model,
    n: Model,
    id: ItemId,
    i: Item,
    j: Item,
    goes: bool,
    comes: bool,
)
    requires
        places_exact(m),
        keyed(m),
        m.items.contains_key(id) ==> m.items[id] == i,
        i.item_id == id,
        j.item_id == id,
        n.items == m.items.insert(id, j),
        n.blocked_gates == m.blocked_gates,
        n.priority_model == m.priority_model,
        n.eligible == enter_if(leave_if(m, goes, i), comes, j).eligible,
        n.compact == enter_if(leave_if(m, goes, i), comes, j).compact,
        m.items.contains_key(id) && stands(m, i) ==> goes || (key_of(i, m.priority_model) == key_of(
            j,
            m.priority_model,
        ) && stands(m, j)),
        comes ==> stands(m, j),
        stands(m, j) ==> comes || (m.items.contains_key(id) && stands(m, i) && !goes && key_of(
            i,
            m.priority_model,
        ) == key_of(j, m.priority_model)),
    ensures
        places_exact(n),
        keyed(n),
{
    let pm = m.priority_model;
    let ki = key_of(i, pm);
    let kj = key_of(j, pm);
    let plain = plain_key(ki.created_seq, ki.item);
    assert forall|x: ItemId| #[trigger]
        n.items.contains_key(x) && stands(n, n.items[x]) implies n.eligible.contains(
        key_of(n.items[x], pm),
    ) by {
        if x != id {
            assert(m.items.contains_key(x) && stands(m, m.items[x]));
        } else if !comes {
            assert(m.items.contains_key(id));
        }
    }
    assert forall|k: EligV| #[trigger] n.eligible.contains(k) implies n.items.contains_key(k.item)
        && stands(n, n.items[k.item]) && key_of(n.items[k.item], pm) == k by {
        if comes && k == kj {
        } else {
            assert(m.eligible.contains(k));
            if k.item == id {
                assert(k == ki);
                if goes && m.compact {
                    assert(is_plain(k));
                    assert(k == plain);
                }
            }
        }
    }
    if n.compact {
        assert forall|k: EligV| #[trigger] n.eligible.contains(k) implies is_plain(k) by {
            if !(comes && k == kj) {
                assert(m.eligible.contains(k));
            }
        }
    }
}

/// An item goes, and its place with it.
pub proof fn lemma_places_gone(m: Model, n: Model, id: ItemId, goes: bool)
    requires
        places_exact(m),
        keyed(m),
        m.items.contains_key(id),
        n.items == m.items.remove(id),
        n.blocked_gates == m.blocked_gates,
        n.priority_model == m.priority_model,
        n.eligible == leave_if(m, goes, m.items[id]).eligible,
        n.compact == m.compact,
        stands(m, m.items[id]) ==> goes,
    ensures
        places_exact(n),
        keyed(n),
{
    let pm = m.priority_model;
    let ki = key_of(m.items[id], pm);
    assert forall|x: ItemId| #[trigger]
        n.items.contains_key(x) && stands(n, n.items[x]) implies n.eligible.contains(
        key_of(n.items[x], pm),
    ) by {
        assert(m.items.contains_key(x) && stands(m, m.items[x]));
    }
    assert forall|k: EligV| #[trigger] n.eligible.contains(k) implies n.items.contains_key(k.item)
        && stands(n, n.items[k.item]) && key_of(n.items[k.item], pm) == k by {
        assert(m.eligible.contains(k));
        if k.item == id {
            assert(k == ki);
            if m.compact {
                assert(is_plain(k));
                assert(k == plain_key(ki.created_seq, ki.item));
            }
        }
    }
}

proof fn lemma_in_state_insert(items: Map<ItemId, Item>, id: ItemId, j: Item, s: ItemState)
    requires
        items.dom().finite(),
    ensures
        items.insert(id, j).dom().finite(),
        ({
            let before = items.contains_key(id) && !items[id].superseded && items[id].state == s;
            let after = !j.superseded && j.state == s;
            in_state(items.insert(id, j), s).len() == in_state(items, s).len() + (if after {
                1int
            } else {
                0
            }) - (if before {
                1int
            } else {
                0
            })
        }),
{
    let a = in_state(items, s);
    let b = in_state(items.insert(id, j), s);
    let before = items.contains_key(id) && !items[id].superseded && items[id].state == s;
    let after = !j.superseded && j.state == s;
    items.dom().lemma_len_filter(|x: ItemId| !items[x].superseded && items[x].state == s);
    if after {
        assert(b =~= a.insert(id));
    } else {
        assert(b =~= a.remove(id));
    }
}

pub proof fn lemma_in_state_remove(items: Map<ItemId, Item>, id: ItemId, s: ItemState)
    requires
        items.dom().finite(),
        items.contains_key(id),
    ensures
        items.remove(id).dom().finite(),
        in_state(items.remove(id), s).len() == in_state(items, s).len() - (if !items[id].superseded
            && items[id].state == s {
            1int
        } else {
            0
        }),
{
    let a = in_state(items, s);
    items.dom().lemma_len_filter(|x: ItemId| !items[x].superseded && items[x].state == s);
    assert(in_state(items.remove(id), s) =~= a.remove(id));
}

/// The counts follow an item from `m.items[id]` to `j`.
pub proof fn lemma_counts_put(m: Model, id: ItemId, j: Item)
    requires
        m.items.dom().finite(),
    ensures
        m.items.insert(id, j).dom().finite(),
        forall|s: ItemState| #[trigger]
            in_state(m.items.insert(id, j), s).len() == in_state(m.items, s).len() + (if !j.superseded
                && j.state == s {
                1int
            } else {
                0
            }) - (if m.items.contains_key(id) && !m.items[id].superseded && m.items[id].state == s {
                1int
            } else {
                0
            }),
        forall|s: ItemState|
            m.items.contains_key(id) && !m.items[id].superseded && m.items[id].state == s
                ==> #[trigger] in_state(m.items, s).len() > 0,
{
    assert forall|s: ItemState| #[trigger]
        in_state(m.items.insert(id, j), s).len() == in_state(m.items, s).len() + (if !j.superseded
            && j.state == s {
            1int
        } else {
            0
        }) - (if m.items.contains_key(id) && !m.items[id].superseded && m.items[id].state == s {
            1int
        } else {
            0
        }) by {
        lemma_in_state_insert(m.items, id, j, s);
    }
    lemma_in_state_insert(m.items, id, j, ItemState::Pending);
    assert forall|s: ItemState|
        m.items.contains_key(id) && !m.items[id].superseded && m.items[id].state
            == s implies #[trigger] in_state(m.items, s).len() > 0 by {
        m.items.dom().lemma_len_filter(
            |x: ItemId| !m.items[x].superseded && m.items[x].state == s,
        );
        assert(in_state(m.items, s).contains(id));
    }
}

pub proof fn lemma_gates_joined(m: Model, id: ItemId, keys: Seq<Seq<char>>)
    requires
        m.gate_members.finite(),
    ensures
        gates_joined(m, id, keys).gate_members.finite(),
{
    let pairs = keys.map_values(|k: Seq<char>| (k, id));
    vstd::seq_lib::seq_to_set_is_finite(pairs);
    let all = m.gate_members.union(pairs.to_set());
    assert(all.finite()) by {
        vstd::set_lib::lemma_set_union_finite_iff(m.gate_members, pairs.to_set());
    }
    let wanted = gates_joined(m, id, keys).gate_members;
    assert(wanted.subset_of(all)) by {
        assert forall|p: (Seq<char>, ItemId)| wanted.contains(p) implies all.contains(p) by {
            if p.1 == id && keys.contains(p.0) {
                let j = choose|j: int| 0 <= j < keys.len() && keys[j] == p.0;
                assert(pairs[j] == p);
                assert(pairs.contains(p));
            }
        }
    }
    vstd::set_lib::lemma_set_subset_finite(all, wanted);
}

proof fn lemma_regated(m: Model, id: ItemId, before: Seq<Seq<char>>, after: Seq<Seq<char>>)
    requires
        m.gate_members.finite(),
    ensures
        regated(m, id, before, after).gate_members.finite(),
{
    lemma_gates_joined(m, id, after);
    let all = gates_joined(m, id, after).gate_members;
    let wanted = regated(m, id, before, after).gate_members;
    assert(wanted.subset_of(all));
    vstd::set_lib::lemma_set_subset_finite(all, wanted);
}

/// A pushed item is new to the queue.
pub open spec fn push_valid(m: Model, p: PushV) -> bool {
    counts_room(m, 1) && !m.items.contains_key(p.item_id)
}

/// A push keeps the state consistent.
pub proof fn law_push_keeps(m: Model, p: PushV, at: Option<UtcTimestamp>)
    requires
        consistent(m),
        push_valid(m, p),
        inserted(m, p, at).1 is Ok,
    ensures
        consistent(inserted(m, p, at).0),
{
    let i = pushed_item(p, m.next_seq, at);
    let id = p.item_id;
    let m0 = Model { next_seq: (m.next_seq + 1) as u64, ..m };
    let a = announced(m0, i);
    let keys = index_keys(a, i.fields, i.entity)->Ok_0;
    let n = inserted(m, p, at).0;
    lemma_indexed_frame(a, id, keys);
    lemma_places_move(m, n, id, i, i, false, ready(m, i));
    lemma_counts_put(m, id, i);
    lemma_gates_joined(m, id, i.gate_keys);
    assert(gates_joined(m, id, i.gate_keys).gate_members =~= n.gate_members);
    assert(gates_known(n)) by {
        assert forall|x: ItemId, k: Seq<char>|
            n.items.contains_key(x) && !n.items[x].superseded && #[trigger]
            n.items[x].gate_keys.contains(k) implies n.gate_members.contains((k, x)) by {
            if x != id {
                assert(m.items[x].gate_keys.contains(k));
            }
        }
    }
    assert(leases_exact(n)) by {
        lemma_leases_frame(m, n, id);
    }
}

/// The lease indexes stay right where the one item that changed has no lease before or after.
proof fn lemma_leases_frame(m: Model, n: Model, id: ItemId)
    requires
        leases_exact(m),
        n.leased == m.leased,
        n.by_consumer == m.by_consumer,
        n.by_expiry == m.by_expiry,
        forall|x: ItemId|
            x != id ==> (#[trigger] n.items.contains_key(x) <==> m.items.contains_key(x)),
        forall|x: ItemId| x != id && #[trigger] n.items.contains_key(x) ==> n.items[x] == m.items[x],
        n.items.contains_key(id) ==> (if m.items.contains_key(id) {
            &&& held(n.items[id]) == held(m.items[id])
            &&& held(n.items[id]) ==> n.items[id].lease_token == m.items[id].lease_token
            &&& forall|e: UtcTimestamp| #[trigger]
                expires_at(n.items[id], e) <==> expires_at(m.items[id], e)
        } else {
            !(n.items[id].state is Leased)
        }),
        !n.items.contains_key(id) && m.items.contains_key(id) ==> !(m.items[id].state is Leased),
    ensures
        leases_exact(n),
{
    assert forall|x: ItemId| #[trigger]
        n.leased.contains(x) <==> n.items.contains_key(x) && held(n.items[x]) by {
        assert(m.leased.contains(x) <==> m.items.contains_key(x) && held(m.items[x]));
        if x != id {
            assert(n.items.contains_key(x) <==> m.items.contains_key(x));
        }
    }
    assert forall|p: (Seq<char>, ItemId)| #[trigger]
        n.by_consumer.contains(p) <==> n.items.contains_key(p.1) && held(n.items[p.1])
            && n.items[p.1].lease_token == Some(p.0) by {
        assert(m.by_consumer.contains(p) <==> m.items.contains_key(p.1) && held(m.items[p.1])
            && m.items[p.1].lease_token == Some(p.0));
        if p.1 != id {
            assert(n.items.contains_key(p.1) <==> m.items.contains_key(p.1));
        }
    }
    assert forall|p: (UtcTimestamp, ItemId)| #[trigger]
        n.by_expiry.contains(p) <==> n.items.contains_key(p.1) && expires_at(
            n.items[p.1],
            p.0,
        ) by {
        assert(m.by_expiry.contains(p) <==> m.items.contains_key(p.1) && expires_at(
            m.items[p.1],
            p.0,
        ));
        if p.1 != id {
            assert(n.items.contains_key(p.1) <==> m.items.contains_key(p.1));
        }
        if p.1 == id && n.items.contains_key(id) && m.items.contains_key(id) {
            assert(expires_at(n.items[id], p.0) <==> expires_at(m.items[id], p.0));
        }
    }
}

/// The lease indexes stay right where the item that changed had its lease taken out of them.
proof fn lemma_leases_ended(m: Model, n: Model, id: ItemId, expires: Option<UtcTimestamp>)
    requires
        leases_exact(m),
        m.items.contains_key(id),
        n.leased == m.leased.remove(id),
        n.by_consumer == (match m.items[id].lease_token {
            Some(t) => m.by_consumer.remove((t, id)),
            None => m.by_consumer,
        }),
        n.by_expiry == (match expires {
            Some(e) => m.by_expiry.remove((e, id)),
            None => m.by_expiry,
        }),
        forall|e: UtcTimestamp| #[trigger] expires_at(m.items[id], e) ==> expires == Some(e),
        forall|x: ItemId|
            x != id ==> (#[trigger] n.items.contains_key(x) <==> m.items.contains_key(x)),
        forall|x: ItemId| x != id && #[trigger] n.items.contains_key(x) ==> n.items[x] == m.items[x],
        n.items.contains_key(id) ==> !held(n.items[id]) && forall|e: UtcTimestamp|
            !#[trigger] expires_at(n.items[id], e),
    ensures
        leases_exact(n),
{
    let i = m.items[id];
    assert forall|x: ItemId| #[trigger]
        n.leased.contains(x) <==> n.items.contains_key(x) && held(n.items[x]) by {
        assert(m.leased.contains(x) <==> m.items.contains_key(x) && held(m.items[x]));
        if x != id {
            assert(n.items.contains_key(x) <==> m.items.contains_key(x));
        }
    }
    assert forall|p: (Seq<char>, ItemId)| #[trigger]
        n.by_consumer.contains(p) <==> n.items.contains_key(p.1) && held(n.items[p.1])
            && n.items[p.1].lease_token == Some(p.0) by {
        assert(m.by_consumer.contains(p) <==> m.items.contains_key(p.1) && held(m.items[p.1])
            && m.items[p.1].lease_token == Some(p.0));
        if p.1 != id {
            assert(n.items.contains_key(p.1) <==> m.items.contains_key(p.1));
        }
    }
    assert forall|p: (UtcTimestamp, ItemId)| #[trigger]
        n.by_expiry.contains(p) <==> n.items.contains_key(p.1) && expires_at(
            n.items[p.1],
            p.0,
        ) by {
        assert(m.by_expiry.contains(p) <==> m.items.contains_key(p.1) && expires_at(
            m.items[p.1],
            p.0,
        ));
        if p.1 != id {
            assert(n.items.contains_key(p.1) <==> m.items.contains_key(p.1));
        }
        if p.1 == id {
            assert(expires_at(i, p.0) ==> expires == Some(p.0));
            if n.items.contains_key(id) {
                assert(!expires_at(n.items[id], p.0));
            }
        }
    }
}

/// Gate keys of an item that keeps them.
pub proof fn lemma_gates_kept(m: Model, n: Model, id: ItemId)
    requires
        gates_known(m),
        n.gate_members == m.gate_members,
        forall|x: ItemId|
            x != id && #[trigger] n.items.contains_key(x) ==> m.items.contains_key(x) && n.items[x]
                == m.items[x],
        n.items.contains_key(id) ==> m.items.contains_key(id) && n.items[id].gate_keys
            == m.items[id].gate_keys && (n.items[id].superseded || !m.items[id].superseded),
    ensures
        gates_known(n),
{
    assert forall|x: ItemId, k: Seq<char>|
        n.items.contains_key(x) && !n.items[x].superseded && #[trigger]
        n.items[x].gate_keys.contains(k) implies n.gate_members.contains((k, x)) by {
        assert(m.items[x].gate_keys.contains(k));
    }
}

/// Gate keys of an item that changes them.
pub proof fn lemma_gates_changed(m: Model, n: Model, id: ItemId)
    requires
        gates_known(m),
        m.items.contains_key(id),
        n.items.contains_key(id),
        m.items[id].superseded ==> n.items[id].superseded,
        n.gate_members == regated(
            m,
            id,
            m.items[id].gate_keys,
            n.items[id].gate_keys,
        ).gate_members,
        forall|x: ItemId|
            x != id && #[trigger] n.items.contains_key(x) ==> m.items.contains_key(x) && n.items[x]
                == m.items[x],
    ensures
        gates_known(n),
{
    let (before, after) = (m.items[id].gate_keys, n.items[id].gate_keys);
    lemma_regated(m, id, before, after);
    assert forall|x: ItemId, k: Seq<char>|
        n.items.contains_key(x) && !n.items[x].superseded && #[trigger]
        n.items[x].gate_keys.contains(k) implies n.gate_members.contains((k, x)) by {
        if x == id {
            if before.contains(k) {
                assert(m.items[id].gate_keys.contains(k));
            }
        } else {
            assert(m.items[x].gate_keys.contains(k));
        }
    }
}

/// Gate keys of an item that leaves all of them.
pub proof fn lemma_gates_left(m: Model, n: Model, id: ItemId, before: Seq<Seq<char>>)
    requires
        gates_known(m),
        n.gate_members == regated(m, id, before, Seq::empty()).gate_members,
        n.items.contains_key(id) ==> n.items[id].superseded,
        forall|x: ItemId|
            x != id && #[trigger] n.items.contains_key(x) ==> m.items.contains_key(x) && n.items[x]
                == m.items[x],
    ensures
        gates_known(n),
{
    lemma_regated(m, id, before, Seq::empty());
    assert forall|x: ItemId, k: Seq<char>|
        n.items.contains_key(x) && !n.items[x].superseded && #[trigger]
        n.items[x].gate_keys.contains(k) implies n.gate_members.contains((k, x)) by {
        assert(m.items[x].gate_keys.contains(k));
    }
}

/// A step of an item's life keeps everything but, where it is claimed, the lease indexes.
proof fn lemma_transition_keeps(
    m: Model,
    id: ItemId,
    ev: ItemEvent,
    at: Option<UtcTimestamp>,
    pos: Option<PositionV>,
)
    requires
        consistent(m),
        room_for(m, id),
        transitioned(m, id, ev, at, pos).1 is Ok,
    ensures
        ({
            let n = transitioned(m, id, ev, at, pos).0;
            let state = next_state(m.items[id].state, ev)->Some_0;
            &&& keyed(n)
            &&& places_exact(n)
            &&& gates_known(n)
            &&& counts_exact(n)
            &&& !(ev is Claim) ==> leases_exact(n)
            &&& m.items.contains_key(id)
            &&& !m.items[id].superseded
            &&& next_state(m.items[id].state, ev) is Some
            &&& n.items == m.items.insert(id, moved(m.items[id], state, at, pos))
            &&& ev is Claim ==> n.leased == m.leased && n.by_consumer == m.by_consumer
                && n.by_expiry == m.by_expiry && m.items[id].state is Pending
        }),
{
    let i = m.items[id];
    let state = next_state(i.state, ev)->Some_0;
    let j = moved(i, state, at, pos);
    let n = transitioned(m, id, ev, at, pos).0;
    lemma_places_move(m, n, id, i, j, ready(m, i), ready(m, j));
    lemma_counts_put(m, id, j);
    lemma_gates_kept(m, n, id);
    if i.state is Leased {
        lemma_leases_ended(m, n, id, i.lease_expires_at);
    }
}

/// A claim keeps the state consistent.
pub proof fn law_claim_keeps(
    m: Model,
    id: ItemId,
    token: Seq<char>,
    expires: UtcTimestamp,
    worker: Option<Seq<char>>,
    cohort: bool,
)
    requires
        consistent(m),
        room_for(m, id),
        claimed(m, id, token, expires, worker, cohort).1 is Ok,
    ensures
        consistent(claimed(m, id, token, expires, worker, cohort).0),
{
    lemma_transition_keeps(m, id, ItemEvent::Claim, None, None);
    let n = transitioned(m, id, ItemEvent::Claim, None, None).0;
    let o = claimed(m, id, token, expires, worker, cohort).0;
    let (i, j) = (n.items[id], o.items[id]);
    lemma_places_move(n, o, id, i, j, false, false);
    lemma_gates_kept(n, o, id);
    lemma_counts_put(n, id, j);
    assert(leases_exact(o)) by {
        assert forall|x: ItemId| #[trigger]
            o.leased.contains(x) <==> o.items.contains_key(x) && held(o.items[x]) by {
            assert(m.leased.contains(x) <==> m.items.contains_key(x) && held(m.items[x]));
        }
        assert forall|p: (Seq<char>, ItemId)| #[trigger]
            o.by_consumer.contains(p) <==> o.items.contains_key(p.1) && held(o.items[p.1])
                && o.items[p.1].lease_token == Some(p.0) by {
            assert(m.by_consumer.contains(p) <==> m.items.contains_key(p.1) && held(m.items[p.1])
                && m.items[p.1].lease_token == Some(p.0));
        }
        assert forall|p: (UtcTimestamp, ItemId)| #[trigger]
            o.by_expiry.contains(p) <==> o.items.contains_key(p.1) && expires_at(
                o.items[p.1],
                p.0,
            ) by {
            assert(m.by_expiry.contains(p) <==> m.items.contains_key(p.1) && expires_at(
                m.items[p.1],
                p.0,
            ));
        }
    }
}

/// The expiry of a lease keeps the state consistent.
pub proof fn law_lapse_keeps(m: Model, id: ItemId)
    requires
        consistent(m),
        room_for(m, id),
        lapsed(m, id).1 is Ok,
    ensures
        consistent(lapsed(m, id).0),
{
    lemma_transition_keeps(m, id, ItemEvent::LeaseExpired, None, None);
    let n = transitioned(m, id, ItemEvent::LeaseExpired, None, None).0;
    let o = lapsed(m, id).0;
    lemma_places_move(n, o, id, n.items[id], o.items[id], false, false);
    lemma_gates_kept(n, o, id);
    lemma_counts_put(n, id, o.items[id]);
    lemma_leases_frame(n, o, id);
}

/// A finalization keeps the state consistent.
pub proof fn law_finalize_keeps(
    m: Model,
    out: FinalizeOutcome,
    at: Option<UtcTimestamp>,
    pos: Option<PositionV>,
)
    requires
        consistent(m),
        room_for(m, out.item_id),
        finalized(m, out, at, pos).1 is Ok,
    ensures
        consistent(finalized(m, out, at, pos).0),
{
    let id = out.item_id;
    let ev = final_event(m, out)->Ok_0;
    lemma_transition_keeps(m, id, ev, at, pos);
    let n = transitioned(m, id, ev, at, pos).0;
    let i = released_item(n.items[id]);
    let j = rescheduled_item(i, out, at);
    let o = handed_back(n, out, at);
    let rekey = ready(n, i) && key_of(i, n.priority_model) != key_of(j, n.priority_model);
    let n1 = put(n, id, i);
    lemma_places_move(n, n1, id, n.items[id], i, false, false);
    assert(o.items =~= n.items.insert(id, j));
    assert(n1.items.insert(id, j) =~= o.items);
    lemma_places_move(n1, o, id, i, j, rekey, rekey);
    lemma_gates_kept(n, o, id);
    lemma_counts_put(n, id, j);
    lemma_leases_frame(n, o, id);
}

/// An ordinary lease is held.
pub open spec fn ordinary_lease(m: Model, id: ItemId) -> bool {
    m.items.contains_key(id) && held(m.items[id]) && !m.items[id].lease_is_cohort
}

/// A renewal keeps the state consistent.
pub proof fn law_renew_keeps(m: Model, id: ItemId, expires: UtcTimestamp)
    requires
        consistent(m),
        room_for(m, id),
        ordinary_lease(m, id),
    ensures
        consistent(renewed(m, id, expires).0),
{
    let n = renewed(m, id, expires).0;
    let (i, j) = (m.items[id], n.items[id]);
    lemma_places_move(m, n, id, i, j, false, false);
    lemma_gates_kept(m, n, id);
    lemma_counts_put(m, id, j);
    assert(leases_exact(n)) by {
        assert forall|x: ItemId| #[trigger]
            n.leased.contains(x) <==> n.items.contains_key(x) && held(n.items[x]) by {
            assert(m.leased.contains(x) <==> m.items.contains_key(x) && held(m.items[x]));
        }
        assert forall|p: (Seq<char>, ItemId)| #[trigger]
            n.by_consumer.contains(p) <==> n.items.contains_key(p.1) && held(n.items[p.1])
                && n.items[p.1].lease_token == Some(p.0) by {
            assert(m.by_consumer.contains(p) <==> m.items.contains_key(p.1) && held(m.items[p.1])
                && m.items[p.1].lease_token == Some(p.0));
        }
        assert forall|p: (UtcTimestamp, ItemId)| #[trigger]
            n.by_expiry.contains(p) <==> n.items.contains_key(p.1) && expires_at(
                n.items[p.1],
                p.0,
            ) by {
            assert(m.by_expiry.contains(p) <==> m.items.contains_key(p.1) && expires_at(
                m.items[p.1],
                p.0,
            ));
        }
    }
}

/// A reassignment keeps the state consistent.
pub proof fn law_reassign_keeps(m: Model, id: ItemId, token: Seq<char>, expires: UtcTimestamp)
    requires
        consistent(m),
        room_for(m, id),
        ordinary_lease(m, id),
    ensures
        consistent(reassigned(m, id, token, expires).0),
{
    let n = reassigned(m, id, token, expires).0;
    let (i, j) = (m.items[id], n.items[id]);
    lemma_places_move(m, n, id, i, j, false, false);
    lemma_gates_kept(m, n, id);
    lemma_counts_put(m, id, j);
    assert(leases_exact(n)) by {
        assert forall|x: ItemId| #[trigger]
            n.leased.contains(x) <==> n.items.contains_key(x) && held(n.items[x]) by {
            assert(m.leased.contains(x) <==> m.items.contains_key(x) && held(m.items[x]));
        }
        assert forall|p: (Seq<char>, ItemId)| #[trigger]
            n.by_consumer.contains(p) <==> n.items.contains_key(p.1) && held(n.items[p.1])
                && n.items[p.1].lease_token == Some(p.0) by {
            assert(m.by_consumer.contains(p) <==> m.items.contains_key(p.1) && held(m.items[p.1])
                && m.items[p.1].lease_token == Some(p.0));
        }
        assert forall|p: (UtcTimestamp, ItemId)| #[trigger]
            n.by_expiry.contains(p) <==> n.items.contains_key(p.1) && expires_at(
                n.items[p.1],
                p.0,
            ) by {
            assert(m.by_expiry.contains(p) <==> m.items.contains_key(p.1) && expires_at(
                m.items[p.1],
                p.0,
            ));
        }
    }
}

/// An update names an item that nothing replaced.
pub open spec fn update_valid(m: Model, c: UpdateFieldsCommand) -> bool {
    room_for(m, c.item_id) && m.items.contains_key(c.item_id) && !m.items[c.item_id].superseded
}

/// An update keeps the state consistent.
pub proof fn law_update_keeps(m: Model, c: UpdateFieldsCommand, at: Option<UtcTimestamp>)
    requires
        consistent(m),
        update_valid(m, c),
        updated(m, c, at).1 is Ok,
    ensures
        consistent(updated(m, c, at).0),
{
    let id = c.item_id;
    let i = m.items[id];
    let j = updated_item(i, c, at);
    let n = updated(m, c, at).0;
    let a = index_keys(m, i.fields, i.entity)->Ok_0;
    let b = index_keys(m, updated_fields(i, c), updated_entity(i, c))->Ok_0;
    let m0 = put(m, id, j);
    lemma_indexed_frame(m0, id, lacking(a, b));
    lemma_indexed_frame(unindexed(m0, id, lacking(a, b)), id, lacking(b, a));
    lemma_places_move(
        m,
        n,
        id,
        i,
        j,
        moves_place(c) && ready(m, i),
        moves_place(c) && ready(m, j),
    );
    lemma_gates_changed(m, n, id);
    lemma_counts_put(m, id, j);
    lemma_leases_frame(m, n, id);
}

/// A purge keeps the state consistent.
pub proof fn law_purge_keeps(m: Model, id: ItemId)
    requires
        consistent(m),
        purged(m, id).1 is Ok,
    ensures
        consistent(purged(m, id).0),
{
    if m.items.contains_key(id) {
        let i = m.items[id];
        let m0 = Model { items: m.items.remove(id), ..m };
        let n = purged(m, id).0;
        let m1 = if i.superseded {
            m0
        } else {
            Model { metrics: uncounted(m0.metrics, i.state), ..m0 }
        };
        let m2 = match i.explicit_key {
            Some(k) => Model { by_key: m1.by_key.remove(k), ..m1 },
            None => m1,
        };
        let m3 = regated(m2, id, i.gate_keys, Seq::empty());
        let m4 = leave_if(m3, i.state is Pending, i);
        let m5 = if i.state is Leased {
            unleased(m4, id, i.lease_token, i.lease_expires_at)
        } else {
            m4
        };
        let keys = index_keys(m5, i.fields, i.entity)->Ok_0;
        lemma_indexed_frame(m5, id, keys);
        lemma_places_gone(m, n, id, i.state is Pending);
        lemma_gates_left(m, n, id, i.gate_keys);
        if i.state is Leased {
            lemma_leases_ended(m, n, id, i.lease_expires_at);
        } else {
            lemma_leases_frame(m, n, id);
        }
        assert(counts_exact(n)) by {
            lemma_counts_put(m, id, i);
            lemma_in_state_remove(m.items, id, ItemState::Pending);
            lemma_in_state_remove(m.items, id, ItemState::Leased);
            lemma_in_state_remove(m.items, id, ItemState::Complete);
            lemma_in_state_remove(m.items, id, ItemState::Failed);
        }
    }
}

/// A resolved mutation names a live item and leases nothing.
pub open spec fn replace_valid(m: Model, id: ItemId, v: ResolvedItemValues) -> bool {
    &&& counts_room(m, 1)
    &&& m.items.contains_key(id)
    &&& v.state is Leased ==> m.items[id].state is Leased
}

/// A resolved mutation keeps the state consistent.
pub proof fn law_replace_keeps(
    m: Model,
    id: ItemId,
    v: ResolvedItemValues,
    at: Option<UtcTimestamp>,
    pos: Option<PositionV>,
)
    requires
        consistent(m),
        replace_valid(m, id, v),
        replaced(m, id, v, at, pos).1 is Ok,
    ensures
        consistent(replaced(m, id, v, at, pos).0),
{
    let i = m.items[id];
    let ends = ends_lease(i, v);
    let w = withdrawn(m, id, i, ends);
    let j = replaced_item(i, v, ends, at, pos);
    let n = replaced(m, id, v, at, pos).0;
    let a = index_keys(m, i.fields, i.entity)->Ok_0;
    let b = values_keys(w, v)->Ok_0;
    let m0 = put(w, id, j);
    lemma_indexed_frame(m0, id, lacking(a, b));
    lemma_indexed_frame(unindexed(m0, id, lacking(a, b)), id, lacking(b, a));
    lemma_places_move(
        m,
        n,
        id,
        i,
        j,
        ready(m, i) && !i.superseded,
        ready(m, j) && !j.superseded,
    );
    lemma_gates_changed(m, n, id);
    lemma_counts_put(m, id, j);
    if ends {
        lemma_leases_ended(
            m,
            n,
            id,
            if i.lease_is_cohort {
                None
            } else {
                i.lease_expires_at
            },
        );
    } else {
        lemma_leases_frame(m, n, id);
    }
}

/// Failing a cohort member keeps the state consistent.
pub proof fn law_cohort_fail_keeps(
    m: Model,
    id: ItemId,
    at: Option<UtcTimestamp>,
    pos: Option<PositionV>,
)
    requires
        consistent(m),
        room_for(m, id),
    ensures
        consistent(cohort_failed(m, id, at, pos).0),
{
    if m.items.contains_key(id) {
        let n = cohort_failed(m, id, at, pos).0;
        let (i, j) = (m.items[id], n.items[id]);
        lemma_places_move(m, n, id, i, j, i.state is Pending, false);
        lemma_gates_kept(m, n, id);
        lemma_counts_put(m, id, j);
        if i.state is Leased {
            lemma_leases_ended(
                m,
                n,
                id,
                if i.lease_is_cohort {
                    None
                } else {
                    i.lease_expires_at
                },
            );
        } else {
            lemma_leases_frame(m, n, id);
        }
    }
}

/// Fencing a lease keeps the state consistent.
pub proof fn law_fence_keeps(m: Model, id: ItemId, on: bool)
    requires
        consistent(m),
    ensures
        consistent(fenced(m, id, on).0),
{
    if m.items.contains_key(id) {
        let n = fenced(m, id, on).0;
        lemma_places_move(m, n, id, m.items[id], n.items[id], false, false);
        lemma_gates_kept(m, n, id);
        lemma_counts_put(m, id, n.items[id]);
        lemma_leases_frame(m, n, id);
    }
}

/// The replaced item is pending or unknown, and the replacement is new.
pub open spec fn supersede_valid(m: Model, c: ReplacePendingCommand) -> bool {
    let id = c.superseded_item_id;
    &&& counts_room(m, 1)
    &&& m.items.contains_key(id) ==> m.items[id].state is Pending
    &&& !m.items.contains_key(c.replacement@.item_id)
    &&& c.replacement@.item_id != id
}

/// A replacement keeps the state consistent.
pub proof fn law_supersede_keeps(m: Model, c: ReplacePendingCommand, at: Option<UtcTimestamp>)
    requires
        consistent(m),
        supersede_valid(m, c),
        superseded(m, c, at).1 is Ok,
    ensures
        consistent(superseded(m, c, at).0),
{
    let id = c.superseded_item_id;
    if m.items.contains_key(id) {
        let i = m.items[id];
        let j = Item { superseded: true, ..i };
        let keys = index_keys(m, i.fields, i.entity)->Ok_0;
        let m1 = put(m, id, j);
        let m2 = leave_if(m1, i.state is Pending, i);
        let m3 = if i.superseded {
            m2
        } else {
            Model { metrics: uncounted(m2.metrics, i.state), ..m2 }
        };
        lemma_indexed_frame(m3, id, keys);
        let m4 = regated(unindexed(m3, id, keys), id, i.gate_keys, Seq::empty());
        let n = Model { by_key: m4.by_key.remove(c.client_item_key@), ..m4 };
        lemma_places_move(m, n, id, i, j, i.state is Pending, false);
        lemma_gates_left(m, n, id, i.gate_keys);
        lemma_counts_put(m, id, j);
        lemma_leases_frame(m, n, id);
        law_push_keeps(n, c.replacement@, at);
    } else {
        let n = Model { by_key: m.by_key.remove(c.client_item_key@), ..m };
        law_push_keeps(n, c.replacement@, at);
    }
}

/// The item has a place under one set of blocked gates.
spec fn stands_under(blocked: Set<Seq<char>>, i: Item) -> bool {
    i.state is Pending && !i.superseded && !gated(blocked, i.gate_keys)
}

/// Half way through a change of gates: the places of the items in `done` follow the new gates, those of
/// the others the old ones.
spec fn places_mixed(m: Model, before: Set<Seq<char>>, done: Set<ItemId>) -> bool {
    &&& forall|id: ItemId| #[trigger]
        m.items.contains_key(id) && stands_under(
            if done.contains(id) {
                m.blocked_gates
            } else {
                before
            },
            m.items[id],
        ) ==> m.eligible.contains(key_of(m.items[id], m.priority_model))
    &&& forall|k: EligV| #[trigger]
        m.eligible.contains(k) ==> m.items.contains_key(k.item) && stands_under(
            if done.contains(k.item) {
                m.blocked_gates
            } else {
                before
            },
            m.items[k.item],
        ) && key_of(m.items[k.item], m.priority_model) == k
    &&& m.compact ==> forall|k: EligV| #[trigger] m.eligible.contains(k) ==> is_plain(k)
}

proof fn lemma_gate_step(m: Model, before: Set<Seq<char>>, done: Set<ItemId>, id: ItemId)
    requires
        keyed(m),
        places_mixed(m, before, done),
        !done.contains(id),
    ensures
        places_mixed(gate_settled(m, before, id).0, before, done.insert(id)),
{
    let n = gate_settled(m, before, id).0;
    let pm = m.priority_model;
    let after = done.insert(id);
    if m.items.contains_key(id) {
        let i = m.items[id];
        let ki = key_of(i, pm);
        assert forall|x: ItemId| #[trigger]
            n.items.contains_key(x) && stands_under(
                if after.contains(x) {
                    n.blocked_gates
                } else {
                    before
                },
                n.items[x],
            ) implies n.eligible.contains(key_of(n.items[x], pm)) by {
            assert(m.items.contains_key(x));
            if x != id {
                assert(key_of(m.items[x], pm).item == x);
            }
        }
        assert forall|k: EligV| #[trigger]
            n.eligible.contains(k) implies n.items.contains_key(k.item) && stands_under(
            if after.contains(k.item) {
                n.blocked_gates
            } else {
                before
            },
            n.items[k.item],
        ) && key_of(n.items[k.item], pm) == k by {
            if !m.eligible.contains(k) {
                assert(k == ki);
            } else if k.item == id {
                assert(k == ki);
                if m.compact {
                    assert(is_plain(k));
                    assert(k == plain_key(ki.created_seq, ki.item));
                }
            }
        }
        if n.compact {
            assert forall|k: EligV| #[trigger] n.eligible.contains(k) implies is_plain(k) by {
                if !m.eligible.contains(k) {
                    assert(k == ki);
                }
            }
        }
    } else {
        assert forall|x: ItemId| #[trigger]
            n.items.contains_key(x) && stands_under(
                if after.contains(x) {
                    n.blocked_gates
                } else {
                    before
                },
                n.items[x],
            ) implies n.eligible.contains(key_of(n.items[x], pm)) by {
            assert(m.items.contains_key(x));
        }
    }
}

proof fn lemma_gate_run(m: Model, before: Set<Seq<char>>, done: Set<ItemId>, ids: Seq<ItemId>)
    requires
        keyed(m),
        places_mixed(m, before, done),
        ids.no_duplicates(),
        forall|j: int| 0 <= j < ids.len() ==> !done.contains(#[trigger] ids[j]),
    ensures
        places_mixed(run(m, ids, gate_settle(before)).0, before, done.union(ids.to_set())),
    decreases ids.len(),
{
    if ids.len() == 0 {
        assert(done.union(ids.to_set()) =~= done);
    } else {
        lemma_gate_step(m, before, done, ids[0]);
        let n = gate_settled(m, before, ids[0]).0;
        let rest = ids.drop_first();
        assert forall|j: int| 0 <= j < rest.len() implies !done.insert(ids[0]).contains(
            #[trigger] rest[j],
        ) by {
            assert(rest[j] == ids[j + 1]);
        }
        lemma_gate_run(n, before, done.insert(ids[0]), rest);
        assert(done.insert(ids[0]).union(rest.to_set()) =~= done.union(ids.to_set())) by {
            assert forall|x: ItemId|
                ids.contains(x) == (x == ids[0] || rest.contains(x)) by {
                if ids.contains(x) {
                    let j = choose|j: int| 0 <= j < ids.len() && ids[j] == x;
                    if j > 0 {
                        assert(rest[j - 1] == x);
                    }
                }
                if rest.contains(x) {
                    let j = choose|j: int| 0 <= j < rest.len() && rest[j] == x;
                    assert(ids[j + 1] == x);
                }
            }
        }
    }
}

/// A change of gates moves places, and nothing else.
pub proof fn lemma_gates_places(m: Model, keys: Seq<Seq<char>>, blocked: bool)
    requires
        placed(m),
    ensures
        ({
            let n = gates_changed(m, keys, blocked).0;
            &&& placed(n)
            &&& n.items == m.items
            &&& n.leased == m.leased
            &&& n.by_consumer == m.by_consumer
            &&& n.by_expiry == m.by_expiry
            &&& n.metrics == m.metrics
        }),
{
    let under = under_gates(m, keys);
    let ids = listing_of::<u64>(under);
    let start = Model { blocked_gates: gates_after(m.blocked_gates, keys, blocked), ..m };
    let n = gates_changed(m, keys, blocked).0;
    let all = m.gate_members.map(|p: (Seq<char>, ItemId)| p.1);
    m.gate_members.lemma_map_finite(|p: (Seq<char>, ItemId)| p.1);
    assert(under.subset_of(all)) by {
        assert forall|id: ItemId| under.contains(id) implies all.contains(id) by {
            let k = choose|k: Seq<char>| #[trigger]
                m.gate_members.contains((k, id)) && keys.contains(k);
            assert(m.gate_members.contains((k, id)));
        }
    }
    vstd::set_lib::lemma_set_subset_finite(all, under);
    lemma_listing_exists::<u64>(under);
    lemma_ascending_distinct::<u64>(ids);
    lemma_gates_frame(start, ids, m.blocked_gates);
    assert(places_mixed(start, m.blocked_gates, Set::empty()));
    lemma_gate_run(start, m.blocked_gates, Set::empty(), ids);
    assert(Set::<ItemId>::empty().union(ids.to_set()) =~= under);
    assert forall|id: ItemId| #[trigger]
        m.items.contains_key(id) && !m.items[id].superseded && !under.contains(id) implies gated(
        m.blocked_gates,
        m.items[id].gate_keys,
    ) == gated(start.blocked_gates, m.items[id].gate_keys) by {
        let g = m.items[id].gate_keys;
        assert forall|j: int| 0 <= j < g.len() implies m.blocked_gates.contains(#[trigger] g[j])
            == start.blocked_gates.contains(g[j]) by {
            assert(g.contains(g[j]));
            assert(m.gate_members.contains((g[j], id)));
            if keys.contains(g[j]) {
                assert(under.contains(id));
            }
            assert(keys.to_set().contains(g[j]) == keys.contains(g[j]));
        }
        if gated(m.blocked_gates, g) {
            let j = choose|j: int| 0 <= j < g.len() && m.blocked_gates.contains(#[trigger] g[j]);
            assert(start.blocked_gates.contains(g[j]));
        }
        if gated(start.blocked_gates, g) {
            let j = choose|j: int|
                0 <= j < g.len() && start.blocked_gates.contains(#[trigger] g[j]);
            assert(m.blocked_gates.contains(g[j]));
        }
    }
    assert(places_exact(n)) by {
        assert forall|id: ItemId| #[trigger]
            n.items.contains_key(id) && stands(n, n.items[id]) implies n.eligible.contains(
            key_of(n.items[id], n.priority_model),
        ) by {
            assert(m.items.contains_key(id));
        }
        assert forall|k: EligV| #[trigger]
            n.eligible.contains(k) implies n.items.contains_key(k.item) && stands(
            n,
            n.items[k.item],
        ) && key_of(n.items[k.item], n.priority_model) == k by {
            assert(m.items.contains_key(k.item));
        }
    }
}

/// A change of gates keeps the state consistent.
pub proof fn law_gates_keep(m: Model, keys: Seq<Seq<char>>, blocked: bool)
    requires
        consistent(m),
    ensures
        consistent(gates_changed(m, keys, blocked).0),
{
    lemma_gates_places(m, keys, blocked);
    lemma_leases_same(m, gates_changed(m, keys, blocked).0);
}

proof fn lemma_leases_same(m: Model, n: Model)
    requires
        leases_exact(m),
        n.items == m.items,
        n.leased == m.leased,
        n.by_consumer == m.by_consumer,
        n.by_expiry == m.by_expiry,
    ensures
        leases_exact(n),
{
}

/// Each step of a run is valid when its turn comes.
pub open spec fn run_valid<A>(
    m: Model,
    list: Seq<A>,
    f: spec_fn(Model, A) -> Step,
    v: spec_fn(Model, A) -> bool,
) -> bool
    decreases list.len(),
{
    list.len() == 0 || (v(m, list[0]) && run_valid(f(m, list[0]).0, list.drop_first(), f, v))
}

proof fn lemma_run_keeps<A>(
    m: Model,
    list: Seq<A>,
    f: spec_fn(Model, A) -> Step,
    v: spec_fn(Model, A) -> bool,
)
    requires
        consistent(m),
        run_valid(m, list, f, v),
        run(m, list, f).1 is Ok,
        forall|n: Model, a: A|
            consistent(n) && v(n, a) && (#[trigger] f(n, a)).1 is Ok ==> consistent(f(n, a).0),
    ensures
        consistent(run(m, list, f).0),
    decreases list.len(),
{
    if list.len() > 0 {
        assert(f(m, list[0]).1 is Ok);
        lemma_run_keeps(f(m, list[0]).0, list.drop_first(), f, v);
    }
}

pub open spec fn pushes_valid() -> spec_fn(Model, PushItem) -> bool {
    |m: Model, p: PushItem| push_valid(m, p@)
}

pub open spec fn has_room() -> spec_fn(Model, ItemId) -> bool {
    |m: Model, id: ItemId| room_for(m, id)
}

pub open spec fn settles_valid() -> spec_fn(Model, FinalizeOutcome) -> bool {
    |m: Model, o: FinalizeOutcome| room_for(m, o.item_id)
}

pub open spec fn leases_valid() -> spec_fn(Model, ItemId) -> bool {
    |m: Model, id: ItemId| room_for(m, id) && ordinary_lease(m, id)
}

pub open spec fn updates_valid() -> spec_fn(Model, UpdateFieldsCommand) -> bool {
    |m: Model, c: UpdateFieldsCommand| update_valid(m, c)
}

pub open spec fn mutation_valid(m: Model, x: ResolvedItemMutation) -> bool {
    match x.action {
        ResolvedItemMutationAction::Purge => true,
        ResolvedItemMutationAction::Replace(v) => replace_valid(m, x.item_id, v),
    }
}

pub open spec fn mutations_valid() -> spec_fn(Model, ResolvedItemMutation) -> bool {
    |m: Model, x: ResolvedItemMutation| mutation_valid(m, x)
}

pub open spec fn anything<A>() -> spec_fn(Model, A) -> bool {
    |m: Model, a: A| true
}

/// What has to be checked of a command before it is committed: pushed items are new, renewed and
/// reassigned leases are ordinary and held, updated items are live, a mutation makes no lease, and a
/// replaced item is pending.
pub open spec fn valid(
    m: Model,
    at: Option<UtcTimestamp>,
    pos: Option<PositionV>,
    cmd: QueueCommand,
) -> bool {
    match cmd {
        QueueCommand::Push(items) => run_valid(m, items@, insert_each(at), pushes_valid()),
        QueueCommand::Claim(c) => run_valid(
            m,
            c.item_ids@,
            claim_each(c.lease_token@, c.lease_expires_at, opt_text(c.worker_id), false),
            has_room(),
        ),
        QueueCommand::CohortClaim(c) => run_valid(
            m,
            c.item_ids@,
            claim_each(c.lease_token@, c.lease_expires_at, None, true),
            has_room(),
        ),
        QueueCommand::RenewLease(c) => run_valid(
            m,
            c.item_ids@,
            renew_each(c.lease_expires_at),
            leases_valid(),
        ),
        QueueCommand::ReassignLease(c) => run_valid(
            m,
            c.item_ids@,
            reassign_each(c.lease_token@, c.lease_expires_at),
            leases_valid(),
        ),
        QueueCommand::UpdateFields(c) => update_valid(m, c),
        QueueCommand::UpdateFieldsBatch(cs) => run_valid(m, cs@, update_each(at), updates_valid()),
        QueueCommand::MutateItems(c) => run_valid(
            m,
            c.items@,
            mutate_each(at, pos),
            mutations_valid(),
        ),
        QueueCommand::Finalize(os) => run_valid(m, os@, finalize_each(at, pos), settles_valid()),
        QueueCommand::ReplacePending(c) => supersede_valid(m, c),
        QueueCommand::LeaseExpired(ids) => run_valid(m, ids@, lapse_each(), has_room()),
        QueueCommand::CohortExpired(group) => run_valid(
            m,
            listing_of::<u64>(live_group(m, group@)),
            cohort_fail_each(at, pos),
            has_room(),
        ),
        _ => true,
    }
}

/// Every command that was checked and applies without failure keeps the indexes and counts of a queue
/// in agreement with its items.
#[verifier::rlimit(40)]
pub proof fn law_valid_commands_keep_consistency(
    m: Model,
    at: Option<UtcTimestamp>,
    pos: Option<PositionV>,
    cmd: QueueCommand,
)
    requires
        consistent(m),
        valid(m, at, pos, cmd),
        applied(m, at, pos, cmd).1 is Ok,
    ensures
        consistent(applied(m, at, pos, cmd).0),
{
    match cmd {
        QueueCommand::Push(items) => {
            let f = insert_each(at);
            let v = pushes_valid();
            assert forall|n: Model, a: PushItem|
                consistent(n) && v(n, a) && (#[trigger] f(n, a)).1 is Ok implies consistent(
                f(n, a).0,
            ) by {
                law_push_keeps(n, a@, at);
            }
            lemma_run_keeps(m, items@, f, v);
        },
        QueueCommand::Claim(c) => {
            let f = claim_each(c.lease_token@, c.lease_expires_at, opt_text(c.worker_id), false);
            let v = has_room();
            assert forall|n: Model, a: ItemId|
                consistent(n) && v(n, a) && (#[trigger] f(n, a)).1 is Ok implies consistent(
                f(n, a).0,
            ) by {
                law_claim_keeps(
                    n,
                    a,
                    c.lease_token@,
                    c.lease_expires_at,
                    opt_text(c.worker_id),
                    false,
                );
            }
            lemma_run_keeps(m, c.item_ids@, f, v);
        },
        QueueCommand::CohortClaim(c) => {
            let f = claim_each(c.lease_token@, c.lease_expires_at, None, true);
            let v = has_room();
            assert forall|n: Model, a: ItemId|
                consistent(n) && v(n, a) && (#[trigger] f(n, a)).1 is Ok implies consistent(
                f(n, a).0,
            ) by {
                law_claim_keeps(n, a, c.lease_token@, c.lease_expires_at, None, true);
            }
            lemma_run_keeps(m, c.item_ids@, f, v);
        },
        QueueCommand::RenewLease(c) => {
            let f = renew_each(c.lease_expires_at);
            let v = leases_valid();
            assert forall|n: Model, a: ItemId|
                consistent(n) && v(n, a) && (#[trigger] f(n, a)).1 is Ok implies consistent(
                f(n, a).0,
            ) by {
                law_renew_keeps(n, a, c.lease_expires_at);
            }
            lemma_run_keeps(m, c.item_ids@, f, v);
        },
        QueueCommand::ReassignLease(c) => {
            let f = reassign_each(c.lease_token@, c.lease_expires_at);
            let v = leases_valid();
            assert forall|n: Model, a: ItemId|
                consistent(n) && v(n, a) && (#[trigger] f(n, a)).1 is Ok implies consistent(
                f(n, a).0,
            ) by {
                law_reassign_keeps(n, a, c.lease_token@, c.lease_expires_at);
            }
            lemma_run_keeps(m, c.item_ids@, f, v);
        },
        QueueCommand::UpdateFields(c) => {
            law_update_keeps(m, c, at);
        },
        QueueCommand::UpdateFieldsBatch(cs) => {
            let f = update_each(at);
            let v = updates_valid();
            assert forall|n: Model, a: UpdateFieldsCommand|
                consistent(n) && v(n, a) && (#[trigger] f(n, a)).1 is Ok implies consistent(
                f(n, a).0,
            ) by {
                law_update_keeps(n, a, at);
            }
            lemma_run_keeps(m, cs@, f, v);
        },
        QueueCommand::MutateItems(c) => {
            let f = mutate_each(at, pos);
            let v = mutations_valid();
            assert forall|n: Model, a: ResolvedItemMutation|
                consistent(n) && v(n, a) && (#[trigger] f(n, a)).1 is Ok implies consistent(
                f(n, a).0,
            ) by {
                match a.action {
                    ResolvedItemMutationAction::Purge => {
                        law_purge_keeps(n, a.item_id);
                    },
                    ResolvedItemMutationAction::Replace(w) => {
                        law_replace_keeps(n, a.item_id, w, at, pos);
                    },
                }
            }
            lemma_run_keeps(m, c.items@, f, v);
            let mid = run(m, c.items@, f).0;
            let g = gate_each();
            assert forall|n: Model, a: GateChange|
                consistent(n) && (#[trigger] g(n, a)).1 is Ok implies consistent(g(n, a).0) by {
                law_gates_keep(n, texts(a.gate_keys@), a.blocked);
            }
            lemma_any_run_keeps(mid, c.gate_changes@, g);
        },
        QueueCommand::Finalize(os) => {
            let f = finalize_each(at, pos);
            let v = settles_valid();
            assert forall|n: Model, a: FinalizeOutcome|
                consistent(n) && v(n, a) && (#[trigger] f(n, a)).1 is Ok implies consistent(
                f(n, a).0,
            ) by {
                law_finalize_keeps(n, a, at, pos);
            }
            lemma_run_keeps(m, os@, f, v);
        },
        QueueCommand::ReplacePending(c) => {
            law_supersede_keeps(m, c, at);
        },
        QueueCommand::LeaseExpired(ids) => {
            let f = lapse_each();
            let v = has_room();
            assert forall|n: Model, a: ItemId|
                consistent(n) && v(n, a) && (#[trigger] f(n, a)).1 is Ok implies consistent(
                f(n, a).0,
            ) by {
                law_lapse_keeps(n, a);
            }
            lemma_run_keeps(m, ids@, f, v);
        },
        QueueCommand::CohortExpired(group) => {
            let f = cohort_fail_each(at, pos);
            let v = has_room();
            assert forall|n: Model, a: ItemId|
                consistent(n) && v(n, a) && (#[trigger] f(n, a)).1 is Ok implies consistent(
                f(n, a).0,
            ) by {
                law_cohort_fail_keeps(n, a, at, pos);
            }
            lemma_run_keeps(m, listing_of::<u64>(live_group(m, group@)), f, v);
        },
        QueueCommand::FenceLease(ids) => {
            let f = fence_each(true);
            assert forall|n: Model, a: ItemId|
                consistent(n) && (#[trigger] f(n, a)).1 is Ok implies consistent(f(n, a).0) by {
                law_fence_keeps(n, a, true);
            }
            lemma_any_run_keeps(m, ids@, f);
        },
        QueueCommand::UnfenceLease(ids) => {
            let f = fence_each(false);
            assert forall|n: Model, a: ItemId|
                consistent(n) && (#[trigger] f(n, a)).1 is Ok implies consistent(f(n, a).0) by {
                law_fence_keeps(n, a, false);
            }
            lemma_any_run_keeps(m, ids@, f);
        },
        QueueCommand::SetGates(g) => {
            law_gates_keep(m, texts(g.gate_keys@), g.blocked);
        },
        QueueCommand::WriteSideRecords(rs) => {
            let f = side_each();
            assert forall|n: Model, a: SideRecord|
                consistent(n) && (#[trigger] f(n, a)).1 is Ok implies consistent(f(n, a).0) by {
                lemma_same_work(n, f(n, a).0);
            }
            lemma_any_run_keeps(m, rs@, f);
        },
        QueueCommand::PurgeItems(c) => {
            let f = purge_each();
            assert forall|n: Model, a: ItemId|
                consistent(n) && (#[trigger] f(n, a)).1 is Ok implies consistent(f(n, a).0) by {
                law_purge_keeps(n, a);
            }
            lemma_any_run_keeps(m, c.item_ids@, f);
        },
        _ => {
            lemma_same_work(m, applied(m, at, pos, cmd).0);
        },
    }
}

proof fn lemma_any_run_keeps<A>(m: Model, list: Seq<A>, f: spec_fn(Model, A) -> Step)
    requires
        consistent(m),
        run(m, list, f).1 is Ok,
        forall|n: Model, a: A|
            consistent(n) && (#[trigger] f(n, a)).1 is Ok ==> consistent(f(n, a).0),
    ensures
        consistent(run(m, list, f).0),
    decreases list.len(),
{
    if list.len() > 0 {
        assert(f(m, list[0]).1 is Ok);
        lemma_any_run_keeps(f(m, list[0]).0, list.drop_first(), f);
    }
}

proof fn lemma_same_work(m: Model, n: Model)
    requires
        consistent(m),
        n.items == m.items,
        n.leased == m.leased,
        n.by_consumer == m.by_consumer,
        n.by_expiry == m.by_expiry,
        n.eligible == m.eligible,
        n.compact == m.compact,
        n.priority_model == m.priority_model,
        n.blocked_gates == m.blocked_gates,
        n.gate_members == m.gate_members,
        n.metrics == m.metrics,
    ensures
        consistent(n),
{
    assert(places_exact(n)) by {
        assert forall|id: ItemId| #[trigger]
            n.items.contains_key(id) && stands(n, n.items[id]) implies n.eligible.contains(
            key_of(n.items[id], n.priority_model),
        ) by {
            assert(m.items.contains_key(id) && stands(m, m.items[id]));
        }
        assert forall|k: EligV| #[trigger]
            n.eligible.contains(k) implies n.items.contains_key(k.item) && stands(
            n,
            n.items[k.item],
        ) && key_of(n.items[k.item], n.priority_model) == k by {
            assert(m.eligible.contains(k));
        }
    }
    lemma_leases_same(m, n);
}

/// Side records and instance fences are no work: writing them changes no item, no index and no count.
pub proof fn law_side_records_are_no_work(
    m: Model,
    at: Option<UtcTimestamp>,
    pos: Option<PositionV>,
    cmd: QueueCommand,
)
    requires
        cmd is WriteSideRecords || cmd is AdvanceInstanceFence,
    ensures
        applied(m, at, pos, cmd).1 is Ok,
        applied(m, at, pos, cmd).0 == (Model {
            side_records: applied(m, at, pos, cmd).0.side_records,
            instance_fences: applied(m, at, pos, cmd).0.instance_fences,
            ..m
        }),
{
    match cmd {
        QueueCommand::WriteSideRecords(rs) => {
            lemma_side_run(m, rs@);
        },
        _ => {},
    }
}

proof fn lemma_side_run(m: Model, rs: Seq<SideRecord>)
    ensures
        run(m, rs, side_each()).1 is Ok,
        run(m, rs, side_each()).0 == (Model {
            side_records: run(m, rs, side_each()).0.side_records,
            ..m
        }),
    decreases rs.len(),
{
    if rs.len() > 0 {
        lemma_side_run(side_written(m, rs[0]).0, rs.drop_first());
    }
}

} // verus!
