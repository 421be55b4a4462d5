//! What a planned mutation makes of an item, in terms of the item and the patch.

use crate::effects::{changed_right, is_later_of, lemma_field_changes};
use crate::item::Item;
use crate::json::JsonV;
use crate::model::Model;
use crate::order::{OrderKey, ascending, lemma_listing_exists};
use crate::planning::{ActionV, BatchUpdateValue, GateKeyPatch, ItemMutationOutcome, ItemMutationPrecondition, ItemPatch, LeaseGuard, LifecyclePatch, RecordPlanV, ValuesV, planned_gate_set, planned_gates, record_plan};
use crate::predicate::{leads, metadata_equal};
use crate::text::texts;
use crate::types::{Entity, ItemState, UtcTimestamp, metadata_of, opt_bytes, opt_priority};
use std::sync::Arc;
use vstd::prelude::*;

verus! {

/// The lease of the item is live: it is leased, and its time is not up.
pub open spec fn lease_lives(i: Item, at: UtcTimestamp) -> bool {
    &&& i.state is Leased
    &&& (match i.lease_expires_at {
        Some(e) => at.seconds < e.seconds || (at.seconds == e.seconds && at.nanoseconds
            < e.nanoseconds),
        None => false,
    })
}

/// The values of an item after a patch: whatever the patch replaces is as it says, whatever it keeps is
/// as it was, the fields follow the edits, and the gates are those that were there and are not taken
/// away, with those that are added.
pub open spec fn patched_right(
    i: Item,
    guard: LeaseGuard,
    p: ItemPatch,
    at: UtcTimestamp,
    v: ValuesV,
) -> bool {
    &&& (match p.payload {
        BatchUpdateValue::Replace(x) => v.payload == opt_bytes(x),
        BatchUpdateValue::Keep => v.payload == i.payload,
    })
    &&& (match p.priority {
        BatchUpdateValue::Replace(x) => v.priority == opt_priority(x),
        BatchUpdateValue::Keep => v.priority == i.priority,
    })
    &&& (match p.not_before {
        BatchUpdateValue::Replace(x) => v.not_before == x,
        BatchUpdateValue::Keep => v.not_before == i.not_before,
    })
    &&& (match p.metadata {
        BatchUpdateValue::Replace(x) => v.metadata == metadata_of(*x),
        BatchUpdateValue::Keep => v.metadata == i.metadata,
    })
    &&& changed_right(i.fields, p.field_edits@, v.fields)
    &&& forall|k: Seq<char>| #[trigger]
        v.gate_keys.contains(k) <==> texts(p.gate_keys.add@).contains(k) || (i.gate_keys.contains(k)
            && !texts(p.gate_keys.remove@).contains(k) && forall|j: int|
            0 <= j < p.gate_keys.remove_prefixes@.len() ==> !leads(
                (#[trigger] p.gate_keys.remove_prefixes@[j])@,
                k,
            ))
    &&& ascending::<String>(v.gate_keys)
    &&& (match p.lifecycle {
        LifecyclePatch::SetPending => v.state is Pending,
        LifecyclePatch::SetComplete => v.state is Complete,
        LifecyclePatch::SetFailed => v.state is Failed,
        _ => v.state == (if i.state is Leased && guard is InvalidateActive {
            ItemState::Pending
        } else {
            i.state
        }),
    })
    &&& v.invalidate_lease == (i.state is Leased && (guard is InvalidateActive || !(
    v.state is Leased)))
    &&& (if v.state is Pending && (v.not_before != i.not_before || !(i.state is Pending)) {
        match v.not_before {
            Some(t) => is_later_of(v.eligible_since, t, at),
            None => v.eligible_since == at,
        }
    } else {
        v.eligible_since == i.eligible_since
    })
    &&& i.item_version < u64::MAX ==> v.item_version == i.item_version + 1
}

proof fn lemma_gates_planned(before: Seq<Seq<char>>, p: GateKeyPatch)
    ensures
        ascending::<String>(planned_gates(before, p)),
        forall|k: Seq<char>| #[trigger]
            planned_gates(before, p).contains(k) <==> planned_gate_set(before, p).contains(k),
{
    let s = planned_gate_set(before, p);
    let all = texts(p.add@).to_set().union(before.to_set());
    vstd::seq_lib::seq_to_set_is_finite(texts(p.add@));
    vstd::seq_lib::seq_to_set_is_finite(before);
    assert(s.subset_of(all)) by {
        assert forall|k: Seq<char>| s.contains(k) implies all.contains(k) by {}
    }
    vstd::set_lib::lemma_set_subset_finite(all, s);
    lemma_listing_exists::<String>(s);
    let l = planned_gates(before, p);
    assert forall|k: Seq<char>| #[trigger] l.contains(k) <==> s.contains(k) by {
        assert(l.to_set().contains(k) <==> l.contains(k));
    }
}

/// A mutation that is carried out resolves to the values that its patch asks for.
pub proof fn law_patches_take_effect(
    m: Model,
    i: Item,
    guard: LeaseGuard,
    p: ItemPatch,
    at: UtcTimestamp,
    known: Seq<Arc<Entity>>,
    v: ValuesV,
)
    requires
        record_plan(m, i, guard, p, at, false, known) is Ok,
        record_plan(m, i, guard, p, at, false, known)->Ok_0.1 == Some(ActionV::Replace(v)),
    ensures
        patched_right(i, guard, p, at, v),
        record_plan(m, i, guard, p, at, false, known)->Ok_0.0 == (ItemMutationOutcome::Updated {
            item_version: v.item_version,
            state: v.state,
        }),
{
    lemma_gates_planned(i.gate_keys, p.gate_keys);
    lemma_field_changes(i.fields, p.field_edits@);
    let prefixes = texts(p.gate_keys.remove_prefixes@);
    assert forall|k: Seq<char>| #[trigger] v.gate_keys.contains(k) <==> texts(
        p.gate_keys.add@,
    ).contains(k) || (i.gate_keys.contains(k) && !texts(p.gate_keys.remove@).contains(k) && forall|
        j: int,
    |
        0 <= j < p.gate_keys.remove_prefixes@.len() ==> !leads(
            (#[trigger] p.gate_keys.remove_prefixes@[j])@,
            k,
        )) by {
        assert(planned_gate_set(i.gate_keys, p.gate_keys).contains(k) == v.gate_keys.contains(k));
        if crate::planning::led_by(prefixes, k) {
            let j = choose|j: int| 0 <= j < prefixes.len() && leads(#[trigger] prefixes[j], k);
            assert(leads(p.gate_keys.remove_prefixes@[j]@, k));
        } else {
            assert forall|j: int| 0 <= j < p.gate_keys.remove_prefixes@.len() implies !leads(
                (#[trigger] p.gate_keys.remove_prefixes@[j])@,
                k,
            ) by {
                assert(prefixes[j] == p.gate_keys.remove_prefixes@[j]@);
            }
        }
    }
}

/// A patch that would change a value is not answered with no change: where it is let through, the item
/// is updated.
pub proof fn law_changes_are_not_dropped(
    m: Model,
    i: Item,
    guard: LeaseGuard,
    p: ItemPatch,
    at: UtcTimestamp,
    dry_run: bool,
    known: Seq<Arc<Entity>>,
)
    requires
        record_plan(m, i, guard, p, at, dry_run, known) is Ok,
        ({
            ||| p.payload matches BatchUpdateValue::Replace(x) && opt_bytes(x) != i.payload
            ||| p.priority matches BatchUpdateValue::Replace(x) && opt_priority(x) != i.priority
            ||| p.not_before matches BatchUpdateValue::Replace(x) && x != i.not_before
            ||| p.metadata matches BatchUpdateValue::Replace(x) && !metadata_equal(
                metadata_of(*x),
                i.metadata,
            )
            ||| p.lifecycle is SetPending && !(i.state is Pending)
            ||| p.lifecycle is SetComplete && !(i.state is Complete)
            ||| p.lifecycle is SetFailed && !(i.state is Failed)
        }),
    ensures
        !(record_plan(m, i, guard, p, at, dry_run, known)->Ok_0.0 is NoChange),
        !dry_run && record_plan(m, i, guard, p, at, dry_run, known)->Ok_0.0 is Updated
            ==> record_plan(m, i, guard, p, at, dry_run, known)->Ok_0.1 is Some,
{
}

/// A patch that keeps everything is answered with no change, whatever else is let through.
pub proof fn law_nothing_asked_nothing_changed(
    m: Model,
    i: Item,
    p: ItemPatch,
    at: UtcTimestamp,
    known: Seq<Arc<Entity>>,
)
    requires
        p.lifecycle is Keep,
        p.payload is Keep,
        p.priority is Keep,
        p.not_before is Keep,
        p.metadata is Keep,
        p.field_edits@.len() == 0,
        p.entity_edits@.len() == 0,
        p.gate_keys.add@.len() == 0,
        p.gate_keys.remove@.len() == 0,
        p.gate_keys.remove_prefixes@.len() == 0,
        ascending::<String>(i.gate_keys),
        metadata_equal(i.metadata, i.metadata),
        i.entity is None,
        !lease_lives(i, at),
    ensures
        ({
            let r = record_plan(m, i, LeaseGuard::RejectActive, p, at, false, known);
            r is Ok && (r->Ok_0.0 is NoChange || r->Ok_0.0 is Invalid) && r->Ok_0.1 is None
        }),
{
    lemma_gates_planned(i.gate_keys, p.gate_keys);
    let l = planned_gates(i.gate_keys, p.gate_keys);
    assert(planned_gate_set(i.gate_keys, p.gate_keys) =~= i.gate_keys.to_set());
    crate::order::lemma_listing_of::<String>(i.gate_keys);
}

/// Guards: a live lease is left alone unless it is called off or named by its token; without a live
/// lease what asks for one is refused.
pub proof fn law_guards_see_to_the_lease(
    m: Model,
    i: Item,
    guard: LeaseGuard,
    p: ItemPatch,
    at: UtcTimestamp,
    dry_run: bool,
    known: Seq<Arc<Entity>>,
)
    ensures
        guard is RejectActive && lease_lives(i, at) ==> record_plan(
            m,
            i,
            guard,
            p,
            at,
            dry_run,
            known,
        ) == Ok::<RecordPlanV, JsonV>(
            (
                ItemMutationOutcome::PreconditionFailed(ItemMutationPrecondition::ActiveLease),
                None,
            ),
        ),
        guard is RequireActive && !lease_lives(i, at) ==> record_plan(
            m,
            i,
            guard,
            p,
            at,
            dry_run,
            known,
        ) == Ok::<RecordPlanV, JsonV>(
            (
                ItemMutationOutcome::PreconditionFailed(ItemMutationPrecondition::ActiveLease),
                None,
            ),
        ),
        guard matches LeaseGuard::Match(t) && (!lease_lives(i, at) || i.lease_token != Some(t@))
            ==> record_plan(m, i, guard, p, at, dry_run, known) == Ok::<RecordPlanV, JsonV>(
            (ItemMutationOutcome::StaleLease, None),
        ),
        record_plan(m, i, guard, p, at, dry_run, known) is Ok && record_plan(
            m,
            i,
            guard,
            p,
            at,
            dry_run,
            known,
        )->Ok_0.1 is Some ==> {
            &&& !dry_run
            &&& guard is RejectActive ==> !lease_lives(i, at)
            &&& guard is RequireActive ==> lease_lives(i, at)
            &&& guard matches LeaseGuard::Match(t) ==> lease_lives(i, at) && i.lease_token == Some(
                t@,
            )
            &&& (p.lifecycle is SetComplete || p.lifecycle is SetFailed) ==> i.state is Pending
                || i.state is Leased
            &&& p.lifecycle is Purge <==> record_plan(
                m,
                i,
                guard,
                p,
                at,
                dry_run,
                known,
            )->Ok_0.1 == Some(ActionV::Purge)
        },
{
}

/// An item that is over is not ended again, and a purge that is let through takes the item out.
pub proof fn law_ends_and_purges(
    m: Model,
    i: Item,
    guard: LeaseGuard,
    p: ItemPatch,
    at: UtcTimestamp,
    known: Seq<Arc<Entity>>,
)
    requires
        guard is InvalidateActive || (guard is RejectActive && !lease_lives(i, at)),
    ensures
        (i.state is Complete || i.state is Failed) && (p.lifecycle is SetComplete
            || p.lifecycle is SetFailed) ==> record_plan(m, i, guard, p, at, false, known) == Ok::<
            RecordPlanV,
            JsonV,
        >((ItemMutationOutcome::Terminal, None)),
        p.lifecycle is Purge ==> record_plan(m, i, guard, p, at, false, known) == Ok::<
            RecordPlanV,
            JsonV,
        >((ItemMutationOutcome::Purged, Some(ActionV::Purge))) && record_plan(
            m,
            i,
            guard,
            p,
            at,
            true,
            known,
        ) == Ok::<RecordPlanV, JsonV>((ItemMutationOutcome::WouldPurge, None)),
{
}

} // verus!
