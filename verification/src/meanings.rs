//! What predicates, buckets and scopes mean, in terms of the items that they speak of.

use bytes::Bytes;
use crate::effects::{instant, proper};
use crate::item::Item;
use crate::model::Model;
use crate::order::{OrderKey, ascending, lemma_ascending_at, lemma_listing_exists, listing_of};
use crate::predicate::{ItemPredicate, TimestampComparison, holds};
use crate::queries::{BucketRule, bucket_of, bucketed, in_bucket};
use crate::scopes::{active_scopes, scope_order, waiting_groups};
use crate::shared::bytes_of;
use crate::text::numeral;
use crate::typed::{FilterV, entity_meets, entity_meets_all, field_value, float_key, float_nan};
use crate::types::{ErrorV, IndexType, ItemId, ItemState, TypedV, UtcTimestamp};
use vstd::prelude::*;

verus! {

/// A predicate on when an item may run compares that moment with its own, and no item that may run at
/// any time meets one.
pub proof fn law_schedule_predicates_compare_moments(
    c: TimestampComparison,
    value: UtcTimestamp,
    i: Item,
    at: UtcTimestamp,
)
    requires
        proper(value),
        i.not_before is Some ==> proper(i.not_before->Some_0),
    ensures
        holds(ItemPredicate::NotBefore { comparison: c, value }, i, at) <==> i.not_before is Some && {
            let a = instant(i.not_before->Some_0);
            let b = instant(value);
            match c {
                TimestampComparison::Equal => a == b,
                TimestampComparison::Before => a < b,
                TimestampComparison::BeforeOrEqual => a <= b,
                TimestampComparison::After => a > b,
                TimestampComparison::AfterOrEqual => a >= b,
            }
        },
{
    if i.not_before is Some {
        let t = i.not_before->Some_0;
        crate::effects::law_moments_are_ordered_by_their_nanoseconds(t, value);
        crate::effects::law_moments_are_ordered_by_their_nanoseconds(value, t);
    }
}

/// A lease is active while its item is leased and its expiry lies ahead.
pub proof fn law_lease_predicates_see_live_leases(i: Item, at: UtcTimestamp)
    requires
        proper(at),
        i.lease_expires_at is Some ==> proper(i.lease_expires_at->Some_0),
    ensures
        holds(ItemPredicate::LeaseActive(true), i, at) <==> i.state == ItemState::Leased
            && i.lease_expires_at is Some && instant(at) < instant(i.lease_expires_at->Some_0),
        holds(ItemPredicate::LeaseActive(false), i, at) != holds(
            ItemPredicate::LeaseActive(true),
            i,
            at,
        ),
{
    if i.lease_expires_at is Some {
        crate::effects::law_moments_are_ordered_by_their_nanoseconds(
            at,
            i.lease_expires_at->Some_0,
        );
    }
}

/// What predicates on single properties of an item say of it.
pub proof fn law_predicates_see_the_item(
    i: Item,
    at: UtcTimestamp,
    states: Vec<ItemState>,
    n: u32,
    name: String,
    value: Bytes,
    group: Option<String>,
)
    ensures
        holds(ItemPredicate::StateIn(states), i, at) <==> exists|k: int|
            0 <= k < states@.len() && #[trigger] states@[k] == i.state,
        holds(ItemPredicate::AttemptCountEq(n), i, at) <==> i.attempt_count == n,
        holds(ItemPredicate::ClientItemKeyEq(name), i, at) <==> name@ == (match i.explicit_key {
            Some(k) => k,
            None => numeral(i.item_id as nat),
        }),
        holds(ItemPredicate::GroupKeyEq(group), i, at) <==> (match group {
            Some(g) => i.group_key == Some(g@),
            None => i.group_key is None,
        }),
        holds(ItemPredicate::FieldEq { name, value: Some(value) }, i, at)
            <==> i.fields.contains_key(name@) && i.fields[name@] == bytes_of(value),
        holds(ItemPredicate::FieldEq { name, value: None }, i, at) <==> !i.fields.contains_key(
            name@,
        ),
        holds(ItemPredicate::MetadataEq { name, value: None }, i, at) <==> !i.metadata.contains_key(
            name@,
        ),
        holds(ItemPredicate::GateKeyPresent(name), i, at) <==> exists|k: int|
            0 <= k < i.gate_keys.len() && #[trigger] i.gate_keys[k] == name@,
        holds(ItemPredicate::GateKeyAbsent(name), i, at) != holds(
            ItemPredicate::GateKeyPresent(name),
            i,
            at,
        ),
{
}

proof fn lemma_any(ps: Vec<ItemPredicate>, i: Item, at: UtcTimestamp)
    ensures
        holds(ItemPredicate::Any(ps), i, at) <==> exists|k: int|
            0 <= k < ps@.len() && holds(#[trigger] ps@[k], i, at),
{
    let p = ItemPredicate::Any(ps);
    assert(p->Any_0 == ps);
    assert(holds(p, i, at) == exists|k: int| 0 <= k < ps@.len() && holds(#[trigger] ps@[k], i, at));
}

proof fn lemma_all(ps: Vec<ItemPredicate>, i: Item, at: UtcTimestamp)
    ensures
        holds(ItemPredicate::All(ps), i, at) <==> forall|k: int|
            0 <= k < ps@.len() ==> holds(#[trigger] ps@[k], i, at),
{
    let p = ItemPredicate::All(ps);
    assert(p->All_0 == ps);
    assert(holds(p, i, at) == forall|k: int|
        0 <= k < ps@.len() ==> holds(#[trigger] ps@[k], i, at));
}

/// Any, all and not are what they say: nothing meets any of none, everything meets all of none, and
/// what does not meet any meets the denial of each.
pub proof fn law_predicates_combine(
    ps: Vec<ItemPredicate>,
    none: Vec<ItemPredicate>,
    p: ItemPredicate,
    i: Item,
    at: UtcTimestamp,
)
    requires
        none@.len() == 0,
    ensures
        !holds(ItemPredicate::Any(none), i, at),
        holds(ItemPredicate::All(none), i, at),
        holds(ItemPredicate::Not(Box::new(p)), i, at) != holds(p, i, at),
        holds(ItemPredicate::Any(ps), i, at) <==> !(forall|k: int|
            0 <= k < ps@.len() ==> !holds(#[trigger] ps@[k], i, at)),
        holds(ItemPredicate::All(ps), i, at) <==> !(exists|k: int|
            0 <= k < ps@.len() && !holds(#[trigger] ps@[k], i, at)),
{
    lemma_any(ps, i, at);
    lemma_all(ps, i, at);
    lemma_any(none, i, at);
    lemma_all(none, i, at);
}

/// Floating-point numbers are ordered by their size, negative ones the other way round and below the
/// others; the two zeros are one.
pub proof fn law_floats_are_ordered(a: u64, b: u64)
    ensures
        a < 0x8000_0000_0000_0000 && b < 0x8000_0000_0000_0000 ==> (float_key(a) < float_key(b)
            <==> a < b),
        a >= 0x8000_0000_0000_0000 && b >= 0x8000_0000_0000_0000 ==> (float_key(a) < float_key(b)
            <==> b < a),
        a > 0x8000_0000_0000_0000 && b < 0x8000_0000_0000_0000 ==> float_key(a) < float_key(b),
        float_key(0) == float_key(0x8000_0000_0000_0000),
{
}

/// A number lies in a bucket that gives one number just where it is that number.
pub proof fn law_exact_buckets_hold_one_number(x: u64, rule: BucketRule)
    requires
        !float_nan(x),
        rule.exact is Some,
    ensures
        in_bucket(TypedV::Float(x), rule) <==> float_key(x) == float_key(rule.exact->Some_0),
{
}

/// A number lies in a bucket just where it keeps to each bound that the bucket gives: above or at least
/// the lower ones, below or at most the upper ones. A text, a truth value or a moment lies in none.
pub proof fn law_buckets_bound_numbers(x: u64, rule: BucketRule, v: TypedV)
    requires
        !float_nan(x),
        rule.exact is None,
        rule.gt is Some ==> !float_nan(rule.gt->Some_0),
        rule.gte is Some ==> !float_nan(rule.gte->Some_0),
        rule.lt is Some ==> !float_nan(rule.lt->Some_0),
        rule.lte is Some ==> !float_nan(rule.lte->Some_0),
    ensures
        in_bucket(TypedV::Float(x), rule) <==> {
            &&& rule.gt is Some ==> float_key(x) > float_key(rule.gt->Some_0)
            &&& rule.gte is Some ==> float_key(x) >= float_key(rule.gte->Some_0)
            &&& rule.lt is Some ==> float_key(x) < float_key(rule.lt->Some_0)
            &&& rule.lte is Some ==> float_key(x) <= float_key(rule.lte->Some_0)
        },
        v is String || v is Bool || v is DateTime ==> !in_bucket(v, rule),
{
}

/// A value counts in the first bucket that it lies in.
pub open spec fn counts_in(rules: Seq<BucketRule>, v: TypedV, k: int) -> bool {
    &&& 0 <= k < rules.len()
    &&& in_bucket(v, rules[k])
    &&& forall|j: int| 0 <= j < k ==> !in_bucket(v, #[trigger] rules[j])
}

proof fn lemma_bucket_of(rules: Seq<BucketRule>, v: TypedV, from: int)
    requires
        0 <= from <= rules.len(),
    ensures
        ({
            let k = bucket_of(rules, v, from);
            &&& from <= k <= rules.len()
            &&& k < rules.len() ==> in_bucket(v, rules[k])
            &&& forall|j: int| from <= j < k ==> !in_bucket(v, #[trigger] rules[j])
        }),
    decreases rules.len() - from,
{
    if from < rules.len() && !in_bucket(v, rules[from]) {
        lemma_bucket_of(rules, v, from + 1);
    }
}

/// The document of an item meets every filter.
pub open spec fn passes(i: Item, fs: Seq<FilterV>) -> bool {
    &&& i.entity is Some
    &&& forall|k: int|
        0 <= k < fs.len() ==> entity_meets(i.entity->Some_0.document, #[trigger] fs[k]) == Ok::<
            bool,
            ErrorV,
        >(true)
}

/// How many items pass whose value counts in a bucket.
pub open spec fn in_count(
    items: Map<ItemId, Item>,
    rules: Seq<BucketRule>,
    field: Seq<char>,
    t: IndexType,
    fs: Seq<FilterV>,
    ids: Seq<ItemId>,
    k: int,
) -> nat
    decreases ids.len(),
{
    if ids.len() == 0 {
        0
    } else {
        let i = items[ids.last()];
        let found = field_value(i.entity->Some_0.document, field, t);
        in_count(items, rules, field, t, fs, ids.drop_last(), k) + if passes(i, fs) && found is Ok
            && found->Ok_0 is Some && counts_in(rules, found->Ok_0->Some_0, k) {
            1nat
        } else {
            0nat
        }
    }
}

/// How many items pass that have no value.
pub open spec fn without_count(
    items: Map<ItemId, Item>,
    field: Seq<char>,
    t: IndexType,
    fs: Seq<FilterV>,
    ids: Seq<ItemId>,
) -> nat
    decreases ids.len(),
{
    if ids.len() == 0 {
        0
    } else {
        let i = items[ids.last()];
        without_count(items, field, t, fs, ids.drop_last()) + if passes(i, fs) && field_value(
            i.entity->Some_0.document,
            field,
            t,
        ) == Ok::<Option<TypedV>, ErrorV>(None) {
            1nat
        } else {
            0nat
        }
    }
}

/// Each bucket counts the items whose documents meet the filters and whose value lies in it and in none
/// before it; apart from them stand those without a value.
pub proof fn law_buckets_count_what_lies_in_them(
    items: Map<ItemId, Item>,
    rules: Seq<BucketRule>,
    field: Seq<char>,
    t: IndexType,
    fs: Seq<FilterV>,
    ids: Seq<ItemId>,
)
    requires
        bucketed(items, rules, field, t, fs, ids) is Ok,
    ensures
        ({
            let (counts, nulls) = bucketed(items, rules, field, t, fs, ids)->Ok_0;
            &&& counts.len() == rules.len()
            &&& forall|k: int|
                0 <= k < rules.len() ==> #[trigger] counts[k] == in_count(
                    items,
                    rules,
                    field,
                    t,
                    fs,
                    ids,
                    k,
                )
            &&& nulls == without_count(items, field, t, fs, ids)
        }),
    decreases ids.len(),
{
    if ids.len() > 0 {
        law_buckets_count_what_lies_in_them(items, rules, field, t, fs, ids.drop_last());
        let i = items[ids.last()];
        if i.entity is Some {
            let d = i.entity->Some_0.document;
            crate::answers::law_all_filters_count(d, fs);
            if entity_meets_all(d, fs) == Ok::<bool, ErrorV>(true) {
                let found = field_value(d, field, t);
                if found is Ok && found->Ok_0 is Some {
                    lemma_bucket_of(rules, found->Ok_0->Some_0, 0);
                }
            }
        }
    }
}

/// An item is there to be worked on: pending, not replaced, due, and behind no blocked gate.
pub open spec fn stands_ready(m: Model, i: Item, now: UtcTimestamp) -> bool {
    &&& i.state == ItemState::Pending
    &&& !i.superseded
    &&& i.not_before is Some ==> i.not_before->Some_0.seconds < now.seconds || (
    i.not_before->Some_0.seconds == now.seconds && i.not_before->Some_0.nanoseconds
        <= now.nanoseconds)
    &&& forall|k: int| 0 <= k < i.gate_keys.len() ==> !m.blocked_gates.contains(#[trigger] i.gate_keys[k])
}

/// How many of the listed items of a group stand ready.
pub open spec fn ready_count(
    m: Model,
    ids: Seq<ItemId>,
    now: UtcTimestamp,
    g: Option<Seq<char>>,
) -> nat
    decreases ids.len(),
{
    if ids.len() == 0 {
        0
    } else {
        ready_count(m, ids.drop_last(), now, g) + if stands_ready(m, m.items[ids.last()], now)
            && m.items[ids.last()].group_key == g {
            1nat
        } else {
            0nat
        }
    }
}

/// One moment is no later than another.
pub open spec fn no_later(a: UtcTimestamp, b: UtcTimestamp) -> bool {
    a.seconds < b.seconds || (a.seconds == b.seconds && a.nanoseconds <= b.nanoseconds)
}

proof fn lemma_waiting(m: Model, ids: Seq<ItemId>, now: UtcTimestamp)
    requires
        ids.len() <= u64::MAX,
    ensures
        ({
            let t = waiting_groups(m, ids, now);
            &&& t.dom().finite()
            &&& forall|g: Option<Seq<char>>| #[trigger]
                t.contains_key(g) <==> ready_count(m, ids, now, g) > 0
            &&& forall|g: Option<Seq<char>>| #[trigger]
                t.contains_key(g) ==> t[g].1 == ready_count(m, ids, now, g)
            &&& forall|g: Option<Seq<char>>| #[trigger] ready_count(m, ids, now, g) <= ids.len()
            &&& forall|k: int|
                0 <= k < ids.len() && stands_ready(m, m.items[#[trigger] ids[k]], now)
                    ==> t.contains_key(m.items[ids[k]].group_key) && no_later(
                    t[m.items[ids[k]].group_key].0,
                    m.items[ids[k]].eligible_since,
                )
            &&& forall|g: Option<Seq<char>>| #[trigger]
                t.contains_key(g) ==> exists|k: int|
                    0 <= k < ids.len() && stands_ready(m, m.items[#[trigger] ids[k]], now)
                        && m.items[ids[k]].group_key == g && m.items[ids[k]].eligible_since
                        == t[g].0
        }),
    decreases ids.len(),
{
    if ids.len() > 0 {
        let rest = ids.drop_last();
        lemma_waiting(m, rest, now);
        let before = waiting_groups(m, rest, now);
        let t = waiting_groups(m, ids, now);
        let i = m.items[ids.last()];
        assert(stands_ready(m, i, now) <==> crate::scopes::waits(m, i, now));
        assert forall|k: int|
            0 <= k < ids.len() && stands_ready(m, m.items[#[trigger] ids[k]], now) implies t.contains_key(
            m.items[ids[k]].group_key,
        ) && no_later(t[m.items[ids[k]].group_key].0, m.items[ids[k]].eligible_since) by {
            if k < rest.len() {
                assert(rest[k] == ids[k]);
            }
        }
        assert forall|g: Option<Seq<char>>| #[trigger] t.contains_key(g) implies exists|k: int|
            0 <= k < ids.len() && stands_ready(m, m.items[#[trigger] ids[k]], now)
                && m.items[ids[k]].group_key == g && m.items[ids[k]].eligible_since == t[g].0 by {
            if before.contains_key(g) && before[g].0 == t[g].0 {
                let k = choose|k: int|
                    0 <= k < rest.len() && stands_ready(m, m.items[#[trigger] rest[k]], now)
                        && m.items[rest[k]].group_key == g && m.items[rest[k]].eligible_since
                        == before[g].0;
                assert(ids[k] == rest[k]);
            } else {
                assert(ids[ids.len() - 1] == ids.last());
            }
        }
        assert forall|g: Option<Seq<char>>| #[trigger] ready_count(m, ids, now, g) <= ids.len() by {
            assert(ready_count(m, rest, now, g) <= rest.len());
        }
        assert forall|g: Option<Seq<char>>| #[trigger] t.contains_key(g) <==> ready_count(
            m,
            ids,
            now,
            g,
        ) > 0 by {
            assert(ready_count(m, rest, now, g) <= rest.len());
        }
        assert forall|g: Option<Seq<char>>| #[trigger] t.contains_key(g) implies t[g].1
            == ready_count(m, ids, now, g) by {
            assert(ready_count(m, rest, now, g) <= rest.len());
        }
    }
}

/// The scopes of a queue are the groups in which items stand ready, each once, with how many there are.
pub proof fn law_scopes_are_the_groups_with_work(
    m: Model,
    queue_id: Seq<char>,
    now: UtcTimestamp,
    g: Option<Seq<char>>,
)
    requires
        m.items.dom().finite(),
        m.items.dom().len() <= u64::MAX,
    ensures
        ({
            let s = active_scopes(m, queue_id, now);
            let ids = listing_of::<u64>(m.items.dom());
            &&& (exists|k: int| 0 <= k < s.len() && (#[trigger] s[k]).group_key == g) <==> exists|
                id: ItemId,
            | #[trigger]
                m.items.contains_key(id) && m.items[id].group_key == g && stands_ready(
                    m,
                    m.items[id],
                    now,
                )
            &&& forall|k: int|
                0 <= k < s.len() ==> (#[trigger] s[k]).eligible_count == Some(
                    ready_count(m, ids, now, s[k].group_key) as u64,
                ) && s[k].queue_id == queue_id
            &&& forall|j: int, k: int|
                0 <= j < k < s.len() ==> (#[trigger] s[j]).group_key != (#[trigger] s[k]).group_key
        }),
{
    let ids = listing_of::<u64>(m.items.dom());
    lemma_listing_exists::<u64>(m.items.dom());
    lemma_waiting(m, ids, now);
    let t = waiting_groups(m, ids, now);
    let s = active_scopes(m, queue_id, now);
    let o = scope_order(t);
    let set = Set::new(
        |p: (UtcTimestamp, Option<Seq<char>>)| t.contains_key(p.1) && t[p.1].0 == p.0,
    );
    let image = t.dom().map(|h: Option<Seq<char>>| (t[h].0, h));
    t.dom().lemma_map_finite(|h: Option<Seq<char>>| (t[h].0, h));
    assert(set =~= image) by {
        assert forall|p: (UtcTimestamp, Option<Seq<char>>)| set.contains(p) implies image.contains(
            p,
        ) by {
            assert(t.dom().contains(p.1) && p == (t[p.1].0, p.1));
        }
    }
    lemma_listing_exists::<(UtcTimestamp, Option<String>)>(set);
    assert(o.to_set() =~= set);
    assert forall|k: int| 0 <= k < o.len() implies t.contains_key((#[trigger] o[k]).1)
        && t[o[k].1].0 == o[k].0 by {
        assert(o.to_set().contains(o[k]));
    }
    if t.contains_key(g) {
        assert(set.contains((t[g].0, g)));
        assert(o.to_set().contains((t[g].0, g)));
        let k = choose|k: int| 0 <= k < o.len() && o[k] == (t[g].0, g);
        assert(s[k].group_key == g);
        let j = choose|j: int|
            0 <= j < ids.len() && stands_ready(m, m.items[#[trigger] ids[j]], now)
                && m.items[ids[j]].group_key == g && m.items[ids[j]].eligible_since == t[g].0;
        assert(ids.to_set().contains(ids[j]));
        assert(m.items.contains_key(ids[j]));
    } else {
        assert forall|k: int| 0 <= k < s.len() implies (#[trigger] s[k]).group_key != g by {
            assert(t.contains_key(o[k].1));
        }
        assert forall|id: ItemId| #[trigger] m.items.contains_key(id) && m.items[id].group_key
            == g implies !stands_ready(m, m.items[id], now) by {
            assert(ids.to_set().contains(id));
            let k = choose|k: int| 0 <= k < ids.len() && ids[k] == id;
            assert(m.items[ids[k]] == m.items[id]);
        }
    }
    assert forall|k: int| 0 <= k < s.len() implies (#[trigger] s[k]).eligible_count == Some(
        ready_count(m, ids, now, s[k].group_key) as u64,
    ) && s[k].queue_id == queue_id by {
        assert(t.contains_key(o[k].1));
    }
    assert forall|j: int, k: int| 0 <= j < k < s.len() implies (#[trigger] s[j]).group_key != (
    #[trigger] s[k]).group_key by {
        assert(t.contains_key(o[j].1) && t.contains_key(o[k].1));
        if o[j].1 == o[k].1 {
            assert(o[j] == o[k]);
            lemma_once(o, j, k);
        }
    }
}

proof fn lemma_once(o: Seq<(UtcTimestamp, Option<Seq<char>>)>, j: int, k: int)
    requires
        ascending::<(UtcTimestamp, Option<String>)>(o),
        0 <= j < k < o.len(),
    ensures
        o[j] != o[k],
{
    lemma_ascending_at::<(UtcTimestamp, Option<String>)>(o, j, k);
    <(UtcTimestamp, Option<String>) as OrderKey>::lt_irreflexive(o[j]);
}

/// The age of a scope is the time since its oldest item became eligible, in milliseconds.
pub proof fn law_scopes_have_the_age_of_their_oldest(
    m: Model,
    queue_id: Seq<char>,
    now: UtcTimestamp,
    id: ItemId,
    k: int,
)
    requires
        m.items.dom().finite(),
        m.items.dom().len() <= u64::MAX,
        m.items.contains_key(id),
        stands_ready(m, m.items[id], now),
        0 <= k < active_scopes(m, queue_id, now).len(),
        active_scopes(m, queue_id, now)[k].group_key == m.items[id].group_key,
        proper(now),
        forall|j: ItemId| #[trigger] m.items.contains_key(j) ==> proper(m.items[j].eligible_since)
            && instant(now) - instant(m.items[j].eligible_since) < 0x1_0000_0000_0000_0000,
    ensures
        active_scopes(m, queue_id, now)[k].oldest_eligible_age_ms * 1_000_000 + 1_000_000 > instant(
            now,
        ) - instant(m.items[id].eligible_since),
        active_scopes(m, queue_id, now)[k].oldest_eligible_age_ms > 0 ==> exists|j: ItemId|
         #[trigger]
            m.items.contains_key(j) && m.items[j].group_key == m.items[id].group_key
                && stands_ready(m, m.items[j], now)
                && active_scopes(m, queue_id, now)[k].oldest_eligible_age_ms * 1_000_000 <= instant(
                now,
            ) - instant(m.items[j].eligible_since),
{
    let ids = listing_of::<u64>(m.items.dom());
    lemma_listing_exists::<u64>(m.items.dom());
    lemma_waiting(m, ids, now);
    let t = waiting_groups(m, ids, now);
    let s = active_scopes(m, queue_id, now);
    let g = m.items[id].group_key;
    law_scopes_are_the_groups_with_work(m, queue_id, now, g);
    let o = scope_order(t);
    let set = Set::new(
        |p: (UtcTimestamp, Option<Seq<char>>)| t.contains_key(p.1) && t[p.1].0 == p.0,
    );
    let image = t.dom().map(|h: Option<Seq<char>>| (t[h].0, h));
    t.dom().lemma_map_finite(|h: Option<Seq<char>>| (t[h].0, h));
    assert(set =~= image) by {
        assert forall|p: (UtcTimestamp, Option<Seq<char>>)| set.contains(p) implies image.contains(
            p,
        ) by {
            assert(t.dom().contains(p.1) && p == (t[p.1].0, p.1));
        }
    }
    lemma_listing_exists::<(UtcTimestamp, Option<String>)>(set);
    assert(o.to_set().contains(o[k]));
    assert(t.contains_key(g) && o[k] == (t[g].0, g));
    assert(ids.to_set().contains(id));
    let a = choose|a: int| 0 <= a < ids.len() && ids[a] == id;
    assert(stands_ready(m, m.items[ids[a]], now));
    assert(no_later(t[g].0, m.items[id].eligible_since));
    let b = choose|b: int|
        0 <= b < ids.len() && stands_ready(m, m.items[#[trigger] ids[b]], now)
            && m.items[ids[b]].group_key == g && m.items[ids[b]].eligible_since == t[g].0;
    assert(ids.to_set().contains(ids[b]));
    assert(m.items.contains_key(ids[b]));
    let d = instant(now) - instant(t[g].0);
    assert(instant(t[g].0) <= instant(m.items[id].eligible_since));
    assert(s[k].oldest_eligible_age_ms == crate::scopes::waited_ms(t[g].0, now));
    if d > 0 {
        assert(d % 0x1_0000_0000_0000_0000 == d);
        assert(0 <= d / 1_000_000 <= u64::MAX);
    }
}

} // verus!
