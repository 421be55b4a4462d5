//! What every selection for a claim holds to, in terms of the items alone.

use crate::claims::{ClaimUnit, CompatibilityV, all_candidates, cohort_list, cohort_member, cohort_pairs, complete_cohorts, item_claim, kept, lemma_cohort_list, lemma_kept_holds, matching, rich_claim, same_group};
use crate::consistency::{placed, stands};
use crate::eligibility::first_of;
use crate::history::{law_items_that_may_be_claimed_are_offered, law_offered_items_may_be_claimed, law_selections_name_items_once};
use crate::item::Item;
use crate::json::{JsonV, same_json};
use crate::model::Model;
use crate::order::{lemma_ascending_distinct, lemma_listing_exists, listing_of};
use crate::reads::candidates;
use crate::text::numeral;
use crate::types::{ItemId, UtcTimestamp};
use vstd::prelude::*;
use vstd::string::*;

verus! {

/// The item may be claimed: it is pending, nothing has replaced it, its time has come, and no gate that
/// it stands under is blocked.
pub open spec fn free(m: Model, id: ItemId, now: UtcTimestamp) -> bool {
    &&& m.items.contains_key(id)
    &&& m.items[id].state is Pending
    &&& !m.items[id].superseded
    &&& (match m.items[id].not_before {
        None => true,
        Some(t) => t.seconds < now.seconds || (t.seconds == now.seconds && t.nanoseconds
            <= now.nanoseconds),
    })
    &&& forall|g: Seq<char>| #[trigger]
        m.items[id].gate_keys.contains(g) ==> !m.blocked_gates.contains(g)
}

/// The item holds each entry of metadata that is asked for.
pub open spec fn holds(i: Item, asked: Map<Seq<char>, JsonV>) -> bool {
    forall|k: Seq<char>| #[trigger]
        asked.contains_key(k) ==> i.metadata.contains_key(k) && same_json(i.metadata[k], asked[k])
}

/// Whatever a selection offers may be claimed.
pub proof fn law_offers_are_free(m: Model, now: UtcTimestamp, max: nat, id: ItemId)
    requires
        placed(m),
        candidates(m, now, max).contains(id),
    ensures
        free(m, id, now),
        !m.paused,
{
    law_offered_items_may_be_claimed(m, now, max, id);
    let keys = m.items[id].gate_keys;
    assert forall|g: Seq<char>| #[trigger] keys.contains(g) implies !m.blocked_gates.contains(g) by {
        let i = choose|i: int| 0 <= i < keys.len() && keys[i] == g;
        assert(keys[i] == g);
    }
}

/// A selection with room for all offers whatever may be claimed.
pub proof fn law_free_items_are_offered(m: Model, now: UtcTimestamp, max: nat, id: ItemId)
    requires
        placed(m),
        !m.paused,
        m.eligible.len() <= max,
        free(m, id, now),
    ensures
        candidates(m, now, max).contains(id),
{
    let keys = m.items[id].gate_keys;
    assert(stands(m, m.items[id])) by {
        assert forall|i: int| 0 <= i < keys.len() implies !m.blocked_gates.contains(
            #[trigger] keys[i],
        ) by {
            assert(keys.contains(keys[i]));
        }
    }
    law_items_that_may_be_claimed_are_offered(m, now, max, id);
}

/// What a claim of items takes may be claimed, is of the group and holds the metadata that are asked
/// for, is no member of a cohort where either is asked for, and is at most as much as is asked for.
pub proof fn law_item_claims_take_what_is_asked(
    m: Model,
    c: CompatibilityV,
    now: UtcTimestamp,
    max: nat,
    id: ItemId,
)
    requires
        placed(m),
        item_claim(m, c, now, max).contains(id),
    ensures
        free(m, id, now),
        !m.paused,
        c.group_key is Some ==> m.items[id].group_key == c.group_key,
        holds(m.items[id], c.metadata_equals),
        c.group_key is Some || (exists|k: Seq<char>| c.metadata_equals.contains_key(k))
            ==> m.items[id].cohort_size is None,
{
    let taken = item_claim(m, c, now, max);
    let k = choose|k: int| 0 <= k < taken.len() && taken[k] == id;
    if c.group_key is None && c.metadata_equals.dom() == Set::<Seq<char>>::empty() {
        law_offers_are_free(m, now, max, id);
        assert forall|x: Seq<char>| c.metadata_equals.contains_key(x) implies false by {
            assert(c.metadata_equals.dom().contains(x));
        }
    } else {
        let f = matching(c.group_key, false, c.metadata_equals);
        lemma_kept_holds(m.items, all_candidates(m, now), f, k);
        law_offers_are_free(m, now, usize::MAX as nat, id);
    }
}

/// A claim of items takes no more than it asks for.
pub proof fn law_item_claims_keep_to_their_size(
    m: Model,
    c: CompatibilityV,
    now: UtcTimestamp,
    max: nat,
)
    requires
        placed(m),
    ensures
        item_claim(m, c, now, max).len() <= max,
        item_claim(m, c, now, max).no_duplicates(),
{
    if c.group_key is None && c.metadata_equals.dom() == Set::<Seq<char>>::empty() {
        crate::history::law_first_in_line_are_offered(m, now, max);
        if m.paused {
            assert(candidates(m, now, max).len() == 0);
        }
    } else if max > 0 {
        let f = matching(c.group_key, false, c.metadata_equals);
        law_selections_name_items_once(m, now, usize::MAX as nat);
        lemma_kept_once(m.items, all_candidates(m, now), f);
    }
}

proof fn lemma_kept_once(items: Map<ItemId, Item>, ids: Seq<ItemId>, f: spec_fn(Item) -> bool)
    requires
        ids.no_duplicates(),
    ensures
        kept(items, ids, f).no_duplicates(),
    decreases ids.len(),
{
    if ids.len() > 0 {
        let rest = ids.drop_last();
        lemma_kept_once(items, rest, f);
        let before = kept(items, rest, f);
        assert forall|k: int| 0 <= k < before.len() implies before[k] != ids.last() by {
            lemma_kept_holds(items, rest, f, k);
            let j = choose|j: int| 0 <= j < rest.len() && rest[j] == before[k];
            assert(ids[j] != ids[ids.len() - 1]);
        }
    }
}

/// What is kept of a list is all that meets the condition.
proof fn lemma_kept_all(
    items: Map<ItemId, Item>,
    ids: Seq<ItemId>,
    f: spec_fn(Item) -> bool,
    id: ItemId,
)
    requires
        ids.contains(id),
        items.contains_key(id),
        f(items[id]),
    ensures
        kept(items, ids, f).contains(id),
    decreases ids.len(),
{
    let rest = ids.drop_last();
    let before = kept(items, rest, f);
    let k = choose|k: int| 0 <= k < ids.len() && ids[k] == id;
    if k < rest.len() {
        assert(rest[k] == id);
        lemma_kept_all(items, rest, f, id);
        let j = choose|j: int| 0 <= j < before.len() && before[j] == id;
        assert(kept(items, ids, f)[j] == id);
    } else {
        assert(kept(items, ids, f).last() == id);
    }
}

/// A claim of items with room left has taken every item that may be claimed and is as asked for.
pub proof fn law_item_claims_leave_nothing(
    m: Model,
    c: CompatibilityV,
    now: UtcTimestamp,
    max: nat,
    id: ItemId,
)
    requires
        placed(m),
        !m.paused,
        m.eligible.len() <= usize::MAX,
        m.eligible.len() <= max,
        c.group_key is Some || c.metadata_equals.dom() != Set::<Seq<char>>::empty(),
        free(m, id, now),
        m.items[id].cohort_size is None,
        c.group_key is Some ==> m.items[id].group_key == c.group_key,
        holds(m.items[id], c.metadata_equals),
    ensures
        max > 0 ==> item_claim(m, c, now, max).contains(id),
{
    if max > 0 {
        let all = all_candidates(m, now);
        let f = matching(c.group_key, false, c.metadata_equals);
        law_free_items_are_offered(m, now, usize::MAX as nat, id);
        lemma_kept_all(m.items, all, f, id);
        lemma_kept_short(m.items, all, f);
        crate::history::law_first_in_line_are_offered(m, now, usize::MAX as nat);
        lemma_offers_fit(m, now, usize::MAX as nat);
        assert(first_of(kept(m.items, all, f), max) =~= kept(m.items, all, f));
    }
}

proof fn lemma_kept_short(items: Map<ItemId, Item>, ids: Seq<ItemId>, f: spec_fn(Item) -> bool)
    ensures
        kept(items, ids, f).len() <= ids.len(),
    decreases ids.len(),
{
    if ids.len() > 0 {
        lemma_kept_short(items, ids.drop_last(), f);
    }
}

/// No more is offered than has a place.
proof fn lemma_offers_fit(m: Model, now: UtcTimestamp, max: nat)
    requires
        placed(m),
    ensures
        candidates(m, now, max).len() <= m.eligible.len(),
{
    crate::consistency::lemma_places_finite(m);
    law_selections_name_items_once(m, now, max);
    let c = candidates(m, now, max);
    c.unique_seq_to_set();
    let places = m.eligible.map(|k: crate::eligibility::EligV| k.item);
    m.eligible.lemma_map_finite(|k: crate::eligibility::EligV| k.item);
    assert(c.to_set().subset_of(places)) by {
        assert forall|id: ItemId| c.to_set().contains(id) implies places.contains(id) by {
            law_offered_items_may_be_claimed(m, now, max, id);
            let k = crate::eligibility::key_of(m.items[id], m.priority_model);
            assert(m.eligible.contains(k));
            assert(m.items[id].item_id == id);
            assert((|k: crate::eligibility::EligV| k.item)(k) == id);
        }
    }
    vstd::set_lib::lemma_len_subset(c.to_set(), places);
    lemma_map_len(m.eligible, |k: crate::eligibility::EligV| k.item);
}

proof fn lemma_map_len<A, B>(s: Set<A>, f: spec_fn(A) -> B)
    requires
        s.finite(),
    ensures
        s.map(f).len() <= s.len(),
    decreases s.len(),
{
    s.lemma_map_finite(f);
    if s.len() == 0 {
        assert(s =~= Set::<A>::empty());
        assert(s.map(f) =~= Set::<B>::empty());
    } else {
        let a = s.choose();
        let rest = s.remove(a);
        lemma_map_len(rest, f);
        rest.lemma_map_finite(f);
        assert(s.map(f) =~= rest.map(f).insert(f(a))) by {
            assert forall|b: B| s.map(f).contains(b) <==> rest.map(f).insert(f(a)).contains(b) by {
                if s.map(f).contains(b) {
                    let x = choose|x: A| s.contains(x) && f(x) == b;
                    if x != a {
                        assert(rest.contains(x));
                    }
                }
                if rest.map(f).contains(b) {
                    let x = choose|x: A| rest.contains(x) && f(x) == b;
                    assert(s.contains(x) && f(x) == b);
                }
                if b == f(a) {
                    assert(s.contains(a));
                }
            }
        }
    }
}

/// What a claim within one group takes may be claimed and holds the metadata that are asked for; it is
/// all of one group, the one that is asked for if any is, and none of it belongs to a cohort.
pub proof fn law_claims_within_a_group_take_what_is_asked(
    m: Model,
    c: CompatibilityV,
    now: UtcTimestamp,
    max: nat,
    id: ItemId,
    other: ItemId,
)
    requires
        placed(m),
        rich_claim(m, ClaimUnit::SameGroupKey, c, now, max) is Ok,
        rich_claim(m, ClaimUnit::SameGroupKey, c, now, max)->Ok_0.item_ids.contains(id),
        rich_claim(m, ClaimUnit::SameGroupKey, c, now, max)->Ok_0.item_ids.contains(other),
    ensures
        free(m, id, now),
        holds(m.items[id], c.metadata_equals),
        m.items[id].cohort_size is None,
        m.items[id].group_key is Some,
        m.items[id].group_key == m.items[other].group_key,
        c.group_key is Some ==> m.items[id].group_key == c.group_key,
        max > 0 ==> rich_claim(m, ClaimUnit::SameGroupKey, c, now, max)->Ok_0.item_ids.len() <= max,
{
    let taken = same_group(m, c, now, max);
    let all = all_candidates(m, now);
    let f = matching(c.group_key, true, c.metadata_equals);
    let open = kept(m.items, all, f);
    let j = choose|j: int| 0 <= j < taken.len() && taken[j] == id;
    let k = choose|k: int| 0 <= k < taken.len() && taken[k] == other;
    lemma_kept_holds(m.items, all, f, 0);
    let g = matching(m.items[open[0]].group_key, true, c.metadata_equals);
    lemma_kept_holds(m.items, all, g, j);
    lemma_kept_holds(m.items, all, g, k);
    law_offers_are_free(m, now, usize::MAX as nat, id);
}

/// The live items of a cohort.
pub open spec fn in_cohort(i: Item, group: Seq<char>) -> bool {
    &&& i.group_key == Some(group)
    &&& i.cohort_size is Some
    &&& !i.superseded
    &&& (i.state is Pending || i.state is Leased)
}

/// What a claim of a whole cohort takes: a group of which every live member is taken, each may be
/// claimed and holds the metadata that are asked for, and each says that the cohort is just as large as
/// what is taken, which is no more than is asked for. The cohort is named by its group and by its first
/// member's number.
pub proof fn law_whole_cohorts_are_whole(
    m: Model,
    c: CompatibilityV,
    now: UtcTimestamp,
    max: nat,
)
    requires
        placed(m),
        rich_claim(m, ClaimUnit::WholeCohort, c, now, max) is Ok,
        rich_claim(m, ClaimUnit::WholeCohort, c, now, max)->Ok_0.item_ids.len() > 0,
    ensures
        ({
            let s = rich_claim(m, ClaimUnit::WholeCohort, c, now, max)->Ok_0;
            let group = m.items[s.item_ids[0]].group_key->Some_0;
            &&& s.item_ids.no_duplicates()
            &&& s.item_ids.len() <= max
            &&& forall|id: ItemId| #[trigger]
                s.item_ids.contains(id) <==> m.items.contains_key(id) && in_cohort(
                    m.items[id],
                    group,
                )
            &&& forall|id: ItemId| #[trigger]
                s.item_ids.contains(id) ==> free(m, id, now) && holds(
                    m.items[id],
                    c.metadata_equals,
                ) && m.items[id].cohort_size == Some(s.item_ids.len() as u64)
            &&& exists|first: ItemId| #[trigger]
                s.item_ids.contains(first) && s.cohort_id == Some(
                    "coh:"@ + group + ":"@ + numeral(m.items[first].created_seq as nat),
                ) && forall|id: ItemId| #[trigger]
                    s.item_ids.contains(id) ==> m.items[first].created_seq
                        <= m.items[id].created_seq
        }),
{
    let s = rich_claim(m, ClaimUnit::WholeCohort, c, now, max)->Ok_0;
    let open = all_candidates(m, now);
    let whole = complete_cohorts(m.items, c.metadata_equals, open);
    let ready = listing_of::<(u64, String)>(whole);
    lemma_cohorts_finite(m, c, open);
    lemma_listing_exists::<(u64, String)>(whole);
    let (seq, group) = ready[0];
    assert(ready.to_set().contains(ready[0]));
    assert(whole.contains((seq, group)));
    let l = cohort_list(m.items, group);
    let f = cohort_member(group);
    lemma_cohort_list(m.items, group);
    lemma_cohort_ascends(m, group);
    law_selections_name_items_once(m, now, usize::MAX as nat);
    lemma_kept_once(m.items, open, f);
    let ids = s.item_ids;
    assert(ids == kept(m.items, open, f));
    assert forall|id: ItemId| #[trigger] ids.contains(id) <==> m.items.contains_key(id) && in_cohort(
        m.items[id],
        group,
    ) by {
        if ids.contains(id) {
            let k = choose|k: int| 0 <= k < ids.len() && ids[k] == id;
            lemma_kept_holds(m.items, open, f, k);
        }
        if m.items.contains_key(id) && in_cohort(m.items[id], group) {
            let p = (m.items[id].created_seq, id);
            assert(cohort_pairs(m.items, group).contains(p));
            assert(l.to_set().contains(p));
            let k = choose|k: int| 0 <= k < l.len() && l[k] == p;
            assert(open.contains(l[k].1));
            lemma_kept_all(m.items, open, f, id);
        }
    }
    assert(ids.contains(ids[0]));
    assert(m.items[ids[0]].group_key == Some(group));
    lemma_as_many(m, group, ids);
    assert forall|id: ItemId| #[trigger] ids.contains(id) implies free(m, id, now) && holds(
        m.items[id],
        c.metadata_equals,
    ) && m.items[id].cohort_size == Some(ids.len() as u64) by {
        let p = (m.items[id].created_seq, id);
        assert(cohort_pairs(m.items, group).contains(p));
        assert(l.to_set().contains(p));
        let k = choose|k: int| 0 <= k < l.len() && l[k] == p;
        assert(open.contains(l[k].1));
        law_offers_are_free(m, now, usize::MAX as nat, id);
    }
    let first = l[0].1;
    assert(l.to_set().contains(l[0]));
    assert(ids.contains(first));
    assert forall|id: ItemId| #[trigger] ids.contains(id) implies m.items[first].created_seq
        <= m.items[id].created_seq by {
        let p = (m.items[id].created_seq, id);
        assert(cohort_pairs(m.items, group).contains(p));
        assert(l.to_set().contains(p));
        let k = choose|k: int| 0 <= k < l.len() && l[k] == p;
        if k > 0 {
            crate::order::lemma_ascending_at::<(u64, u64)>(l, 0, k);
        }
    }
}

proof fn lemma_cohort_ascends(m: Model, group: Seq<char>)
    requires
        m.items.dom().finite(),
    ensures
        crate::order::ascending::<(u64, u64)>(cohort_list(m.items, group)),
{
    let s = cohort_pairs(m.items, group);
    let f = |id: ItemId| (m.items[id].created_seq, id);
    let t = m.items.dom().map(f);
    m.items.dom().lemma_map_finite(f);
    assert forall|p: (u64, u64)| s.contains(p) implies t.contains(p) by {
        assert(f(p.1) == p);
        assert(m.items.dom().contains(p.1));
    }
    vstd::set_lib::lemma_set_subset_finite(t, s);
    lemma_listing_exists::<(u64, u64)>(s);
}

proof fn lemma_as_many(m: Model, group: Seq<char>, ids: Seq<ItemId>)
    requires
        placed(m),
        cohort_list(m.items, group).len() > 0,
        ids.no_duplicates(),
        forall|id: ItemId| #[trigger]
            ids.contains(id) <==> m.items.contains_key(id) && in_cohort(m.items[id], group),
    ensures
        ids.len() == cohort_list(m.items, group).len(),
{
    let l = cohort_list(m.items, group);
    lemma_cohort_list(m.items, group);
    lemma_cohort_ascends(m, group);
    lemma_ascending_distinct::<(u64, u64)>(l);
    let pairs = ids.map_values(|id: ItemId| (m.items[id].created_seq, id));
    assert(pairs.no_duplicates()) by {
        assert forall|i: int, j: int| 0 <= i < pairs.len() && 0 <= j < pairs.len() && i != j implies pairs[i]
            != pairs[j] by {
            assert(ids[i] != ids[j]);
        }
    }
    assert(pairs.to_set() =~= cohort_pairs(m.items, group)) by {
        assert forall|p: (u64, u64)| pairs.to_set().contains(p) <==> cohort_pairs(
            m.items,
            group,
        ).contains(p) by {
            if pairs.to_set().contains(p) {
                let i = choose|i: int| 0 <= i < pairs.len() && pairs[i] == p;
                assert(ids.contains(ids[i]));
            }
            if cohort_pairs(m.items, group).contains(p) {
                assert(ids.contains(p.1));
                let i = choose|i: int| 0 <= i < ids.len() && ids[i] == p.1;
                assert(pairs[i] == p);
            }
        }
    }
    pairs.unique_seq_to_set();
    l.unique_seq_to_set();
}

proof fn lemma_cohorts_finite(m: Model, c: CompatibilityV, open: Seq<ItemId>)
    requires
        placed(m),
    ensures
        complete_cohorts(m.items, c.metadata_equals, open).finite(),
{
    let whole = complete_cohorts(m.items, c.metadata_equals, open);
    let f = |id: ItemId| (m.items[id].created_seq, m.items[id].group_key->Some_0);
    let t = m.items.dom().map(f);
    m.items.dom().lemma_map_finite(f);
    assert(whole.subset_of(t)) by {
        assert forall|p: (u64, Seq<char>)| whole.contains(p) implies t.contains(p) by {
            let l = cohort_list(m.items, p.1);
            lemma_cohort_list(m.items, p.1);
            assert(l.to_set().contains(l[0]));
            assert(f(l[0].1) == p);
            assert(m.items.dom().contains(l[0].1));
        }
    }
    vstd::set_lib::lemma_set_subset_finite(t, whole);
}

} // verus!
