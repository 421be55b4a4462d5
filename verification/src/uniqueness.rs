//! What holds of the indexes of a queue: they lead to the items that wear their keys, and a unique key
//! leads to one item.

use crate::apply::{lemma_gates_frame, lemma_indexed_frame};
use crate::encoding::{be_bytes, lemma_be_bytes_len, lemma_be_round_trip, pow256};
use crate::image::defined;
use crate::consistency::{anything, keyed, run_valid};
use crate::indexing::{IndexKeyV, framed, holders, index_checked, is_unique, open_to_update, preflight, push_checked, reserved, spoken, taken};
use crate::item::{Item, PushV, pushed_item};
use crate::model::{Model, Step, announced, applied, claim_each, claimed, cohort_fail_each, cohort_failed, component, ends_lease, fence_each, fenced, final_event, finalize_each, finalized, gate_each, gates_after, gates_changed, index_keys, indexed, insert_each, inserted, lacking, lapse_each, lapsed, leave_if, live_group, mutate_each, purge_each, purged, put, reassign_each, reassigned, regated, reindexed, renew_each, renewed, replaced, replaced_item, run, side_each, superseded, transitioned, uncounted, under_gates, unindexed, unleased, update_each, updated, updated_entity, updated_fields, updated_item, values_keys, withdrawn};
use crate::order::{lemma_listing_exists, listing_of};
use crate::text::{opt_text, texts};
use crate::types::{EntityV, FinalizeOutcome, GateChange, ItemEvent, ItemId, PositionV, PushItem, QueueCommand, QueueDefinition, ReplacePendingCommand, ResolvedItemMutation, ResolvedItemMutationAction, ResolvedItemValues, UpdateFieldsCommand, UtcTimestamp, field_bytes, opt_doc};
use vstd::prelude::*;

verus! {

/// The index keys of an item, as far as they can be told.
pub open spec fn own_keys(m: Model, i: Item) -> Seq<IndexKeyV> {
    match index_keys(m, i.fields, i.entity) {
        Ok(k) => k,
        Err(_) => Seq::empty(),
    }
}

/// A live item has a key.
pub open spec fn wears(m: Model, id: ItemId, key: IndexKeyV) -> bool {
    &&& m.items.contains_key(id)
    &&& !m.items[id].superseded
    &&& own_keys(m, m.items[id]).contains(key)
}

/// An index under which many items may share a key.
pub open spec fn is_plural(m: Model, name: Seq<char>) -> bool {
    m.index_kinds.contains_key(name) && !m.index_kinds[name]
}

/// The indexes hold exactly the keys of the live items.
pub open spec fn indexes_exact(m: Model) -> bool {
    &&& forall|id: ItemId, key: IndexKeyV| #[trigger]
        wears(m, id, key) && is_unique(m, key.0) ==> m.unique.contains_key(key) && m.unique[key]
            == id
    &&& forall|key: IndexKeyV| #[trigger]
        m.unique.contains_key(key) ==> is_unique(m, key.0) && wears(m, m.unique[key], key)
    &&& forall|id: ItemId, key: IndexKeyV| #[trigger]
        wears(m, id, key) && is_plural(m, key.0) ==> m.multi.contains((key, id))
    &&& forall|p: (IndexKeyV, ItemId)| #[trigger]
        m.multi.contains(p) ==> is_plural(m, p.0.0) && wears(m, p.1, p.0)
}

pub open spec fn well_indexed(m: Model) -> bool {
    keyed(m) && indexes_exact(m)
}

/// No two live items share a key of a unique index.
pub proof fn law_unique_keys_have_one_item(m: Model, a: ItemId, b: ItemId, key: IndexKeyV)
    requires
        indexes_exact(m),
        is_unique(m, key.0),
        wears(m, a, key),
        wears(m, b, key),
    ensures
        a == b,
{
}

/// What indexing does to one key.
proof fn lemma_indexed_at(m: Model, id: ItemId, keys: Seq<IndexKeyV>, key: IndexKeyV)
    ensures
        ({
            let u = indexed(m, id, keys);
            let given = keys.contains(key);
            &&& u.unique.contains_key(key) == (m.unique.contains_key(key) || (given && is_unique(
                m,
                key.0,
            )))
            &&& (u.unique.contains_key(key) ==> u.unique[key] == (if given && is_unique(m, key.0) {
                id
            } else {
                m.unique[key]
            }))
            &&& forall|x: ItemId| #[trigger]
                u.multi.contains((key, x)) == (m.multi.contains((key, x)) || (x == id && given
                    && is_plural(m, key.0)))
            &&& u.index_kinds == m.index_kinds
        }),
    decreases keys.len(),
{
    if keys.len() > 0 {
        let before = keys.drop_last();
        let last = keys.last();
        lemma_indexed_at(m, id, before, key);
        assert(keys.contains(key) == (before.contains(key) || last == key)) by {
            if keys.contains(key) {
                let i = choose|i: int| 0 <= i < keys.len() && keys[i] == key;
                if i < keys.len() - 1 {
                    assert(before[i] == key);
                }
            }
            if before.contains(key) {
                let i = choose|i: int| 0 <= i < before.len() && before[i] == key;
                assert(keys[i] == key);
            }
            assert(keys[keys.len() - 1] == last);
        }
    }
}

/// What dropping keys does to one of them.
proof fn lemma_unindexed_at(m: Model, id: ItemId, keys: Seq<IndexKeyV>, key: IndexKeyV)
    ensures
        ({
            let u = unindexed(m, id, keys);
            let given = keys.contains(key);
            &&& u.unique.contains_key(key) == (m.unique.contains_key(key) && !(given && is_unique(
                m,
                key.0,
            ) && m.unique[key] == id))
            &&& (u.unique.contains_key(key) ==> u.unique[key] == m.unique[key])
            &&& forall|x: ItemId| #[trigger]
                u.multi.contains((key, x)) == (m.multi.contains((key, x)) && !(x == id && given
                    && is_plural(m, key.0)))
            &&& u.index_kinds == m.index_kinds
        }),
    decreases keys.len(),
{
    if keys.len() > 0 {
        let before = keys.drop_last();
        let last = keys.last();
        lemma_unindexed_at(m, id, before, key);
        assert(keys.contains(key) == (before.contains(key) || last == key)) by {
            if keys.contains(key) {
                let i = choose|i: int| 0 <= i < keys.len() && keys[i] == key;
                if i < keys.len() - 1 {
                    assert(before[i] == key);
                }
            }
            if before.contains(key) {
                let i = choose|i: int| 0 <= i < before.len() && before[i] == key;
                assert(keys[i] == key);
            }
            assert(keys[keys.len() - 1] == last);
        }
    }
}

proof fn lemma_lacking(keys: Seq<IndexKeyV>, other: Seq<IndexKeyV>, key: IndexKeyV)
    ensures
        lacking(keys, other).contains(key) == (keys.contains(key) && !other.contains(key)),
    decreases keys.len(),
{
    if keys.len() > 0 {
        let before = keys.drop_last();
        let last = keys.last();
        lemma_lacking(before, other, key);
        let l = lacking(before, other);
        assert(keys.contains(key) == (before.contains(key) || last == key)) by {
            if keys.contains(key) {
                let i = choose|i: int| 0 <= i < keys.len() && keys[i] == key;
                if i < keys.len() - 1 {
                    assert(before[i] == key);
                }
            }
            if before.contains(key) {
                let i = choose|i: int| 0 <= i < before.len() && before[i] == key;
                assert(keys[i] == key);
            }
            assert(keys[keys.len() - 1] == last);
        }
        assert(l.push(last).contains(key) == (l.contains(key) || last == key)) by {
            let p = l.push(last);
            if p.contains(key) {
                let i = choose|i: int| 0 <= i < p.len() && p[i] == key;
                if i < l.len() {
                    assert(l[i] == key);
                }
            }
            if l.contains(key) {
                let i = choose|i: int| 0 <= i < l.len() && l[i] == key;
                assert(p[i] == key);
            }
            assert(p[l.len() as int] == last);
        }
    }
}

/// Nothing that indexes look at changed.
pub open spec fn same_worn(m: Model, n: Model) -> bool {
    &&& n.unique == m.unique
    &&& n.multi == m.multi
    &&& n.index_kinds == m.index_kinds
    &&& n.index_specs == m.index_specs
    &&& n.items.dom() == m.items.dom()
    &&& forall|id: ItemId| #[trigger]
        m.items.contains_key(id) ==> n.items[id].fields == m.items[id].fields && n.items[id].entity
            == m.items[id].entity && n.items[id].superseded == m.items[id].superseded
            && n.items[id].item_id == m.items[id].item_id
}

proof fn lemma_same_worn(m: Model, n: Model)
    requires
        well_indexed(m),
        same_worn(m, n),
    ensures
        well_indexed(n),
{
    assert forall|id: ItemId, key: IndexKeyV| wears(n, id, key) == wears(m, id, key) by {
        assert(m.items.contains_key(id) == m.items.dom().contains(id));
        assert(n.items.contains_key(id) == n.items.dom().contains(id));
    }
    assert forall|id: ItemId| #[trigger] n.items.contains_key(id) implies n.items[id].item_id
        == id by {
        assert(n.items.dom().contains(id));
        assert(m.items.contains_key(id));
    }
    assert forall|id: ItemId, key: IndexKeyV| #[trigger]
        wears(n, id, key) && is_unique(n, key.0) implies n.unique.contains_key(key) && n.unique[key]
        == id by {
        assert(wears(m, id, key));
        assert(is_unique(m, key.0));
    }
    assert forall|key: IndexKeyV| #[trigger] n.unique.contains_key(key) implies is_unique(n, key.0)
        && wears(n, n.unique[key], key) by {
        assert(m.unique.contains_key(key));
        assert(wears(m, m.unique[key], key));
    }
    assert forall|id: ItemId, key: IndexKeyV| #[trigger]
        wears(n, id, key) && is_plural(n, key.0) implies n.multi.contains((key, id)) by {
        assert(wears(m, id, key));
    }
    assert forall|p: (IndexKeyV, ItemId)| #[trigger] n.multi.contains(p) implies is_plural(n, p.0.0)
        && wears(n, p.1, p.0) by {
        assert(m.multi.contains(p));
        assert(wears(m, p.1, p.0));
    }
}

/// One item changes its keys, and the indexes follow.
proof fn lemma_rekeyed(m: Model, n: Model, id: ItemId, now: Seq<IndexKeyV>)
    requires
        indexes_exact(m),
        n.index_kinds == m.index_kinds,
        n.index_specs == m.index_specs,
        forall|x: ItemId|
            x != id ==> (#[trigger] n.items.contains_key(x) == m.items.contains_key(x)) && (
            m.items.contains_key(x) ==> n.items[x] == m.items[x]),
        forall|key: IndexKeyV| #[trigger] wears(n, id, key) == now.contains(key),
        forall|key: IndexKeyV|
            now.contains(key) && is_unique(m, key.0) && m.unique.contains_key(key) ==> m.unique[key]
                == id,
        forall|key: IndexKeyV| #[trigger]
            n.unique.contains_key(key) == ((m.unique.contains_key(key) && m.unique[key] != id) || (
            now.contains(key) && is_unique(m, key.0))),
        forall|key: IndexKeyV| #[trigger]
            n.unique.contains_key(key) ==> n.unique[key] == (if now.contains(key) && is_unique(
                m,
                key.0,
            ) {
                id
            } else {
                m.unique[key]
            }),
        forall|p: (IndexKeyV, ItemId)| #[trigger]
            n.multi.contains(p) == (if p.1 == id {
                now.contains(p.0) && is_plural(m, p.0.0)
            } else {
                m.multi.contains(p)
            }),
    ensures
        indexes_exact(n),
{
    assert forall|x: ItemId, key: IndexKeyV| x != id implies #[trigger] wears(n, x, key) == wears(
        m,
        x,
        key,
    ) by {
        assert(n.items.contains_key(x) == m.items.contains_key(x));
    }
    assert forall|x: ItemId, key: IndexKeyV| #[trigger]
        wears(n, x, key) && is_unique(n, key.0) implies n.unique.contains_key(key) && n.unique[key]
        == x by {
        assert(is_unique(m, key.0));
        if x == id {
            assert(now.contains(key));
            assert(n.unique.contains_key(key));
        } else {
            assert(wears(m, x, key));
            assert(m.unique.contains_key(key) && m.unique[key] == x);
            assert(n.unique.contains_key(key));
        }
    }
    assert forall|key: IndexKeyV| #[trigger] n.unique.contains_key(key) implies is_unique(n, key.0)
        && wears(n, n.unique[key], key) by {
        if now.contains(key) && is_unique(m, key.0) {
            assert(wears(n, id, key) == now.contains(key));
        } else {
            assert(m.unique.contains_key(key));
            assert(wears(m, m.unique[key], key));
            assert(wears(n, m.unique[key], key) == wears(m, m.unique[key], key));
        }
    }
    assert forall|x: ItemId, key: IndexKeyV| #[trigger]
        wears(n, x, key) && is_plural(n, key.0) implies n.multi.contains((key, x)) by {
        let p = (key, x);
        assert(n.multi.contains(p) == (if p.1 == id {
            now.contains(p.0) && is_plural(m, p.0.0)
        } else {
            m.multi.contains(p)
        }));
        if x != id {
            assert(wears(m, x, key));
        }
    }
    assert forall|p: (IndexKeyV, ItemId)| #[trigger] n.multi.contains(p) implies is_plural(n, p.0.0)
        && wears(n, p.1, p.0) by {
        if p.1 == id {
            assert(wears(n, id, p.0) == now.contains(p.0));
        } else {
            assert(m.multi.contains(p));
            assert(wears(m, p.1, p.0));
            assert(wears(n, p.1, p.0) == wears(m, p.1, p.0));
        }
    }
}

/// Keys that a check let through belong to nobody else.
proof fn lemma_checked_free(
    m: Model,
    id: ItemId,
    fields: Map<Seq<char>, Seq<u8>>,
    entity: Option<EntityV>,
    exclude: Option<ItemId>,
    key: IndexKeyV,
)
    requires
        index_checked(m, id, fields, entity, exclude) is Ok,
        index_keys(m, fields, entity)->Ok_0.contains(key),
        is_unique(m, key.0),
        m.unique.contains_key(key),
    ensures
        m.unique[key] == id || Some(m.unique[key]) == exclude,
{
    let keys = index_keys(m, fields, entity)->Ok_0;
    let i = choose|i: int| 0 <= i < keys.len() && keys[i] == key;
    assert(!taken(m, id, keys[i], exclude));
}

/// A new item whose keys were checked.
pub open spec fn new_keys_valid(m: Model, p: PushV) -> bool {
    !m.items.contains_key(p.item_id) && index_checked(m, p.item_id, p.fields, p.entity, None) is Ok
}

proof fn lemma_insert_keeps(m: Model, p: PushV, at: Option<UtcTimestamp>)
    requires
        well_indexed(m),
        new_keys_valid(m, p),
        inserted(m, p, at).1 is Ok,
    ensures
        well_indexed(inserted(m, p, at).0),
{
    let i = pushed_item(p, m.next_seq, at);
    let id = i.item_id;
    let a = announced(Model { next_seq: (m.next_seq + 1) as u64, ..m }, i);
    let now = index_keys(a, i.fields, i.entity)->Ok_0;
    assert(index_keys(a, i.fields, i.entity) == index_keys(m, i.fields, i.entity));
    let n = inserted(m, p, at).0;
    lemma_indexed_frame(a, id, now);
    assert(n.items == m.items.insert(id, i));
    assert forall|key: IndexKeyV| #[trigger] wears(n, id, key) == now.contains(key) by {}
    assert forall|key: IndexKeyV| #[trigger] n.unique.contains_key(key) == ((
    m.unique.contains_key(key) && m.unique[key] != id) || (now.contains(key) && is_unique(
        m,
        key.0,
    ))) by {
        lemma_indexed_at(a, id, now, key);
        if m.unique.contains_key(key) {
            assert(wears(m, m.unique[key], key));
        }
    }
    assert forall|key: IndexKeyV| #[trigger] n.unique.contains_key(key) implies n.unique[key] == (
    if now.contains(key) && is_unique(m, key.0) {
        id
    } else {
        m.unique[key]
    }) by {
        lemma_indexed_at(a, id, now, key);
    }
    assert forall|q: (IndexKeyV, ItemId)| #[trigger] n.multi.contains(q) == (if q.1 == id {
        now.contains(q.0) && is_plural(m, q.0.0)
    } else {
        m.multi.contains(q)
    }) by {
        lemma_indexed_at(a, id, now, q.0);
        assert(q == (q.0, q.1));
        if m.multi.contains(q) {
            assert(wears(m, q.1, q.0));
        }
    }
    assert forall|key: IndexKeyV|
        now.contains(key) && is_unique(m, key.0) && m.unique.contains_key(key) implies m.unique[key]
        == id by {
        lemma_checked_free(m, id, p.fields, p.entity, None, key);
    }
    lemma_rekeyed(m, n, id, now);
}

/// The indexes after an item's keys were exchanged.
proof fn lemma_reindexed_at(
    m: Model,
    id: ItemId,
    old_keys: Seq<IndexKeyV>,
    new_keys: Seq<IndexKeyV>,
    key: IndexKeyV,
)
    requires
        indexes_exact(m),
        m.items.contains_key(id),
        !m.items[id].superseded,
        own_keys(m, m.items[id]) == old_keys,
    ensures
        ({
            let u = reindexed(m, id, old_keys, new_keys);
            &&& u.unique.contains_key(key) == ((m.unique.contains_key(key) && m.unique[key] != id)
                || (new_keys.contains(key) && is_unique(m, key.0)))
            &&& (u.unique.contains_key(key) && (!new_keys.contains(key) || !is_unique(m, key.0))
                ==> u.unique[key] == m.unique[key])
            &&& (new_keys.contains(key) && is_unique(m, key.0) && (!m.unique.contains_key(key)
                || m.unique[key] == id) ==> u.unique[key] == id)
            &&& forall|x: ItemId| #[trigger]
                u.multi.contains((key, x)) == (if x == id {
                    new_keys.contains(key) && is_plural(m, key.0)
                } else {
                    m.multi.contains((key, x))
                })
        }),
{
    let gone = lacking(old_keys, new_keys);
    let fresh_keys = lacking(new_keys, old_keys);
    lemma_lacking(old_keys, new_keys, key);
    lemma_lacking(new_keys, old_keys, key);
    lemma_unindexed_at(m, id, gone, key);
    let u1 = unindexed(m, id, gone);
    lemma_indexed_at(u1, id, fresh_keys, key);
    let u = reindexed(m, id, old_keys, new_keys);
    assert(wears(m, id, key) == old_keys.contains(key));
    if m.unique.contains_key(key) {
        assert(wears(m, m.unique[key], key));
        assert(is_unique(m, key.0));
    }
    assert forall|x: ItemId| #[trigger] u.multi.contains((key, x)) == (if x == id {
        new_keys.contains(key) && is_plural(m, key.0)
    } else {
        m.multi.contains((key, x))
    }) by {
        assert(u1.multi.contains((key, x)) == (m.multi.contains((key, x)) && !(x == id
            && gone.contains(key) && is_plural(m, key.0))));
        if m.multi.contains((key, id)) {
            assert(wears(m, id, key));
        }
    }
}

/// An item that stays live takes on new values, and with them new keys.
proof fn lemma_exchange_keeps(m: Model, w: Model, n: Model, id: ItemId, new_keys: Seq<IndexKeyV>)
    requires
        well_indexed(m),
        m.items.contains_key(id),
        !m.items[id].superseded,
        index_keys(m, m.items[id].fields, m.items[id].entity) is Ok,
        w.unique == m.unique,
        w.multi == m.multi,
        w.index_kinds == m.index_kinds,
        w.index_specs == m.index_specs,
        n.items.dom() == m.items.dom(),
        forall|x: ItemId| x != id && #[trigger] m.items.contains_key(x) ==> n.items[x] == m.items[x],
        n.items[id].item_id == id,
        !n.items[id].superseded,
        own_keys(m, n.items[id]) == new_keys,
        n.index_kinds == m.index_kinds,
        n.index_specs == m.index_specs,
        n.unique == reindexed(w, id, own_keys(m, m.items[id]), new_keys).unique,
        n.multi == reindexed(w, id, own_keys(m, m.items[id]), new_keys).multi,
        forall|key: IndexKeyV|
            new_keys.contains(key) && is_unique(m, key.0) && #[trigger] m.unique.contains_key(key)
                ==> m.unique[key] == id,
    ensures
        well_indexed(n),
{
    let old_keys = own_keys(m, m.items[id]);
    let v = Model { unique: m.unique, multi: m.multi, index_kinds: m.index_kinds, ..m };
    assert(v == m);
    lemma_reindexed_same(m, w, id, old_keys, new_keys);
    assert forall|x: ItemId| x != id implies (#[trigger] n.items.contains_key(x)
        == m.items.contains_key(x)) && (m.items.contains_key(x) ==> n.items[x] == m.items[x]) by {
        assert(n.items.dom().contains(x) == m.items.dom().contains(x));
    }
    assert(n.items.dom().contains(id));
    assert forall|key: IndexKeyV| #[trigger] wears(n, id, key) == new_keys.contains(key) by {}
    assert forall|key: IndexKeyV| #[trigger] n.unique.contains_key(key) == ((
    m.unique.contains_key(key) && m.unique[key] != id) || (new_keys.contains(key) && is_unique(
        m,
        key.0,
    ))) by {
        lemma_reindexed_at(m, id, old_keys, new_keys, key);
    }
    assert forall|key: IndexKeyV| #[trigger] n.unique.contains_key(key) implies n.unique[key] == (
    if new_keys.contains(key) && is_unique(m, key.0) {
        id
    } else {
        m.unique[key]
    }) by {
        lemma_reindexed_at(m, id, old_keys, new_keys, key);
        if new_keys.contains(key) && is_unique(m, key.0) && m.unique.contains_key(key) {
            assert(m.unique[key] == id);
        }
    }
    assert forall|p: (IndexKeyV, ItemId)| #[trigger] n.multi.contains(p) == (if p.1 == id {
        new_keys.contains(p.0) && is_plural(m, p.0.0)
    } else {
        m.multi.contains(p)
    }) by {
        lemma_reindexed_at(m, id, old_keys, new_keys, p.0);
        assert(p == (p.0, p.1));
    }
    lemma_rekeyed(m, n, id, new_keys);
    assert forall|x: ItemId| #[trigger] n.items.contains_key(x) implies n.items[x].item_id == x by {
        assert(n.items.dom().contains(x));
        assert(m.items.contains_key(x));
    }
}

/// Indexing goes by the indexes alone.
proof fn lemma_reindexed_same(
    m: Model,
    w: Model,
    id: ItemId,
    old_keys: Seq<IndexKeyV>,
    new_keys: Seq<IndexKeyV>,
)
    requires
        w.unique == m.unique,
        w.multi == m.multi,
        w.index_kinds == m.index_kinds,
    ensures
        reindexed(w, id, old_keys, new_keys).unique == reindexed(m, id, old_keys, new_keys).unique,
        reindexed(w, id, old_keys, new_keys).multi == reindexed(m, id, old_keys, new_keys).multi,
{
    lemma_unindexed_same(m, w, id, lacking(old_keys, new_keys));
    lemma_indexed_frame(m, id, lacking(old_keys, new_keys));
    lemma_indexed_frame(w, id, lacking(old_keys, new_keys));
    lemma_indexed_same(
        unindexed(m, id, lacking(old_keys, new_keys)),
        unindexed(w, id, lacking(old_keys, new_keys)),
        id,
        lacking(new_keys, old_keys),
    );
}

proof fn lemma_indexed_same(m: Model, w: Model, id: ItemId, keys: Seq<IndexKeyV>)
    requires
        w.unique == m.unique,
        w.multi == m.multi,
        w.index_kinds == m.index_kinds,
    ensures
        indexed(w, id, keys).unique == indexed(m, id, keys).unique,
        indexed(w, id, keys).multi == indexed(m, id, keys).multi,
        indexed(w, id, keys).index_kinds == indexed(m, id, keys).index_kinds,
    decreases keys.len(),
{
    if keys.len() > 0 {
        lemma_indexed_same(m, w, id, keys.drop_last());
    }
}

proof fn lemma_unindexed_same(m: Model, w: Model, id: ItemId, keys: Seq<IndexKeyV>)
    requires
        w.unique == m.unique,
        w.multi == m.multi,
        w.index_kinds == m.index_kinds,
    ensures
        unindexed(w, id, keys).unique == unindexed(m, id, keys).unique,
        unindexed(w, id, keys).multi == unindexed(m, id, keys).multi,
        unindexed(w, id, keys).index_kinds == unindexed(m, id, keys).index_kinds,
    decreases keys.len(),
{
    if keys.len() > 0 {
        lemma_unindexed_same(m, w, id, keys.drop_last());
    }
}

/// An update whose new keys were checked.
pub open spec fn update_keys_valid(m: Model, c: UpdateFieldsCommand) -> bool {
    m.items.contains_key(c.item_id) ==> {
        let i = m.items[c.item_id];
        &&& !i.superseded
        &&& index_checked(m, c.item_id, updated_fields(i, c), updated_entity(i, c), None) is Ok
    }
}

proof fn lemma_update_keeps_indexes(m: Model, c: UpdateFieldsCommand, at: Option<UtcTimestamp>)
    requires
        well_indexed(m),
        update_keys_valid(m, c),
        updated(m, c, at).1 is Ok,
    ensures
        well_indexed(updated(m, c, at).0),
{
    let id = c.item_id;
    let i = m.items[id];
    let j = updated_item(i, c, at);
    let old_keys = index_keys(m, i.fields, i.entity)->Ok_0;
    let new_keys = index_keys(m, updated_fields(i, c), updated_entity(i, c))->Ok_0;
    let w = put(m, id, j);
    lemma_indexed_frame(w, id, lacking(old_keys, new_keys));
    lemma_indexed_frame(
        unindexed(w, id, lacking(old_keys, new_keys)),
        id,
        lacking(new_keys, old_keys),
    );
    let n = updated(m, c, at).0;
    assert(n.items == w.items);
    assert(n.items.dom() =~= m.items.dom());
    assert forall|key: IndexKeyV|
        new_keys.contains(key) && is_unique(m, key.0) && #[trigger] m.unique.contains_key(
            key,
        ) implies m.unique[key] == id by {
        lemma_checked_free(m, id, updated_fields(i, c), updated_entity(i, c), None, key);
    }
    lemma_exchange_keeps(m, w, n, id, new_keys);
}

/// An item goes, and its keys with it.
proof fn lemma_dropped_keeps(m: Model, w: Model, n: Model, id: ItemId)
    requires
        well_indexed(m),
        m.items.contains_key(id),
        index_keys(m, m.items[id].fields, m.items[id].entity) is Ok,
        w.unique == m.unique,
        w.multi == m.multi,
        w.index_kinds == m.index_kinds,
        n.index_kinds == m.index_kinds,
        n.index_specs == m.index_specs,
        forall|x: ItemId|
            x != id ==> (#[trigger] n.items.contains_key(x) == m.items.contains_key(x)) && (
            m.items.contains_key(x) ==> n.items[x] == m.items[x]),
        n.items.contains_key(id) ==> n.items[id].superseded && n.items[id].item_id == id,
        n.unique == unindexed(w, id, own_keys(m, m.items[id])).unique,
        n.multi == unindexed(w, id, own_keys(m, m.items[id])).multi,
    ensures
        well_indexed(n),
        forall|key: IndexKeyV| #[trigger]
            n.unique.contains_key(key) ==> m.unique.contains_key(key) && n.unique[key]
                == m.unique[key] && n.unique[key] != id,
{
    let keys = own_keys(m, m.items[id]);
    let now = Seq::<IndexKeyV>::empty();
    lemma_unindexed_same(m, w, id, keys);
    assert forall|key: IndexKeyV| #[trigger] wears(n, id, key) == now.contains(key) by {}
    assert forall|key: IndexKeyV| #[trigger] n.unique.contains_key(key) == ((
    m.unique.contains_key(key) && m.unique[key] != id) || (now.contains(key) && is_unique(
        m,
        key.0,
    ))) by {
        lemma_unindexed_at(m, id, keys, key);
        if m.unique.contains_key(key) {
            assert(wears(m, m.unique[key], key));
        }
    }
    assert forall|key: IndexKeyV| #[trigger] n.unique.contains_key(key) implies n.unique[key] == (
    if now.contains(key) && is_unique(m, key.0) {
        id
    } else {
        m.unique[key]
    }) by {
        lemma_unindexed_at(m, id, keys, key);
    }
    assert forall|p: (IndexKeyV, ItemId)| #[trigger] n.multi.contains(p) == (if p.1 == id {
        now.contains(p.0) && is_plural(m, p.0.0)
    } else {
        m.multi.contains(p)
    }) by {
        lemma_unindexed_at(m, id, keys, p.0);
        assert(p == (p.0, p.1));
        if m.multi.contains(p) {
            assert(wears(m, p.1, p.0));
        }
    }
    lemma_rekeyed(m, n, id, now);
    assert forall|x: ItemId| #[trigger] n.items.contains_key(x) implies n.items[x].item_id == x by {
        if x != id {
            assert(n.items.contains_key(x) == m.items.contains_key(x));
        }
    }
}

proof fn lemma_purge_keeps_indexes(m: Model, id: ItemId)
    requires
        well_indexed(m),
        purged(m, id).1 is Ok,
    ensures
        well_indexed(purged(m, id).0),
{
    if m.items.contains_key(id) {
        let i = m.items[id];
        let r = Model { items: m.items.remove(id), ..m };
        let m1 = if i.superseded {
            r
        } else {
            Model { metrics: uncounted(r.metrics, i.state), ..r }
        };
        let m2 = match i.explicit_key {
            Some(k) => Model { by_key: m1.by_key.remove(k), ..m1 },
            None => m1,
        };
        let m3 = regated(m2, id, i.gate_keys, Seq::empty());
        let m4 = leave_if(m3, i.state is Pending, i);
        let m5 = if i.state is Leased {
            unleased(m4, id, i.lease_token, i.lease_expires_at)
        } else {
            m4
        };
        assert(index_keys(m5, i.fields, i.entity) == index_keys(m, i.fields, i.entity));
        let keys = index_keys(m5, i.fields, i.entity)->Ok_0;
        lemma_indexed_frame(m5, id, keys);
        let n = purged(m, id).0;
        assert(i.item_id == id);
        assert(n == unindexed(m5, id, keys));
        assert(n.items == m.items.remove(id));
        lemma_dropped_keeps(m, m5, n, id);
    }
}

/// A mutation whose new keys were checked.
pub open spec fn mutation_keys_valid(m: Model, x: ResolvedItemMutation) -> bool {
    match x.action {
        ResolvedItemMutationAction::Purge => true,
        ResolvedItemMutationAction::Replace(v) => m.items.contains_key(x.item_id) ==> {
            &&& !m.items[x.item_id].superseded
            &&& index_checked(m, x.item_id, field_bytes(*v.fields), opt_doc(v.entity_document), None)
                is Ok
        },
    }
}

proof fn lemma_replace_keeps_indexes(
    m: Model,
    id: ItemId,
    v: ResolvedItemValues,
    at: Option<UtcTimestamp>,
    pos: Option<PositionV>,
)
    requires
        well_indexed(m),
        m.items.contains_key(id) ==> !m.items[id].superseded && index_checked(
            m,
            id,
            field_bytes(*v.fields),
            opt_doc(v.entity_document),
            None,
        ) is Ok,
        replaced(m, id, v, at, pos).1 is Ok,
    ensures
        well_indexed(replaced(m, id, v, at, pos).0),
{
    let i = m.items[id];
    let ends = ends_lease(i, v);
    let j = replaced_item(i, v, ends, at, pos);
    let d = withdrawn(m, id, i, ends);
    let old_keys = index_keys(m, i.fields, i.entity)->Ok_0;
    assert(values_keys(d, v) == values_keys(m, v));
    let new_keys = values_keys(d, v)->Ok_0;
    let w = put(d, id, j);
    lemma_indexed_frame(w, id, lacking(old_keys, new_keys));
    lemma_indexed_frame(
        unindexed(w, id, lacking(old_keys, new_keys)),
        id,
        lacking(new_keys, old_keys),
    );
    let n = replaced(m, id, v, at, pos).0;
    assert(n.items == w.items);
    assert(n.items.dom() =~= m.items.dom());
    assert forall|key: IndexKeyV|
        new_keys.contains(key) && is_unique(m, key.0) && #[trigger] m.unique.contains_key(
            key,
        ) implies m.unique[key] == id by {
        lemma_checked_free(m, id, field_bytes(*v.fields), opt_doc(v.entity_document), None, key);
    }
    lemma_exchange_keeps(m, w, n, id, new_keys);
}

/// A replacement that is new and whose keys were checked beside what it replaces.
pub open spec fn replacement_keys_valid(m: Model, c: ReplacePendingCommand) -> bool {
    &&& !m.items.contains_key(c.replacement@.item_id)
    &&& index_checked(
        m,
        c.replacement@.item_id,
        c.replacement@.fields,
        c.replacement@.entity,
        Some(c.superseded_item_id),
    ) is Ok
}

proof fn lemma_supersede_keeps_indexes(
    m: Model,
    c: ReplacePendingCommand,
    at: Option<UtcTimestamp>,
)
    requires
        well_indexed(m),
        replacement_keys_valid(m, c),
        superseded(m, c, at).1 is Ok,
    ensures
        well_indexed(superseded(m, c, at).0),
{
    let id = c.superseded_item_id;
    let p = c.replacement@;
    let cleared = if m.items.contains_key(id) {
        let i = m.items[id];
        let keys = index_keys(m, i.fields, i.entity)->Ok_0;
        let m1 = put(m, id, Item { superseded: true, ..i });
        let m2 = leave_if(m1, i.state is Pending, i);
        let m3 = if i.superseded {
            m2
        } else {
            Model { metrics: uncounted(m2.metrics, i.state), ..m2 }
        };
        lemma_indexed_frame(m3, id, keys);
        let m4 = unindexed(m3, id, keys);
        let n = regated(m4, id, i.gate_keys, Seq::empty());
        assert(n.items == m1.items);
        lemma_dropped_keeps(m, m3, n, id);
        n
    } else {
        m
    };
    let b = Model { by_key: cleared.by_key.remove(c.client_item_key@), ..cleared };
    lemma_same_worn(cleared, b);
    assert(index_keys(b, p.fields, p.entity) == index_keys(m, p.fields, p.entity));
    let keys = index_keys(m, p.fields, p.entity)->Ok_0;
    assert forall|k: int| 0 <= k < keys.len() implies !taken(b, p.item_id, #[trigger] keys[k], None) by {
        if taken(b, p.item_id, keys[k], None) {
            assert(b.unique.contains_key(keys[k]));
            assert(keys.contains(keys[k]));
            if m.items.contains_key(id) {
                assert(cleared.unique.contains_key(keys[k]));
            }
            assert(is_unique(m, keys[k].0));
            lemma_checked_free(m, p.item_id, p.fields, p.entity, Some(id), keys[k]);
            if !m.items.contains_key(id) {
                assert(wears(m, m.unique[keys[k]], keys[k]));
            }
        }
    }
    lemma_insert_keeps(b, p, at);
}

pub open spec fn new_keys_checked() -> spec_fn(Model, PushItem) -> bool {
    |m: Model, p: PushItem| new_keys_valid(m, p@)
}

pub open spec fn update_keys_checked() -> spec_fn(Model, UpdateFieldsCommand) -> bool {
    |m: Model, c: UpdateFieldsCommand| update_keys_valid(m, c)
}

pub open spec fn mutation_keys_checked() -> spec_fn(Model, ResolvedItemMutation) -> bool {
    |m: Model, x: ResolvedItemMutation| mutation_keys_valid(m, x)
}

/// What has to be checked of the index keys of a command before it is committed.
pub open spec fn keys_valid(
    m: Model,
    at: Option<UtcTimestamp>,
    pos: Option<PositionV>,
    cmd: QueueCommand,
) -> bool {
    match cmd {
        QueueCommand::Push(items) => run_valid(m, items@, insert_each(at), new_keys_checked()),
        QueueCommand::UpdateFields(c) => update_keys_valid(m, c),
        QueueCommand::UpdateFieldsBatch(cs) => run_valid(
            m,
            cs@,
            update_each(at),
            update_keys_checked(),
        ),
        QueueCommand::MutateItems(c) => run_valid(
            m,
            c.items@,
            mutate_each(at, pos),
            mutation_keys_checked(),
        ),
        QueueCommand::ReplacePending(c) => replacement_keys_valid(m, c),
        _ => true,
    }
}

proof fn lemma_run_indexed<A>(
    m: Model,
    list: Seq<A>,
    f: spec_fn(Model, A) -> Step,
    v: spec_fn(Model, A) -> bool,
)
    requires
        well_indexed(m),
        run_valid(m, list, f, v),
        run(m, list, f).1 is Ok,
        forall|n: Model, a: A|
            well_indexed(n) && v(n, a) && (#[trigger] f(n, a)).1 is Ok ==> well_indexed(f(n, a).0),
    ensures
        well_indexed(run(m, list, f).0),
    decreases list.len(),
{
    if list.len() > 0 {
        assert(f(m, list[0]).1 is Ok);
        lemma_run_indexed(f(m, list[0]).0, list.drop_first(), f, v);
    }
}

/// A run whose steps leave alone what indexes look at.
proof fn lemma_run_same<A>(m: Model, list: Seq<A>, f: spec_fn(Model, A) -> Step)
    requires
        well_indexed(m),
        run(m, list, f).1 is Ok,
        forall|n: Model, a: A| (#[trigger] f(n, a)).1 is Ok ==> same_worn(n, f(n, a).0),
    ensures
        well_indexed(run(m, list, f).0),
    decreases list.len(),
{
    if list.len() > 0 {
        let n = f(m, list[0]).0;
        assert(same_worn(m, n));
        lemma_same_worn(m, n);
        lemma_run_same(n, list.drop_first(), f);
    }
}

proof fn lemma_transition_same(
    m: Model,
    id: ItemId,
    ev: ItemEvent,
    at: Option<UtcTimestamp>,
    pos: Option<PositionV>,
)
    ensures
        transitioned(m, id, ev, at, pos).1 is Ok ==> same_worn(
            m,
            transitioned(m, id, ev, at, pos).0,
        ) && m.items.contains_key(id),
{
    let s = transitioned(m, id, ev, at, pos);
    if s.1 is Ok {
        assert(s.0.items.dom() =~= m.items.dom());
    }
}

proof fn lemma_claim_same(
    m: Model,
    id: ItemId,
    token: Seq<char>,
    expires: UtcTimestamp,
    worker: Option<Seq<char>>,
    cohort: bool,
)
    ensures
        claimed(m, id, token, expires, worker, cohort).1 is Ok ==> same_worn(
            m,
            claimed(m, id, token, expires, worker, cohort).0,
        ),
{
    lemma_transition_same(m, id, ItemEvent::Claim, None, None);
    let s = claimed(m, id, token, expires, worker, cohort);
    if s.1 is Ok {
        assert(s.0.items.dom() =~= m.items.dom());
    }
}

proof fn lemma_lease_same(m: Model, id: ItemId, token: Seq<char>, expires: UtcTimestamp)
    ensures
        renewed(m, id, expires).1 is Ok ==> same_worn(m, renewed(m, id, expires).0),
        reassigned(m, id, token, expires).1 is Ok ==> same_worn(
            m,
            reassigned(m, id, token, expires).0,
        ),
{
    if m.items.contains_key(id) {
        assert(renewed(m, id, expires).0.items.dom() =~= m.items.dom());
        assert(reassigned(m, id, token, expires).0.items.dom() =~= m.items.dom());
    }
}

proof fn lemma_finalize_same(
    m: Model,
    o: FinalizeOutcome,
    at: Option<UtcTimestamp>,
    pos: Option<PositionV>,
)
    ensures
        finalized(m, o, at, pos).1 is Ok ==> same_worn(m, finalized(m, o, at, pos).0),
{
    match final_event(m, o) {
        Err(_) => {},
        Ok(ev) => {
            lemma_transition_same(m, o.item_id, ev, at, pos);
            let s = finalized(m, o, at, pos);
            if s.1 is Ok {
                assert(s.0.items.dom() =~= m.items.dom());
            }
        },
    }
}

proof fn lemma_lapse_same(m: Model, id: ItemId)
    ensures
        lapsed(m, id).1 is Ok ==> same_worn(m, lapsed(m, id).0),
{
    lemma_transition_same(m, id, ItemEvent::LeaseExpired, None, None);
    let s = lapsed(m, id);
    if s.1 is Ok {
        assert(s.0.items.dom() =~= m.items.dom());
    }
}

proof fn lemma_mark_same(
    m: Model,
    id: ItemId,
    at: Option<UtcTimestamp>,
    pos: Option<PositionV>,
    on: bool,
)
    ensures
        same_worn(m, cohort_failed(m, id, at, pos).0),
        same_worn(m, fenced(m, id, on).0),
{
    assert(cohort_failed(m, id, at, pos).0.items.dom() =~= m.items.dom());
    assert(fenced(m, id, on).0.items.dom() =~= m.items.dom());
}

proof fn lemma_gates_same(m: Model, keys: Seq<Seq<char>>, blocked: bool)
    ensures
        same_worn(m, gates_changed(m, keys, blocked).0),
{
    let n = Model { blocked_gates: gates_after(m.blocked_gates, keys, blocked), ..m };
    lemma_gates_frame(n, listing_of::<u64>(under_gates(m, keys)), m.blocked_gates);
}

/// Every command whose keys were checked and that applies without failure keeps the indexes in exact
/// agreement with the live items. So no two live items ever come to share a unique key.
pub proof fn law_checked_commands_keep_indexes(
    m: Model,
    at: Option<UtcTimestamp>,
    pos: Option<PositionV>,
    cmd: QueueCommand,
)
    requires
        well_indexed(m),
        keys_valid(m, at, pos, cmd),
        applied(m, at, pos, cmd).1 is Ok,
    ensures
        well_indexed(applied(m, at, pos, cmd).0),
{
    match cmd {
        QueueCommand::Push(items) => {
            let f = insert_each(at);
            let v = new_keys_checked();
            assert forall|n: Model, a: PushItem|
                well_indexed(n) && v(n, a) && (#[trigger] f(n, a)).1 is Ok implies well_indexed(
                f(n, a).0,
            ) by {
                lemma_insert_keeps(n, a@, at);
            }
            lemma_run_indexed(m, items@, f, v);
        },
        QueueCommand::Claim(c) => {
            let w = opt_text(c.worker_id);
            let f = claim_each(c.lease_token@, c.lease_expires_at, w, false);
            assert forall|n: Model, a: ItemId| (#[trigger] f(n, a)).1 is Ok implies same_worn(
                n,
                f(n, a).0,
            ) by {
                lemma_claim_same(n, a, c.lease_token@, c.lease_expires_at, w, false);
            }
            lemma_run_same(m, c.item_ids@, f);
        },
        QueueCommand::CohortClaim(c) => {
            let f = claim_each(c.lease_token@, c.lease_expires_at, None, true);
            assert forall|n: Model, a: ItemId| (#[trigger] f(n, a)).1 is Ok implies same_worn(
                n,
                f(n, a).0,
            ) by {
                lemma_claim_same(n, a, c.lease_token@, c.lease_expires_at, None, true);
            }
            lemma_run_same(m, c.item_ids@, f);
        },
        QueueCommand::RenewLease(c) => {
            let f = renew_each(c.lease_expires_at);
            assert forall|n: Model, a: ItemId| (#[trigger] f(n, a)).1 is Ok implies same_worn(
                n,
                f(n, a).0,
            ) by {
                lemma_lease_same(n, a, Seq::empty(), c.lease_expires_at);
            }
            lemma_run_same(m, c.item_ids@, f);
        },
        QueueCommand::ReassignLease(c) => {
            let f = reassign_each(c.lease_token@, c.lease_expires_at);
            assert forall|n: Model, a: ItemId| (#[trigger] f(n, a)).1 is Ok implies same_worn(
                n,
                f(n, a).0,
            ) by {
                lemma_lease_same(n, a, c.lease_token@, c.lease_expires_at);
            }
            lemma_run_same(m, c.item_ids@, f);
        },
        QueueCommand::UpdateFields(c) => {
            lemma_update_keeps_indexes(m, c, at);
        },
        QueueCommand::UpdateFieldsBatch(cs) => {
            let f = update_each(at);
            let v = update_keys_checked();
            assert forall|n: Model, a: UpdateFieldsCommand|
                well_indexed(n) && v(n, a) && (#[trigger] f(n, a)).1 is Ok implies well_indexed(
                f(n, a).0,
            ) by {
                lemma_update_keeps_indexes(n, a, at);
            }
            lemma_run_indexed(m, cs@, f, v);
        },
        QueueCommand::MutateItems(c) => {
            let f = mutate_each(at, pos);
            let v = mutation_keys_checked();
            assert forall|n: Model, a: ResolvedItemMutation|
                well_indexed(n) && v(n, a) && (#[trigger] f(n, a)).1 is Ok implies well_indexed(
                f(n, a).0,
            ) by {
                match a.action {
                    ResolvedItemMutationAction::Purge => {
                        lemma_purge_keeps_indexes(n, a.item_id);
                    },
                    ResolvedItemMutationAction::Replace(x) => {
                        lemma_replace_keeps_indexes(n, a.item_id, x, at, pos);
                    },
                }
            }
            lemma_run_indexed(m, c.items@, f, v);
            let n = run(m, c.items@, f).0;
            let g = gate_each();
            assert forall|k: Model, a: GateChange| (#[trigger] g(k, a)).1 is Ok implies same_worn(
                k,
                g(k, a).0,
            ) by {
                lemma_gates_same(k, texts(a.gate_keys@), a.blocked);
            }
            lemma_run_same(n, c.gate_changes@, g);
        },
        QueueCommand::Finalize(os) => {
            let f = finalize_each(at, pos);
            assert forall|n: Model, a: FinalizeOutcome|
                (#[trigger] f(n, a)).1 is Ok implies same_worn(n, f(n, a).0) by {
                lemma_finalize_same(n, a, at, pos);
            }
            lemma_run_same(m, os@, f);
        },
        QueueCommand::ReplacePending(c) => {
            lemma_supersede_keeps_indexes(m, c, at);
        },
        QueueCommand::LeaseExpired(ids) => {
            let f = lapse_each();
            assert forall|n: Model, a: ItemId| (#[trigger] f(n, a)).1 is Ok implies same_worn(
                n,
                f(n, a).0,
            ) by {
                lemma_lapse_same(n, a);
            }
            lemma_run_same(m, ids@, f);
        },
        QueueCommand::CohortExpired(group) => {
            let f = cohort_fail_each(at, pos);
            assert forall|n: Model, a: ItemId| (#[trigger] f(n, a)).1 is Ok implies same_worn(
                n,
                f(n, a).0,
            ) by {
                lemma_mark_same(n, a, at, pos, true);
            }
            lemma_run_same(m, listing_of::<u64>(live_group(m, group@)), f);
        },
        QueueCommand::FenceLease(ids) => {
            let f = fence_each(true);
            assert forall|n: Model, a: ItemId| (#[trigger] f(n, a)).1 is Ok implies same_worn(
                n,
                f(n, a).0,
            ) by {
                lemma_mark_same(n, a, None, None, true);
            }
            lemma_run_same(m, ids@, f);
        },
        QueueCommand::UnfenceLease(ids) => {
            let f = fence_each(false);
            assert forall|n: Model, a: ItemId| (#[trigger] f(n, a)).1 is Ok implies same_worn(
                n,
                f(n, a).0,
            ) by {
                lemma_mark_same(n, a, None, None, false);
            }
            lemma_run_same(m, ids@, f);
        },
        QueueCommand::SetGates(g) => {
            lemma_gates_same(m, texts(g.gate_keys@), g.blocked);
            lemma_same_worn(m, applied(m, at, pos, cmd).0);
        },
        QueueCommand::WriteSideRecords(rs) => {
            lemma_run_same(m, rs@, side_each());
        },
        QueueCommand::PurgeItems(c) => {
            let f = purge_each();
            let v = anything::<ItemId>();
            assert forall|n: Model, a: ItemId|
                well_indexed(n) && v(n, a) && (#[trigger] f(n, a)).1 is Ok implies well_indexed(
                f(n, a).0,
            ) by {
                lemma_purge_keeps_indexes(n, a);
            }
            lemma_anything_valid(m, c.item_ids@, f);
            lemma_run_indexed(m, c.item_ids@, f, v);
        },
        QueueCommand::PauseQueue(_) => {
            lemma_same_worn(m, applied(m, at, pos, cmd).0);
        },
        QueueCommand::ResumeQueue => {
            lemma_same_worn(m, applied(m, at, pos, cmd).0);
        },
        QueueCommand::AdvanceInstanceFence(_) => {
            lemma_same_worn(m, applied(m, at, pos, cmd).0);
        },
        _ => {},
    }
}

proof fn lemma_anything_valid(m: Model, ids: Seq<ItemId>, f: spec_fn(Model, ItemId) -> Step)
    ensures
        run_valid(m, ids, f, anything::<ItemId>()),
    decreases ids.len(),
{
    if ids.len() > 0 {
        lemma_anything_valid(f(m, ids[0]).0, ids.drop_first(), f);
    }
}

/// What speaking for keys does to one of them.
proof fn lemma_reserved_at(
    m: Model,
    held: Map<IndexKeyV, ItemId>,
    id: ItemId,
    keys: Seq<IndexKeyV>,
    key: IndexKeyV,
)
    requires
        reserved(m, held, id, keys) is Some,
    ensures
        ({
            let h = reserved(m, held, id, keys)->Some_0;
            let given = keys.contains(key) && is_unique(m, key.0);
            &&& h.contains_key(key) == (held.contains_key(key) || given)
            &&& (h.contains_key(key) ==> h[key] == (if given {
                id
            } else {
                held[key]
            }))
            &&& (given && held.contains_key(key) ==> held[key] == id)
        }),
    decreases keys.len(),
{
    if keys.len() > 0 {
        let before = keys.drop_last();
        let last = keys.last();
        lemma_reserved_at(m, held, id, before, key);
        assert(keys.contains(key) == (before.contains(key) || last == key)) by {
            if keys.contains(key) {
                let i = choose|i: int| 0 <= i < keys.len() && keys[i] == key;
                if i < keys.len() - 1 {
                    assert(before[i] == key);
                }
            }
            if before.contains(key) {
                let i = choose|i: int| 0 <= i < before.len() && before[i] == key;
                assert(keys[i] == key);
            }
            assert(keys[keys.len() - 1] == last);
        }
    }
}

proof fn lemma_push_prefix(m: Model, items: Seq<PushItem>, k: int)
    requires
        0 <= k <= items.len(),
        push_checked(m, items) is Ok,
    ensures
        push_checked(m, items.take(k)) is Ok,
    decreases items.len() - k,
{
    if k == items.len() {
        assert(items.take(k) =~= items);
    } else {
        lemma_push_prefix(m, items, k + 1);
        assert(items.take(k + 1).drop_last() =~= items.take(k));
    }
}

/// The items of a push are new, each under an identifier of its own.
pub open spec fn all_new(m: Model, items: Seq<PushItem>) -> bool {
    &&& forall|i: int|
        0 <= i < items.len() ==> !m.items.contains_key((#[trigger] items[i]).item_id)
    &&& forall|i: int, j: int|
        0 <= i < j < items.len() ==> (#[trigger] items[i]).item_id != (#[trigger] items[j]).item_id
}

/// What the queue holds after the first items of a checked push.
spec fn pushed_so_far(m: Model, n: Model, items: Seq<PushItem>, k: int) -> bool {
    let held = push_checked(m, items.take(k))->Ok_0;
    &&& n.index_kinds == m.index_kinds
    &&& n.index_specs == m.index_specs
    &&& forall|id: ItemId| #[trigger]
        n.items.contains_key(id) ==> m.items.contains_key(id) || exists|j: int|
            0 <= j < k && (#[trigger] items[j]).item_id == id
    &&& forall|key: IndexKeyV| #[trigger]
        n.unique.contains_key(key) ==> (m.unique.contains_key(key) && n.unique[key]
            == m.unique[key]) || (held.contains_key(key) && held[key] == n.unique[key])
}

proof fn lemma_push_step(
    m: Model,
    n: Model,
    items: Seq<PushItem>,
    k: int,
    at: Option<UtcTimestamp>,
)
    requires
        push_checked(m, items) is Ok,
        all_new(m, items),
        0 <= k < items.len(),
        pushed_so_far(m, n, items, k),
    ensures
        new_keys_valid(n, items[k]@),
        pushed_so_far(m, inserted(n, items[k]@, at).0, items, k + 1),
{
    let p = items[k]@;
    let id = p.item_id;
    let held = push_checked(m, items.take(k))->Ok_0;
    lemma_push_prefix(m, items, k);
    lemma_push_prefix(m, items, k + 1);
    assert(items.take(k + 1).drop_last() =~= items.take(k));
    assert(items.take(k + 1).last() == items[k]);
    assert(index_keys(n, p.fields, p.entity) == index_keys(m, p.fields, p.entity));
    let keys = index_keys(m, p.fields, p.entity)->Ok_0;
    let next = push_checked(m, items.take(k + 1))->Ok_0;
    assert(reserved(m, held, id, keys) == Some(next));
    if n.items.contains_key(id) {
        assert(!m.items.contains_key(items[k].item_id));
        let j = choose|j: int| 0 <= j < k && (#[trigger] items[j]).item_id == id;
        assert(items[j].item_id != items[k].item_id);
    }
    assert forall|i: int| 0 <= i < keys.len() implies !taken(n, id, #[trigger] keys[i], None) by {
        if taken(n, id, keys[i], None) {
            assert(n.unique.contains_key(keys[i]));
            assert(keys.contains(keys[i]));
            lemma_reserved_at(m, held, id, keys, keys[i]);
            if m.unique.contains_key(keys[i]) && n.unique[keys[i]] == m.unique[keys[i]] {
                assert(taken(m, id, keys[i], None));
            }
        }
    }
    let i = pushed_item(p, n.next_seq, at);
    let a = announced(Model { next_seq: (n.next_seq + 1) as u64, ..n }, i);
    assert(index_keys(a, i.fields, i.entity) == index_keys(m, p.fields, p.entity));
    lemma_indexed_frame(a, id, keys);
    let after = inserted(n, p, at).0;
    assert(after.items == n.items.insert(id, i));
    assert forall|x: ItemId| #[trigger] after.items.contains_key(x) implies m.items.contains_key(x)
        || exists|j: int| 0 <= j < k + 1 && (#[trigger] items[j]).item_id == x by {
        if x == id {
            assert(items[k].item_id == x);
        } else {
            assert(n.items.contains_key(x));
            if !m.items.contains_key(x) {
                let j = choose|j: int| 0 <= j < k && (#[trigger] items[j]).item_id == x;
                assert(items[j].item_id == x);
            }
        }
    }
    assert forall|key: IndexKeyV| #[trigger] after.unique.contains_key(key) implies (
    m.unique.contains_key(key) && after.unique[key] == m.unique[key]) || (next.contains_key(key)
        && next[key] == after.unique[key]) by {
        lemma_indexed_at(a, id, keys, key);
        lemma_reserved_at(m, held, id, keys, key);
        if !(keys.contains(key) && is_unique(m, key.0)) {
            assert(n.unique.contains_key(key));
        }
    }
}

proof fn lemma_push_run(
    m: Model,
    n: Model,
    items: Seq<PushItem>,
    k: int,
    at: Option<UtcTimestamp>,
)
    requires
        push_checked(m, items) is Ok,
        all_new(m, items),
        0 <= k <= items.len(),
        pushed_so_far(m, n, items, k),
    ensures
        run_valid(n, items.skip(k), insert_each(at), new_keys_checked()),
    decreases items.len() - k,
{
    if k < items.len() {
        lemma_push_step(m, n, items, k, at);
        assert(items.skip(k)[0] == items[k]);
        assert(items.skip(k).drop_first() =~= items.skip(k + 1));
        lemma_push_run(m, inserted(n, items[k]@, at).0, items, k + 1, at);
    }
}

/// The check of a batch before a push is enough: new items that passed it keep the indexes exact.
pub proof fn law_checked_push_keeps_indexes(
    m: Model,
    items: Vec<PushItem>,
    at: Option<UtcTimestamp>,
    pos: Option<PositionV>,
)
    requires
        well_indexed(m),
        push_checked(m, items@) is Ok,
        all_new(m, items@),
        applied(m, at, pos, QueueCommand::Push(items)).1 is Ok,
    ensures
        well_indexed(applied(m, at, pos, QueueCommand::Push(items)).0),
{
    assert(items@.take(0) =~= Seq::<PushItem>::empty());
    assert(items@.skip(0) =~= items@);
    lemma_push_run(m, m, items@, 0, at);
    law_checked_commands_keep_indexes(m, at, pos, QueueCommand::Push(items));
}

/// A new queue is well indexed.
pub proof fn law_new_queue_is_well_indexed(d: QueueDefinition)
    ensures
        well_indexed(defined(d)),
{
}

/// What is found under a key are the live items that wear it, and no others.
pub proof fn law_lookups_find_the_wearers(m: Model, name: Seq<char>, key: Seq<u8>, id: ItemId)
    requires
        indexes_exact(m),
        m.items.dom().finite(),
        m.index_kinds.contains_key(name),
    ensures
        holders(m, name, key).contains(id) <==> wears(m, id, (name, key)),
{
    let k: IndexKeyV = (name, key);
    let l = holders(m, name, key);
    if m.index_kinds[name] {
        if m.unique.contains_key(k) {
            assert(wears(m, m.unique[k], k));
            assert(l[0] == m.unique[k]);
        }
    } else {
        let s = Set::new(|x: ItemId| m.multi.contains((k, x)));
        assert forall|x: ItemId| s.contains(x) implies m.items.dom().contains(x) by {
            assert(m.multi.contains((k, x)));
            assert(wears(m, x, k));
        }
        vstd::set_lib::lemma_set_subset_finite(m.items.dom(), s);
        lemma_listing_exists::<u64>(s);
        assert(l.to_set() == s);
        assert(l.contains(id) == l.to_set().contains(id));
        if s.contains(id) {
            assert(m.multi.contains((k, id)));
        }
    }
}

proof fn lemma_framed_front(values: Seq<Vec<u8>>)
    requires
        values.len() > 0,
    ensures
        framed(values) == component(values[0]@) + framed(values.drop_first()),
    decreases values.len(),
{
    if values.len() == 1 {
        assert(values.drop_last() =~= Seq::<Vec<u8>>::empty());
        assert(values.drop_first() =~= Seq::<Vec<u8>>::empty());
        assert(framed(values) =~= component(values[0]@) + framed(values.drop_first()));
    } else {
        lemma_framed_front(values.drop_last());
        assert(values.drop_last().drop_first() =~= values.drop_first().drop_last());
        assert(values.drop_first().last() == values.last());
        assert(framed(values) =~= component(values[0]@) + framed(values.drop_first()));
    }
}

/// Values whose lengths fit their four bytes can be told apart by the raw key they make: equal keys
/// come from equal values.
pub proof fn law_raw_keys_tell_values_apart(a: Seq<Vec<u8>>, b: Seq<Vec<u8>>, k: int)
    requires
        a.len() == b.len(),
        forall|i: int| 0 <= i < a.len() ==> (#[trigger] a[i])@.len() < 0x1_0000_0000,
        forall|i: int| 0 <= i < b.len() ==> (#[trigger] b[i])@.len() < 0x1_0000_0000,
        framed(a) == framed(b),
        0 <= k < a.len(),
    ensures
        a[k]@ == b[k]@,
    decreases a.len(),
{
    lemma_framed_front(a);
    lemma_framed_front(b);
    let x = a[0]@;
    let y = b[0]@;
    let whole = framed(a);
    reveal_with_fuel(pow256, 5);
    lemma_be_bytes_len(x.len(), 4);
    lemma_be_bytes_len(y.len(), 4);
    lemma_be_round_trip(x.len(), 4);
    lemma_be_round_trip(y.len(), 4);
    assert(component(x) == be_bytes(x.len(), 4) + x);
    assert(component(y) == be_bytes(y.len(), 4) + y);
    assert(whole.take(4) =~= be_bytes(x.len(), 4));
    assert(whole.take(4) =~= be_bytes(y.len(), 4));
    assert(x.len() == y.len());
    assert(whole.subrange(4, 4 + x.len() as int) =~= x);
    assert(whole.subrange(4, 4 + y.len() as int) =~= y);
    if k > 0 {
        let ra = a.drop_first();
        let rb = b.drop_first();
        assert(whole.skip(4 + x.len() as int) =~= framed(ra));
        assert(whole.skip(4 + y.len() as int) =~= framed(rb));
        assert forall|i: int| 0 <= i < ra.len() implies (#[trigger] ra[i])@.len() < 0x1_0000_0000 by {
            assert(ra[i] == a[i + 1]);
        }
        assert forall|i: int| 0 <= i < rb.len() implies (#[trigger] rb[i])@.len() < 0x1_0000_0000 by {
            assert(rb[i] == b[i + 1]);
        }
        law_raw_keys_tell_values_apart(ra, rb, k - 1);
    }
}

/// The keys that an entry of a batch would give its item, where the checks of the entry alone let it
/// through.
pub open spec fn entry_keys(m: Model, c: UpdateFieldsCommand) -> Option<Seq<IndexKeyV>> {
    let i = m.items[c.item_id];
    if open_to_update(m, c.item_id) && index_checked(
        m,
        c.item_id,
        updated_fields(i, c),
        updated_entity(i, c),
        None,
    ) is Ok {
        Some(index_keys(m, updated_fields(i, c), updated_entity(i, c))->Ok_0)
    } else {
        None
    }
}

/// What is known after some entries, up to some of the keys of the last.
spec fn claims_noted(
    m: Model,
    cs: Seq<UpdateFieldsCommand>,
    accepted: Seq<bool>,
    held: Map<IndexKeyV, usize>,
) -> bool {
    &&& accepted.len() == cs.len()
    &&& forall|k: IndexKeyV| #[trigger] held.contains_key(k) ==> held[k] < cs.len()
    &&& forall|e: int, k: IndexKeyV|
        0 <= e < cs.len() && entry_keys(m, #[trigger] cs[e]) is Some && is_unique(m, k.0)
            && #[trigger] entry_keys(m, cs[e])->Some_0.contains(k) ==> held.contains_key(k) && (
        held[k] == e || !accepted[e])
}

/// One entry speaks for its keys.
proof fn lemma_spoken(
    m: Model,
    accepted: Seq<bool>,
    held: Map<IndexKeyV, usize>,
    index: usize,
    keys: Seq<IndexKeyV>,
)
    requires
        accepted.len() == index + 1,
        forall|k: IndexKeyV| #[trigger] held.contains_key(k) ==> held[k] < index,
    ensures
        ({
            let (a, h) = spoken(m, (accepted, held), index, keys);
            &&& a.len() == accepted.len()
            &&& forall|e: int| 0 <= e < a.len() && !accepted[e] ==> !#[trigger] a[e]
            &&& forall|k: IndexKeyV| #[trigger] h.contains_key(k) ==> h[k] <= index
            &&& forall|k: IndexKeyV| #[trigger] held.contains_key(k) ==> h.contains_key(k)
            &&& forall|k: IndexKeyV|
                keys.contains(k) && is_unique(m, k.0) ==> #[trigger] h.contains_key(k) && h[k]
                    == index
            &&& forall|k: IndexKeyV|
                !(keys.contains(k) && is_unique(m, k.0)) && #[trigger] h.contains_key(k)
                    ==> held.contains_key(k) && h[k] == held[k]
            &&& forall|k: IndexKeyV|
                keys.contains(k) && is_unique(m, k.0) && #[trigger] held.contains_key(k)
                    ==> !a[held[k] as int] && !a[index as int]
        }),
    decreases keys.len(),
{
    if keys.len() > 0 {
        let before = keys.drop_last();
        let last = keys.last();
        lemma_spoken(m, accepted, held, index, before);
        assert forall|k: IndexKeyV| keys.contains(k) == (before.contains(k) || last == k) by {
            if keys.contains(k) {
                let i = choose|i: int| 0 <= i < keys.len() && keys[i] == k;
                if i < keys.len() - 1 {
                    assert(before[i] == k);
                }
            }
            if before.contains(k) {
                let i = choose|i: int| 0 <= i < before.len() && before[i] == k;
                assert(keys[i] == k);
            }
            assert(keys[keys.len() - 1] == last);
        }
        let (a, h) = spoken(m, (accepted, held), index, before);
        let (a2, h2) = spoken(m, (accepted, held), index, keys);
        assert forall|k: IndexKeyV|
            keys.contains(k) && is_unique(m, k.0) && #[trigger] held.contains_key(
                k,
            ) implies !a2[held[k] as int] && !a2[index as int] by {
            if before.contains(k) {
                assert(!a[held[k] as int] && !a[index as int]);
            } else {
                assert(k == last);
                assert(h.contains_key(k));
            }
        }
        assert forall|k: IndexKeyV|
            keys.contains(k) && is_unique(m, k.0) implies #[trigger] h2.contains_key(k) && h2[k]
            == index by {
            if before.contains(k) {
                assert(h.contains_key(k));
            }
        }
        assert forall|k: IndexKeyV|
            !(keys.contains(k) && is_unique(m, k.0)) && #[trigger] h2.contains_key(k) implies
            held.contains_key(k) && h2[k] == held[k] by {
            assert(h.contains_key(k));
        }
    }
}

proof fn lemma_preflight_notes(m: Model, cs: Seq<UpdateFieldsCommand>)
    requires
        preflight(m, cs) is Ok,
        cs.len() <= usize::MAX,
    ensures
        claims_noted(m, cs, preflight(m, cs)->Ok_0.0, preflight(m, cs)->Ok_0.1),
    decreases cs.len(),
{
    if cs.len() > 0 {
        let before = cs.drop_last();
        let c = cs.last();
        lemma_preflight_notes(m, before);
        let (accepted, held) = preflight(m, before)->Ok_0;
        let (a, h) = preflight(m, cs)->Ok_0;
        let index = (cs.len() - 1) as usize;
        match entry_keys(m, c) {
            None => {
                assert(a == accepted.push(false) && h == held);
            },
            Some(keys) => {
                lemma_spoken(m, accepted.push(true), held, index, keys);
                let (a1, h1) = spoken(m, (accepted.push(true), held), index, keys);
                assert(a == a1 && h == h1);
                assert forall|k: IndexKeyV|
                    keys.contains(k) && is_unique(m, k.0) implies #[trigger] h.contains_key(k)
                    && h[k] == index by {
                    assert(h1.contains_key(k));
                }
            },
        }
        assert forall|e: int, k: IndexKeyV|
            0 <= e < cs.len() && entry_keys(m, #[trigger] cs[e]) is Some && is_unique(m, k.0)
                && #[trigger] entry_keys(m, cs[e])->Some_0.contains(k) implies h.contains_key(k) && (
        h[k] == e || !a[e]) by {
            if e < before.len() {
                assert(before[e] == cs[e]);
                assert(entry_keys(m, before[e])->Some_0.contains(k));
                assert(held.contains_key(k) && (held[k] == e || !accepted[e]));
                assert(accepted.push(true)[e] == accepted[e]);
                assert(accepted.push(false)[e] == accepted[e]);
                match entry_keys(m, c) {
                    None => {
                        assert(h == held && a[e] == accepted[e]);
                    },
                    Some(keys) => {
                        assert(h.contains_key(k));
                        if keys.contains(k) {
                            if held[k] == e {
                                assert(!a[held[k] as int]);
                            } else {
                                assert(!a[e]);
                            }
                        } else {
                            assert(h[k] == held[k]);
                            if !accepted[e] {
                                assert(!a[e]);
                            }
                        }
                    },
                }
            } else {
                assert(cs[e] == c);
                assert(entry_keys(m, c)->Some_0.contains(k));
                assert(h.contains_key(k) && h[k] == index);
            }
        }
    }
}

/// Entries of a batch stay refused as more are checked.
proof fn lemma_preflight_refused(m: Model, cs: Seq<UpdateFieldsCommand>, n: int, e: int)
    requires
        preflight(m, cs) is Ok,
        cs.len() <= usize::MAX,
        0 <= e < n <= cs.len(),
        preflight(m, cs.take(n)) is Ok,
        !preflight(m, cs.take(n))->Ok_0.0[e],
    ensures
        !preflight(m, cs)->Ok_0.0[e],
    decreases cs.len() - n,
{
    if n == cs.len() {
        assert(cs.take(n) =~= cs);
    } else {
        let t = cs.take(n + 1);
        assert(t.drop_last() =~= cs.take(n));
        lemma_preflight_prefix(m, cs, n + 1);
        lemma_preflight_notes(m, cs.take(n));
        let (accepted, held) = preflight(m, cs.take(n))->Ok_0;
        match entry_keys(m, t.last()) {
            None => {},
            Some(keys) => {
                lemma_spoken(m, accepted.push(true), held, n as usize, keys);
                assert(!accepted.push(true)[e]);
            },
        }
        lemma_preflight_refused(m, cs, n + 1, e);
    }
}

proof fn lemma_preflight_prefix(m: Model, cs: Seq<UpdateFieldsCommand>, n: int)
    requires
        preflight(m, cs) is Ok,
        0 <= n <= cs.len(),
    ensures
        preflight(m, cs.take(n)) is Ok,
    decreases cs.len() - n,
{
    if n == cs.len() {
        assert(cs.take(n) =~= cs);
    } else {
        lemma_preflight_prefix(m, cs, n + 1);
        assert(cs.take(n + 1).drop_last() =~= cs.take(n));
    }
}

/// An entry of a batch update is accepted only where the checks of the entry alone let it through.
pub proof fn law_accepted_entries_were_checked(m: Model, cs: Seq<UpdateFieldsCommand>, k: int)
    requires
        preflight(m, cs) is Ok,
        cs.len() <= usize::MAX,
        0 <= k < cs.len(),
        preflight(m, cs)->Ok_0.0[k],
    ensures
        entry_keys(m, cs[k]) is Some,
{
    if entry_keys(m, cs[k]) is None {
        let t = cs.take(k);
        let u = cs.take(k + 1);
        lemma_preflight_prefix(m, cs, k);
        lemma_preflight_prefix(m, cs, k + 1);
        lemma_preflight_notes(m, t);
        assert(u.drop_last() =~= t);
        assert(u.last() == cs[k]);
        let (accepted, held) = preflight(m, t)->Ok_0;
        assert(preflight(m, u)->Ok_0.0 == accepted.push(false));
        lemma_preflight_refused(m, cs, k + 1, k);
    }
}

/// Two entries of a batch update that want the same unique key are both refused.
pub proof fn law_clashing_entries_are_both_refused(
    m: Model,
    cs: Seq<UpdateFieldsCommand>,
    i: int,
    j: int,
    key: IndexKeyV,
)
    requires
        preflight(m, cs) is Ok,
        cs.len() <= usize::MAX,
        0 <= i < j < cs.len(),
        entry_keys(m, cs[i]) is Some,
        entry_keys(m, cs[j]) is Some,
        is_unique(m, key.0),
        entry_keys(m, cs[i])->Some_0.contains(key),
        entry_keys(m, cs[j])->Some_0.contains(key),
    ensures
        !preflight(m, cs)->Ok_0.0[i],
        !preflight(m, cs)->Ok_0.0[j],
{
    let t = cs.take(j);
    let u = cs.take(j + 1);
    lemma_preflight_prefix(m, cs, j);
    lemma_preflight_prefix(m, cs, j + 1);
    lemma_preflight_notes(m, t);
    assert(u.drop_last() =~= t);
    assert(u.last() == cs[j]);
    assert(t[i] == cs[i]);
    let (accepted, held) = preflight(m, t)->Ok_0;
    assert(entry_keys(m, t[i])->Some_0.contains(key));
    assert(held.contains_key(key));
    lemma_spoken(m, accepted.push(true), held, j as usize, entry_keys(m, cs[j])->Some_0);
    let (a, h) = preflight(m, u)->Ok_0;
    assert(!a[held[key] as int] && !a[j]);
    if held[key] != i {
        assert(!accepted[i]);
        assert(accepted.push(true)[i] == accepted[i]);
        assert(!a[i]);
    }
    lemma_preflight_refused(m, cs, j + 1, i);
    lemma_preflight_refused(m, cs, j + 1, j);
}

} // verus!
