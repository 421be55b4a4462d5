//! Secondary indexes: what a change would collide with, and what is found under a key.

use crate::apply::edit_fields;
use crate::item::client_key;
use crate::model::{Model, component, edited_fields, index_keys, indexed, updated_entity, updated_fields};
use crate::order::{OrdMap, OrderKey, Standing, ascending, lemma_ascending_at, lemma_listing_of, listing_of};
use crate::projection::{ProjectionData, copy_key, push_component};
use crate::shared::share;
use crate::text::same_text;
use crate::types::{EngineError, EngineResult, Entity, EntityV, ErrorV, FieldMap, IndexSpecV, ItemId, ItemState, PushItem, QueueIndexV, UpdateFieldsCommand, field_bytes, keys_view, opt_doc, outcome, share_opt_doc, specs_v, typed_specs_v};
use bytes::Bytes;
use std::sync::Arc;
use vstd::prelude::*;

verus! {

/// An index and a key under it.
pub type IndexKeyV = (Seq<char>, Seq<u8>);

/// The index of the key lets only one item hold it.
pub open spec fn is_unique(m: Model, name: Seq<char>) -> bool {
    m.index_kinds.contains_key(name) && m.index_kinds[name]
}

/// Another item, and not the one left out, holds the key of a unique index.
pub open spec fn taken(m: Model, id: ItemId, key: IndexKeyV, exclude: Option<ItemId>) -> bool {
    is_unique(m, key.0) && m.unique.contains_key(key) && m.unique[key] != id && Some(m.unique[key])
        != exclude
}

/// An item may stand under its keys: no unique one is taken.
pub open spec fn index_checked(
    m: Model,
    id: ItemId,
    fields: Map<Seq<char>, Seq<u8>>,
    entity: Option<EntityV>,
    exclude: Option<ItemId>,
) -> Result<(), ErrorV> {
    match index_keys(m, fields, entity) {
        Err(e) => Err(e),
        Ok(keys) => if exists|i: int|
            0 <= i < keys.len() && taken(m, id, #[trigger] keys[i], exclude) {
            Err(ErrorV::Conflict)
        } else {
            Ok(())
        },
    }
}

/// The unique keys that a batch has spoken for, after one more of its items: none where another item
/// of the batch has spoken for one of them.
pub open spec fn reserved(
    m: Model,
    held: Map<IndexKeyV, ItemId>,
    id: ItemId,
    keys: Seq<IndexKeyV>,
) -> Option<Map<IndexKeyV, ItemId>>
    decreases keys.len(),
{
    if keys.len() == 0 {
        Some(held)
    } else {
        match reserved(m, held, id, keys.drop_last()) {
            None => None,
            Some(h) => if !is_unique(m, keys.last().0) {
                Some(h)
            } else if h.contains_key(keys.last()) && h[keys.last()] != id {
                None
            } else {
                Some(h.insert(keys.last(), id))
            },
        }
    }
}

proof fn lemma_reserved_stops(
    m: Model,
    held: Map<IndexKeyV, ItemId>,
    id: ItemId,
    keys: Seq<IndexKeyV>,
    n: int,
)
    requires
        0 <= n <= keys.len(),
        reserved(m, held, id, keys.take(n)) is None,
    ensures
        reserved(m, held, id, keys) is None,
    decreases keys.len() - n,
{
    if n == keys.len() {
        assert(keys.take(n) =~= keys);
    } else {
        assert(keys.take(n + 1).drop_last() =~= keys.take(n));
        lemma_reserved_stops(m, held, id, keys, n + 1);
    }
}

/// The items of a batch may stand under their keys, beside what is there and beside each other.
pub open spec fn push_checked(m: Model, items: Seq<PushItem>) -> Result<
    Map<IndexKeyV, ItemId>,
    ErrorV,
>
    decreases items.len(),
{
    if items.len() == 0 {
        Ok(Map::empty())
    } else {
        match push_checked(m, items.drop_last()) {
            Err(e) => Err(e),
            Ok(held) => {
                let p = items.last()@;
                match index_checked(m, p.item_id, p.fields, p.entity, None) {
                    Err(e) => Err(e),
                    Ok(_) => match reserved(
                        m,
                        held,
                        p.item_id,
                        index_keys(m, p.fields, p.entity)->Ok_0,
                    ) {
                        Some(h) => Ok(h),
                        None => Err(ErrorV::Conflict),
                    },
                }
            },
        }
    }
}

proof fn lemma_push_stops(m: Model, items: Seq<PushItem>, n: int)
    requires
        0 <= n <= items.len(),
        push_checked(m, items.take(n)) is Err,
    ensures
        push_checked(m, items) == push_checked(m, items.take(n)),
    decreases items.len() - n,
{
    if n == items.len() {
        assert(items.take(n) =~= items);
    } else {
        assert(items.take(n + 1).drop_last() =~= items.take(n));
        lemma_push_stops(m, items, n + 1);
    }
}

/// An updated item may stand under its keys.
pub open spec fn update_index_checked(
    m: Model,
    id: ItemId,
    ops: Seq<(String, Option<Bytes>)>,
    entity: Option<EntityV>,
) -> Result<(), ErrorV> {
    if !m.items.contains_key(id) {
        Err(ErrorV::NotFound)
    } else {
        index_checked(
            m,
            id,
            edited_fields(m.items[id].fields, ops),
            match entity {
                Some(e) => Some(e),
                None => m.items[id].entity,
            },
            None,
        )
    }
}

/// The item may be changed by a batch update: it is pending, and neither fenced nor superseded.
pub open spec fn open_to_update(m: Model, id: ItemId) -> bool {
    m.items.contains_key(id) && m.items[id].state is Pending && !m.items[id].fenced
        && !m.items[id].superseded
}

/// One more entry speaks for its unique keys. Where an earlier one spoke for a key, neither is
/// accepted.
pub open spec fn spoken(
    m: Model,
    done: (Seq<bool>, Map<IndexKeyV, usize>),
    index: usize,
    keys: Seq<IndexKeyV>,
) -> (Seq<bool>, Map<IndexKeyV, usize>)
    decreases keys.len(),
{
    if keys.len() == 0 {
        done
    } else {
        let (accepted, held) = spoken(m, done, index, keys.drop_last());
        let key = keys.last();
        if !is_unique(m, key.0) {
            (accepted, held)
        } else if held.contains_key(key) {
            (
                accepted.update(held[key] as int, false).update(index as int, false),
                held.insert(key, index),
            )
        } else {
            (accepted, held.insert(key, index))
        }
    }
}

/// What the checks before a batch update say of each entry, with the unique keys spoken for.
pub open spec fn preflight(m: Model, cs: Seq<UpdateFieldsCommand>) -> Result<
    (Seq<bool>, Map<IndexKeyV, usize>),
    ErrorV,
>
    decreases cs.len(),
{
    if cs.len() == 0 {
        Ok((Seq::empty(), Map::empty()))
    } else {
        match preflight(m, cs.drop_last()) {
            Err(e) => Err(e),
            Ok((accepted, held)) => {
                let c = cs.last();
                let i = m.items[c.item_id];
                if !open_to_update(m, c.item_id) {
                    Ok((accepted.push(false), held))
                } else {
                    match index_checked(
                        m,
                        c.item_id,
                        updated_fields(i, c),
                        updated_entity(i, c),
                        None,
                    ) {
                        Err(ErrorV::Conflict) => Ok((accepted.push(false), held)),
                        Err(e) => Err(e),
                        Ok(_) => Ok(
                            spoken(
                                m,
                                (accepted.push(true), held),
                                (cs.len() - 1) as usize,
                                index_keys(m, updated_fields(i, c), updated_entity(i, c))->Ok_0,
                            ),
                        ),
                    }
                }
            },
        }
    }
}

proof fn lemma_preflight_stops(m: Model, cs: Seq<UpdateFieldsCommand>, n: int)
    requires
        0 <= n <= cs.len(),
        preflight(m, cs.take(n)) is Err,
    ensures
        preflight(m, cs) == preflight(m, cs.take(n)),
    decreases cs.len() - n,
{
    if n == cs.len() {
        assert(cs.take(n) =~= cs);
    } else {
        assert(cs.take(n + 1).drop_last() =~= cs.take(n));
        lemma_preflight_stops(m, cs, n + 1);
    }
}

/// What a lookup shows of an item.
#[derive(Debug)]
pub struct IndexHit {
    pub client_item_key: String,
    pub item_id: ItemId,
    pub item_version: u64,
}

pub ghost struct HitV {
    pub client_item_key: Seq<char>,
    pub item_id: ItemId,
    pub item_version: u64,
}

impl IndexHit {
    pub open spec fn view(&self) -> HitV {
        HitV {
            client_item_key: self.client_item_key@,
            item_id: self.item_id,
            item_version: self.item_version,
        }
    }
}

pub open spec fn hits_v(v: Seq<IndexHit>) -> Seq<HitV> {
    v.map_values(|x: IndexHit| x@)
}

pub open spec fn hit(m: Model, id: ItemId) -> Option<HitV> {
    if m.items.contains_key(id) {
        let i = m.items[id];
        Some(
            HitV {
                client_item_key: client_key(i),
                item_id: i.item_id,
                item_version: i.item_version,
            },
        )
    } else {
        None
    }
}

/// What the items under some identifiers show.
pub open spec fn hits(m: Model, ids: Seq<ItemId>) -> Seq<HitV>
    decreases ids.len(),
{
    if ids.len() == 0 {
        Seq::empty()
    } else {
        match hit(m, ids.last()) {
            Some(h) => hits(m, ids.drop_last()).push(h),
            None => hits(m, ids.drop_last()),
        }
    }
}

/// The place of the first raw index of that name, or the number of indexes.
pub open spec fn raw_at(specs: Seq<IndexSpecV>, name: Seq<char>, from: int) -> int
    decreases specs.len() - from,
{
    if from < 0 || from >= specs.len() {
        specs.len() as int
    } else if specs[from].name == name {
        from
    } else {
        raw_at(specs, name, from + 1)
    }
}

/// The place of the first typed index of that name, or the number of indexes.
pub open spec fn typed_at(specs: Seq<QueueIndexV>, name: Seq<char>, from: int) -> int
    decreases specs.len() - from,
{
    if from < 0 || from >= specs.len() {
        specs.len() as int
    } else if specs[from].name == name {
        from
    } else {
        typed_at(specs, name, from + 1)
    }
}

/// How an index is looked up: whether it is raw, and whether it is unique.
#[derive(Clone, Copy, PartialEq, Eq, Structural, Debug)]
pub struct IndexLookupSpec {
    pub raw: bool,
    pub unique: bool,
}

/// The index of that name, where the number of values fits it. A raw index comes before a typed one.
pub open spec fn lookup_of(m: Model, name: Seq<char>, arity: nat) -> Result<IndexLookupSpec, ErrorV> {
    let raw = raw_at(m.index_specs, name, 0);
    let typed = typed_at(m.typed_index_specs, name, 0);
    if raw < m.index_specs.len() {
        if m.index_specs[raw].fields.len() != arity {
            Err(ErrorV::Invalid("secondary index key arity mismatch"@))
        } else {
            Ok(IndexLookupSpec { raw: true, unique: m.index_specs[raw].unique })
        }
    } else if typed < m.typed_index_specs.len() {
        if m.typed_index_specs[typed].fields.len() != arity {
            Err(ErrorV::Invalid("secondary index key arity mismatch"@))
        } else {
            Ok(IndexLookupSpec { raw: false, unique: m.typed_index_specs[typed].unique })
        }
    } else {
        Err(ErrorV::Invalid("unknown secondary index"@))
    }
}

/// Values, each after its length.
pub open spec fn framed(values: Seq<Vec<u8>>) -> Seq<u8>
    decreases values.len(),
{
    if values.len() == 0 {
        Seq::empty()
    } else {
        framed(values.drop_last()) + component(values.last()@)
    }
}

/// The key that the values make: their own framing under a raw index, the one made of them under a
/// typed index.
pub open spec fn lookup_key(
    raw: bool,
    values: Seq<Vec<u8>>,
    typed_key: Result<Seq<u8>, ErrorV>,
) -> Result<Seq<u8>, ErrorV> {
    if raw {
        Ok(framed(values))
    } else {
        typed_key
    }
}

pub open spec fn key_outcome(r: EngineResult<Vec<u8>>) -> Result<Seq<u8>, ErrorV> {
    match r {
        Ok(k) => Ok(k@),
        Err(e) => Err(e@),
    }
}

/// The items under a key, by identifier.
pub open spec fn holders(m: Model, name: Seq<char>, key: Seq<u8>) -> Seq<ItemId> {
    if !m.index_kinds.contains_key(name) {
        Seq::empty()
    } else if m.index_kinds[name] {
        if m.unique.contains_key((name, key)) {
            seq![m.unique[(name, key)]]
        } else {
            Seq::empty()
        }
    } else {
        listing_of::<u64>(Set::new(|id: ItemId| m.multi.contains(((name, key), id))))
    }
}

pub open spec fn unique_found(
    m: Model,
    name: Seq<char>,
    values: Seq<Vec<u8>>,
    typed_key: Result<Seq<u8>, ErrorV>,
) -> Result<Option<HitV>, ErrorV> {
    match lookup_of(m, name, values.len()) {
        Err(e) => Err(e),
        Ok(s) => if !s.unique || !is_unique(m, name) {
            Err(ErrorV::Invalid("secondary index is not unique"@))
        } else {
            match lookup_key(s.raw, values, typed_key) {
                Err(e) => Err(e),
                Ok(key) => if m.unique.contains_key((name, key)) {
                    Ok(hit(m, m.unique[(name, key)]))
                } else {
                    Ok(None)
                },
            }
        },
    }
}

pub open spec fn all_found(
    m: Model,
    name: Seq<char>,
    values: Seq<Vec<u8>>,
    typed_key: Result<Seq<u8>, ErrorV>,
) -> Result<Seq<HitV>, ErrorV> {
    match lookup_of(m, name, values.len()) {
        Err(e) => Err(e),
        Ok(s) => match lookup_key(s.raw, values, typed_key) {
            Err(e) => Err(e),
            Ok(key) => Ok(hits(m, holders(m, name, key))),
        },
    }
}

/// The raw key of values: each after its length.
pub fn legacy_raw_key(values: &Vec<Vec<u8>>) -> (r: Vec<u8>)
    ensures
        r@ == framed(values@),
{
    let mut out: Vec<u8> = Vec::new();
    let mut i: usize = 0;
    assert(values@.take(0) =~= Seq::<Vec<u8>>::empty());
    assert(out@ =~= Seq::<u8>::empty());
    while i < values.len()
        invariant
            i <= values@.len(),
            out@ == framed(values@.take(i as int)),
        decreases values@.len() - i,
    {
        proof {
            assert(values@.take(i as int + 1).drop_last() =~= values@.take(i as int));
            assert(values@.take(i as int + 1).last() == values@[i as int]);
        }
        push_component(&mut out, values[i].as_slice());
        i = i + 1;
    }
    assert(values@.take(i as int) =~= values@);
    out
}

impl ProjectionData {
    fn index_is_unique(&self, name: &String) -> (r: bool)
        ensures
            r == is_unique(self@, name@),
    {
        match self.index_kinds.get(name) {
            Some(u) => *u,
            None => false,
        }
    }

    /// Whether an item may stand under the keys of some fields.
    pub fn index_validate(&self, item_id: ItemId, fields: &FieldMap, exclude: Option<ItemId>) -> (r:
        EngineResult<()>)
        ensures
            outcome(r) == index_checked(self@, item_id, field_bytes(*fields), None, exclude),
    {
        self.index_validate_with_entity(item_id, fields, &None, exclude)
    }

    /// Whether an item may stand under the keys of some fields and a document.
    pub fn index_validate_with_entity(
        &self,
        item_id: ItemId,
        fields: &FieldMap,
        entity: &Option<Arc<Entity>>,
        exclude: Option<ItemId>,
    ) -> (r: EngineResult<()>)
        ensures
            outcome(r) == index_checked(
                self@,
                item_id,
                field_bytes(*fields),
                opt_doc(*entity),
                exclude,
            ),
    {
        let keys = match self.record_index_keys(fields, entity) {
            Ok(k) => k,
            Err(e) => return Err(e),
        };
        let ghost all = keys_view(keys@);
        let mut i: usize = 0;
        while i < keys.len()
            invariant
                i <= keys@.len(),
                all == keys_view(keys@),
                index_keys(self@, field_bytes(*fields), opt_doc(*entity)) == Ok::<
                    Seq<IndexKeyV>,
                    ErrorV,
                >(all),
                forall|j: int| 0 <= j < i ==> !taken(self@, item_id, #[trigger] all[j], exclude),
            decreases keys@.len() - i,
        {
            assert(all[i as int] == (keys@[i as int].0@, keys@[i as int].1@));
            if self.index_is_unique(&keys[i].0) {
                match self.unique.get(&keys[i]) {
                    Some(holder) => {
                        let left_out = match exclude {
                            Some(x) => *holder == x,
                            None => false,
                        };
                        if *holder != item_id && !left_out {
                            proof {
                                let named = index_keys(
                                    self@,
                                    field_bytes(*fields),
                                    opt_doc(*entity),
                                )->Ok_0;
                                assert(taken(self@, item_id, named[i as int], exclude));
                            }
                            return Err(EngineError::Conflict);
                        }
                    },
                    None => {},
                }
            }
            i = i + 1;
        }
        Ok(())
    }

    /// Speaks for the unique keys among some, unless another item of the batch has spoken for one.
    pub(crate) fn reserve(
        &self,
        held: &mut OrdMap<(String, Vec<u8>), ItemId>,
        id: ItemId,
        keys: &Vec<(String, Vec<u8>)>,
    ) -> (r: bool)
        ensures
            r == (reserved(self@, old(held)@, id, keys_view(keys@)) is Some),
            r ==> reserved(self@, old(held)@, id, keys_view(keys@)) == Some(final(held)@),
    {
        let ghost all = keys_view(keys@);
        let ghost start = held@;
        let mut i: usize = 0;
        assert(all.take(0) =~= Seq::<IndexKeyV>::empty());
        while i < keys.len()
            invariant
                i <= keys@.len(),
                all == keys_view(keys@),
                start == old(held)@,
                reserved(self@, start, id, all.take(i as int)) == Some(held@),
            decreases keys@.len() - i,
        {
            proof {
                assert(all.take(i as int + 1).drop_last() =~= all.take(i as int));
                assert(all.take(i as int + 1).last() == (keys@[i as int].0@, keys@[i as int].1@));
            }
            if self.index_is_unique(&keys[i].0) {
                let other = match held.get(&keys[i]) {
                    Some(h) => *h != id,
                    None => false,
                };
                if other {
                    proof {
                        lemma_reserved_stops(self@, start, id, all, i as int + 1);
                    }
                    return false;
                }
                held.insert(copy_key(&keys[i]), id);
            }
            i = i + 1;
        }
        assert(all.take(i as int) =~= all);
        true
    }

    /// Whether the items of a batch may be pushed: no unique key is held by another item, there or
    /// earlier in the batch.
    pub fn index_validate_push(&self, items: &Vec<PushItem>) -> (r: EngineResult<()>)
        ensures
            match r {
                Ok(_) => push_checked(self@, items@) is Ok,
                Err(e) => push_checked(self@, items@) == Err::<Map<IndexKeyV, ItemId>, ErrorV>(e@),
            },
    {
        let mut held: OrdMap<(String, Vec<u8>), ItemId> = OrdMap::new();
        let mut i: usize = 0;
        assert(items@.take(0) =~= Seq::<PushItem>::empty());
        while i < items.len()
            invariant
                i <= items@.len(),
                push_checked(self@, items@.take(i as int)) == Ok::<
                    Map<IndexKeyV, ItemId>,
                    ErrorV,
                >(held@),
            decreases items@.len() - i,
        {
            let item = &items[i];
            proof {
                assert(items@.take(i as int + 1).drop_last() =~= items@.take(i as int));
                assert(items@.take(i as int + 1).last() == items@[i as int]);
            }
            match self.index_validate_with_entity(
                item.item_id,
                &item.fields,
                &item.entity_document,
                None,
            ) {
                Ok(_) => {},
                Err(e) => {
                    proof {
                        lemma_push_stops(self@, items@, i as int + 1);
                    }
                    return Err(e);
                },
            }
            let keys = match self.record_index_keys(&item.fields, &item.entity_document) {
                Ok(k) => k,
                Err(e) => return Err(e),
            };
            if !self.reserve(&mut held, item.item_id, &keys) {
                proof {
                    lemma_push_stops(self@, items@, i as int + 1);
                }
                return Err(EngineError::Conflict);
            }
            i = i + 1;
        }
        assert(items@.take(i as int) =~= items@);
        Ok(())
    }

    /// Whether an item's fields may be changed in place.
    pub fn index_validate_update(&self, item_id: ItemId, field_ops: &Vec<(String, Option<Bytes>)>) -> (r:
        EngineResult<()>)
        ensures
            outcome(r) == update_index_checked(self@, item_id, field_ops@, None),
    {
        self.index_validate_update_with_entity(item_id, field_ops, &None)
    }

    /// Whether an item's fields and document may be changed in place.
    pub fn index_validate_update_with_entity(
        &self,
        item_id: ItemId,
        field_ops: &Vec<(String, Option<Bytes>)>,
        entity: &Option<Arc<Entity>>,
    ) -> (r: EngineResult<()>)
        ensures
            outcome(r) == update_index_checked(self@, item_id, field_ops@, opt_doc(*entity)),
    {
        let rec = match self.record(item_id) {
            None => return Err(EngineError::NotFound),
            Some(rec) => rec,
        };
        let merged = edit_fields(&rec.fields, field_ops);
        match entity {
            Some(_) => self.index_validate_with_entity(item_id, &merged, entity, None),
            None => self.index_validate_with_entity(item_id, &merged, &rec.entity_document, None),
        }
    }

    /// Whether an item may take the place of another.
    pub fn index_validate_replace(&self, superseded_item_id: ItemId, replacement: &PushItem) -> (r:
        EngineResult<()>)
        ensures
            outcome(r) == index_checked(
                self@,
                replacement.item_id,
                replacement@.fields,
                replacement@.entity,
                Some(superseded_item_id),
            ),
    {
        self.index_validate_with_entity(
            replacement.item_id,
            &replacement.fields,
            &replacement.entity_document,
            Some(superseded_item_id),
        )
    }

    fn speak(
        &self,
        accepted: &mut Vec<bool>,
        held: &mut OrdMap<(String, Vec<u8>), usize>,
        index: usize,
        keys: &Vec<(String, Vec<u8>)>,
    )
        requires
            index < old(accepted)@.len(),
            forall|k: IndexKeyV| #[trigger]
                old(held)@.contains_key(k) ==> old(held)@[k] < old(accepted)@.len(),
        ensures
            (final(accepted)@, final(held)@) == spoken(
                self@,
                (old(accepted)@, old(held)@),
                index,
                keys_view(keys@),
            ),
            final(accepted)@.len() == old(accepted)@.len(),
            forall|k: IndexKeyV| #[trigger]
                final(held)@.contains_key(k) ==> final(held)@[k] < final(accepted)@.len(),
    {
        let ghost all = keys_view(keys@);
        let ghost start = (accepted@, held@);
        let mut i: usize = 0;
        assert(all.take(0) =~= Seq::<IndexKeyV>::empty());
        while i < keys.len()
            invariant
                i <= keys@.len(),
                all == keys_view(keys@),
                start == (old(accepted)@, old(held)@),
                accepted@.len() == old(accepted)@.len(),
                index < accepted@.len(),
                forall|k: IndexKeyV| #[trigger]
                    held@.contains_key(k) ==> held@[k] < accepted@.len(),
                (accepted@, held@) == spoken(self@, start, index, all.take(i as int)),
            decreases keys@.len() - i,
        {
            proof {
                assert(all.take(i as int + 1).drop_last() =~= all.take(i as int));
                assert(all.take(i as int + 1).last() == (keys@[i as int].0@, keys@[i as int].1@));
            }
            if self.index_is_unique(&keys[i].0) {
                match held.get(&keys[i]) {
                    Some(p) => {
                        let previous = *p;
                        accepted.set(previous, false);
                        accepted.set(index, false);
                    },
                    None => {},
                }
                held.insert(copy_key(&keys[i]), index);
            }
            i = i + 1;
        }
        assert(all.take(i as int) =~= all);
    }

    /// Checks a batch of updates: which of them may go on. Two that speak for the same new unique key
    /// are both turned away.
    pub fn batch_update_preflight(&self, commands: &Vec<UpdateFieldsCommand>) -> (r: EngineResult<
        Vec<bool>,
    >)
        ensures
            match r {
                Ok(accepted) => preflight(self@, commands@) is Ok && accepted@ == preflight(
                    self@,
                    commands@,
                )->Ok_0.0,
                Err(e) => preflight(self@, commands@) == Err::<
                    (Seq<bool>, Map<IndexKeyV, usize>),
                    ErrorV,
                >(e@),
            },
    {
        let mut accepted: Vec<bool> = Vec::new();
        let mut held: OrdMap<(String, Vec<u8>), usize> = OrdMap::new();
        let mut i: usize = 0;
        assert(commands@.take(0) =~= Seq::<UpdateFieldsCommand>::empty());
        assert(accepted@ =~= Seq::<bool>::empty());
        while i < commands.len()
            invariant
                i <= commands@.len(),
                accepted@.len() == i,
                forall|k: IndexKeyV| #[trigger]
                    held@.contains_key(k) ==> held@[k] < accepted@.len(),
                preflight(self@, commands@.take(i as int)) == Ok::<
                    (Seq<bool>, Map<IndexKeyV, usize>),
                    ErrorV,
                >((accepted@, held@)),
            decreases commands@.len() - i,
        {
            let c = &commands[i];
            proof {
                assert(commands@.take(i as int + 1).drop_last() =~= commands@.take(i as int));
                assert(commands@.take(i as int + 1).last() == commands@[i as int]);
            }
            match self.update_step(c) {
                Err(e) => {
                    proof {
                        lemma_preflight_stops(self@, commands@, i as int + 1);
                    }
                    return Err(e);
                },
                Ok(None) => {
                    accepted.push(false);
                },
                Ok(Some(keys)) => {
                    accepted.push(true);
                    self.speak(&mut accepted, &mut held, i, &keys);
                },
            }
            i = i + 1;
        }
        assert(commands@.take(i as int) =~= commands@);
        Ok(accepted)
    }

    /// The keys of an item after an update, where it may go on by itself.
    fn update_step(&self, c: &UpdateFieldsCommand) -> (r: EngineResult<
        Option<Vec<(String, Vec<u8>)>>,
    >)
        ensures
            ({
                let i = self@.items[c.item_id];
                let check = index_checked(
                    self@,
                    c.item_id,
                    updated_fields(i, *c),
                    updated_entity(i, *c),
                    None,
                );
                match r {
                    Err(e) => open_to_update(self@, c.item_id) && check == Err::<(), ErrorV>(e@)
                        && e@ != ErrorV::Conflict,
                    Ok(None) => !open_to_update(self@, c.item_id) || check == Err::<(), ErrorV>(
                        ErrorV::Conflict,
                    ),
                    Ok(Some(k)) => open_to_update(self@, c.item_id) && check is Ok && index_keys(
                        self@,
                        updated_fields(i, *c),
                        updated_entity(i, *c),
                    ) == Ok::<Seq<IndexKeyV>, ErrorV>(keys_view(k@)),
                }
            }),
    {
        let rec = match self.record(c.item_id) {
            None => return Ok(None),
            Some(rec) => rec,
        };
        let pending = match rec.state {
            ItemState::Pending => true,
            _ => false,
        };
        if !pending || rec.fenced || rec.superseded {
            return Ok(None);
        }
        let fields = match &c.set_fields {
            Some(f) => edit_fields(f, &c.field_ops),
            None => edit_fields(&rec.fields, &c.field_ops),
        };
        let entity = match &c.set_entity_document {
            Some(d) => Some(share(d)),
            None => share_opt_doc(&rec.entity_document),
        };
        match self.index_validate_with_entity(c.item_id, &fields, &entity, None) {
            Ok(_) => {},
            Err(EngineError::Conflict) => return Ok(None),
            Err(e) => return Err(e),
        }
        match self.record_index_keys(&fields, &entity) {
            Ok(k) => Ok(Some(k)),
            Err(e) => Err(e),
        }
    }

    fn index_hit(&self, id: ItemId) -> (r: Option<IndexHit>)
        ensures
            (match r {
                Some(h) => Some(h@),
                None => None,
            }) == hit(self@, id),
    {
        match self.record(id) {
            Some(rec) => Some(
                IndexHit {
                    client_item_key: rec.client_item_key(),
                    item_id: rec.item_id,
                    item_version: rec.item_version,
                },
            ),
            None => None,
        }
    }

    pub(crate) fn index_spec(&self, index_name: &str, key_arity: usize) -> (r: EngineResult<IndexLookupSpec>)
        ensures
            outcome(r) == lookup_of(self@, index_name@, key_arity as nat),
    {
        let ghost raw = self@.index_specs;
        let ghost typed = self@.typed_index_specs;
        let mut i: usize = 0;
        while i < self.index_specs.len()
            invariant
                i <= self.index_specs@.len(),
                raw == specs_v(self.index_specs@),
                raw == self@.index_specs,
                raw_at(raw, index_name@, 0) == raw_at(raw, index_name@, i as int),
            decreases self.index_specs@.len() - i,
        {
            assert(raw[i as int] == self.index_specs@[i as int]@);
            if same_text(self.index_specs[i].name.as_str(), index_name) {
                if self.index_specs[i].fields.len() != key_arity {
                    return Err(EngineError::Invalid("secondary index key arity mismatch"));
                }
                return Ok(IndexLookupSpec { raw: true, unique: self.index_specs[i].unique });
            }
            i = i + 1;
        }
        let mut k: usize = 0;
        while k < self.typed_index_specs.len()
            invariant
                k <= self.typed_index_specs@.len(),
                typed == typed_specs_v(self.typed_index_specs@),
                typed == self@.typed_index_specs,
                typed_at(typed, index_name@, 0) == typed_at(typed, index_name@, k as int),
                raw_at(self@.index_specs, index_name@, 0) >= self@.index_specs.len(),
            decreases self.typed_index_specs@.len() - k,
        {
            assert(typed[k as int] == self.typed_index_specs@[k as int]@);
            if same_text(self.typed_index_specs[k].name.as_str(), index_name) {
                if self.typed_index_specs[k].fields.len() != key_arity {
                    return Err(EngineError::Invalid("secondary index key arity mismatch"));
                }
                return Ok(
                    IndexLookupSpec { raw: false, unique: self.typed_index_specs[k].unique },
                );
            }
            k = k + 1;
        }
        Err(EngineError::Invalid("unknown secondary index"))
    }

    /// The item under a key of a unique index. `typed_key` is the key that a typed index makes of the
    /// values.
    pub fn index_get_unique(
        &self,
        index_name: &str,
        key_values: &Vec<Vec<u8>>,
        typed_key: EngineResult<Vec<u8>>,
    ) -> (r: EngineResult<Option<IndexHit>>)
        ensures
            (match r {
                Ok(Some(h)) => Ok(Some(h@)),
                Ok(None) => Ok(None),
                Err(e) => Err(e@),
            }) == unique_found(self@, index_name@, key_values@, key_outcome(typed_key)),
    {
        let info = match self.index_spec(index_name, key_values.len()) {
            Ok(s) => s,
            Err(e) => return Err(e),
        };
        if !info.unique {
            return Err(EngineError::Invalid("secondary index is not unique"));
        }
        let name = index_name.to_owned();
        if !self.index_is_unique(&name) {
            return Err(EngineError::Invalid("secondary index is not unique"));
        }
        let key = if info.raw {
            legacy_raw_key(key_values)
        } else {
            match typed_key {
                Ok(k) => k,
                Err(e) => return Err(e),
            }
        };
        match self.unique.get(&(name, key)) {
            Some(id) => Ok(self.index_hit(*id)),
            None => Ok(None),
        }
    }

    /// The items under a key, by identifier. `typed_key` is the key that a typed index makes of the
    /// values.
    pub fn index_lookup(
        &self,
        index_name: &str,
        key_values: &Vec<Vec<u8>>,
        typed_key: EngineResult<Vec<u8>>,
    ) -> (r: EngineResult<Vec<IndexHit>>)
        ensures
            (match r {
                Ok(h) => Ok(hits_v(h@)),
                Err(e) => Err(e@),
            }) == all_found(self@, index_name@, key_values@, key_outcome(typed_key)),
    {
        let info = match self.index_spec(index_name, key_values.len()) {
            Ok(s) => s,
            Err(e) => return Err(e),
        };
        let key = if info.raw {
            legacy_raw_key(key_values)
        } else {
            match typed_key {
                Ok(k) => k,
                Err(e) => return Err(e),
            }
        };
        let ids = self.holders_of((index_name.to_owned(), key));
        let mut out: Vec<IndexHit> = Vec::new();
        let mut i: usize = 0;
        assert(ids@.take(0) =~= Seq::<ItemId>::empty());
        assert(hits_v(out@) =~= Seq::<HitV>::empty());
        while i < ids.len()
            invariant
                i <= ids@.len(),
                hits_v(out@) == hits(self@, ids@.take(i as int)),
            decreases ids@.len() - i,
        {
            proof {
                assert(ids@.take(i as int + 1).drop_last() =~= ids@.take(i as int));
                assert(ids@.take(i as int + 1).last() == ids@[i as int]);
            }
            match self.index_hit(ids[i]) {
                Some(h) => {
                    let ghost before = out@;
                    out.push(h);
                    assert(hits_v(out@) =~= hits_v(before).push(h@));
                },
                None => {},
            }
            i = i + 1;
        }
        assert(ids@.take(i as int) =~= ids@);
        Ok(out)
    }

    fn holders_of(&self, key: (String, Vec<u8>)) -> (r: Vec<ItemId>)
        ensures
            r@ == holders(self@, key.0@, key.1@),
    {
        let unique = match self.index_kinds.get(&key.0) {
            None => return Vec::new(),
            Some(u) => *u,
        };
        if unique {
            let mut out: Vec<ItemId> = Vec::new();
            match self.unique.get(&key) {
                Some(id) => {
                    out.push(*id);
                },
                None => {},
            }
            return out;
        }
        let ghost kv = (key.0@, key.1@);
        let ghost want = Set::new(|id: ItemId| self@.multi.contains((kv, id)));
        let n = self.multi.len();
        let ghost all = self.multi.listing();
        let low: ((String, Vec<u8>), u64) = (key, 0);
        let mut at = self.multi.count_below(&low);
        let mut out: Vec<ItemId> = Vec::new();
        proof {
            assert forall|j: int| 0 <= j < all.len() && (#[trigger] all[j]).0 == kv implies j
                >= at by {
                let p = all[j];
                if j < at {
                    <(String, Vec<u8>)>::lt_irreflexive(kv);
                }
            }
        }
        let ghost from = at as int;
        while at < n
            invariant_except_break
                from <= at <= n,
                out@.len() == at - from,
            invariant
                n == all.len(),
                all == self.multi.listing(),
                all.to_set() == self@.multi,
                ascending::<((String, Vec<u8>), u64)>(all),
                low.0.0@ == kv.0,
                low.0.1@ == kv.1,
                kv == (kv.0, kv.1),
                0 <= from <= n,
                from + out@.len() <= n,
                forall|j: int|
                    from <= j < all.len() ==> !<((String, Vec<u8>), u64)>::kless(
                        #[trigger] all[j],
                        (kv, 0),
                    ),
                forall|j: int| 0 <= j < all.len() && (#[trigger] all[j]).0 == kv ==> j >= from,
                forall|j: int|
                    from <= j < from + out@.len() ==> (#[trigger] all[j]).0 == kv && all[j].1
                        == out@[j - from],
                forall|j: int|
                    0 <= j < out@.len() ==> all[from + j] == (kv, #[trigger] out@[j]),
            ensures
                forall|j: int|
                    from + out@.len() <= j < all.len() ==> (#[trigger] all[j]).0 != kv,
            decreases n - at,
        {
            let entry = self.multi.at(at);
            let same = match entry.0.standing(&low.0) {
                Standing::Same => true,
                _ => false,
            };
            if !same {
                proof {
                    assert(all[at as int].0 != kv);
                    assert(!<((String, Vec<u8>), u64)>::kless(all[at as int], (kv, 0)));
                    assert forall|j: int| at <= j < all.len() implies (#[trigger] all[j]).0
                        != kv by {
                        if j > at && all[j].0 == kv {
                            lemma_ascending_at::<((String, Vec<u8>), u64)>(all, at as int, j);
                            let a = all[at as int].0;
                            assert(<(String, Vec<u8>)>::kless(a, kv));
                            assert(false);
                        }
                    }
                }
                break;
            }
            let ghost before = out@;
            out.push(entry.1);
            at = at + 1;
        }
        proof {
            assert forall|id: ItemId| want.contains(id) <==> out@.contains(id) by {
                if want.contains(id) {
                    assert(all.to_set().contains((kv, id)));
                    let j = choose|j: int| 0 <= j < all.len() && all[j] == (kv, id);
                    assert(all[j].0 == kv);
                    assert(out@[j - from] == id);
                }
                if out@.contains(id) {
                    let j = choose|j: int| 0 <= j < out@.len() && out@[j] == id;
                    assert(all[from + j] == (kv, out@[j]));
                    assert(all.to_set().contains(all[from + j]));
                }
            }
            assert(out@.to_set() =~= want);
            assert forall|a: int, b: int| 0 <= a < b < out@.len() implies u64::kless(
                #[trigger] out@[a],
                #[trigger] out@[b],
            ) by {
                lemma_ascending_at::<((String, Vec<u8>), u64)>(all, from + a, from + b);
                <(String, Vec<u8>)>::lt_irreflexive(kv);
            }
            lemma_listing_of::<u64>(out@);
        }
        out
    }
}

/// What an index check lets through takes no unique key from another item.
pub proof fn law_checked_item_takes_no_key(
    m: Model,
    id: ItemId,
    fields: Map<Seq<char>, Seq<u8>>,
    entity: Option<EntityV>,
    key: IndexKeyV,
)
    requires
        index_checked(m, id, fields, entity, None) is Ok,
        m.unique.contains_key(key),
        m.unique[key] != id,
    ensures
        ({
            let n = indexed(m, id, index_keys(m, fields, entity)->Ok_0);
            n.unique.contains_key(key) && n.unique[key] == m.unique[key]
        }),
{
    let keys = index_keys(m, fields, entity)->Ok_0;
    assert forall|i: int| 0 <= i < keys.len() implies !(is_unique(m, keys[i].0) && #[trigger] keys[i]
        == key) by {
        if is_unique(m, keys[i].0) && keys[i] == key {
            assert(taken(m, id, keys[i], None));
        }
    }
    lemma_other_key_kept(m, id, keys, key);
}

proof fn lemma_other_key_kept(m: Model, id: ItemId, keys: Seq<IndexKeyV>, key: IndexKeyV)
    requires
        forall|i: int| 0 <= i < keys.len() ==> !(is_unique(m, keys[i].0) && #[trigger] keys[i] == key),
        m.unique.contains_key(key),
    ensures
        indexed(m, id, keys).unique.contains_key(key),
        indexed(m, id, keys).unique[key] == m.unique[key],
        indexed(m, id, keys).index_kinds == m.index_kinds,
    decreases keys.len(),
{
    if keys.len() > 0 {
        assert forall|i: int| 0 <= i < keys.drop_last().len() implies !(is_unique(
            m,
            keys.drop_last()[i].0,
        ) && #[trigger] keys.drop_last()[i] == key) by {
            assert(keys[i] == keys.drop_last()[i]);
        }
        lemma_other_key_kept(m, id, keys.drop_last(), key);
        assert(keys.last() == keys[keys.len() - 1]);
    }
}

} // verus!
