//! The materialized state of a queue and how committed commands change it.

use crate::eligibility::{EligibilityIndex, elig_key};
use crate::encoding::push_be_u32;
use crate::item::{Item, ItemRecord};
use crate::model::{Model, component, counted, counts_room, enter, gated, gates_joined, index_keys, indexed, lacking, leave, less_one, put, raw_key, raw_keys, ready, recounted, regated, uncounted, unindexed, unleased};
use crate::order::{OrdMap, OrdSet, Standing, bytes_standing};
use crate::shared::{KeyTable, bytes_of, bytes_share, bytes_slice, fx_get, fx_insert, fx_remove};
use crate::text::{clone_bytes, contains_text, opt_text, same_text, texts};
use crate::types::{EligibilityPolicy, EngineError, EngineResult, Entity, ErrorV, FieldMap, IndexSpec, IndexSpecV, ItemId, ItemState, OrderingMode, PriorityModel, QueueIndex, QueueMetrics, RecurrencePolicy, UtcTimestamp, field_bytes, keys_view, opt_doc, specs_v, typed_specs_v};
use bytes::Bytes;
use rustc_hash::FxHashMap;
use std::sync::Arc;
use vstd::prelude::*;

verus! {

/// A queue's items, with the indexes that keep reads in proportion to what they return.
pub struct ProjectionData {
    pub items: FxHashMap<ItemId, ItemRecord>,
    pub leased_ids: OrdSet<u64>,
    pub leased_by_consumer: OrdSet<(String, u64)>,
    /// Ordinary leases by expiry, then by item.
    pub ordinary_leases_by_expiry: OrdSet<(UtcTimestamp, u64)>,
    pub by_key: KeyTable,
    pub eligible: EligibilityIndex,
    pub metrics: QueueMetrics,
    pub next_seq: u64,
    pub priority_model: PriorityModel,
    pub ordering_mode: OrderingMode,
    /// How many positions a relaxed selection may move an item.
    pub max_rank_error: u32,
    pub recurrence: RecurrencePolicy,
    pub paused: bool,
    pub pause_drain_intake: bool,
    pub blocked_gates: OrdSet<String>,
    pub policy: EligibilityPolicy,
    pub gate_members: OrdSet<(String, u64)>,
    pub index_kinds: OrdMap<String, bool>,
    pub unique: OrdMap<(String, Vec<u8>), u64>,
    pub multi: OrdSet<((String, Vec<u8>), u64)>,
    pub index_specs: Vec<IndexSpec>,
    pub typed_index_specs: Vec<QueueIndex>,
    pub side_records: OrdMap<Vec<u8>, Bytes>,
    pub instance_fences: OrdMap<Vec<u8>, u64>,
}

/// Records by what they hold.
pub open spec fn items_v(m: Map<ItemId, ItemRecord>) -> Map<ItemId, Item> {
    Map::new(|k: ItemId| m.contains_key(k), |k: ItemId| m[k]@)
}

/// Side records by their bytes.
pub open spec fn side_v(m: Map<Seq<u8>, Bytes>) -> Map<Seq<u8>, Seq<u8>> {
    Map::new(|k: Seq<u8>| m.contains_key(k), |k: Seq<u8>| bytes_of(m[k]))
}

impl ProjectionData {
    pub open spec fn view(&self) -> Model {
        Model {
            items: items_v(self.items@),
            leased: self.leased_ids@,
            by_consumer: self.leased_by_consumer@,
            by_expiry: self.ordinary_leases_by_expiry@,
            by_key: self.by_key@,
            eligible: self.eligible@,
            compact: self.eligible.compact(),
            metrics: self.metrics,
            next_seq: self.next_seq,
            priority_model: self.priority_model,
            ordering_mode: self.ordering_mode,
            max_rank_error: self.max_rank_error,
            recurrence: self.recurrence,
            paused: self.paused,
            pause_drain_intake: self.pause_drain_intake,
            blocked_gates: self.blocked_gates@,
            policy: self.policy,
            gate_members: self.gate_members@,
            index_kinds: self.index_kinds@,
            unique: self.unique@,
            multi: self.multi@,
            index_specs: specs_v(self.index_specs@),
            typed_index_specs: typed_specs_v(self.typed_index_specs@),
            side_records: side_v(self.side_records@),
            instance_fences: self.instance_fences@,
        }
    }
}

/// Whether one of these gates is blocked.
pub fn gate_keys_blocked(blocked_gates: &OrdSet<String>, gate_keys: &Vec<String>) -> (r: bool)
    ensures
        r == gated(blocked_gates@, texts(gate_keys@)),
{
    let ghost keys = texts(gate_keys@);
    let mut i: usize = 0;
    while i < gate_keys.len()
        invariant
            i <= gate_keys@.len(),
            keys == texts(gate_keys@),
            forall|j: int| 0 <= j < i ==> !blocked_gates@.contains(#[trigger] keys[j]),
        decreases gate_keys@.len() - i,
    {
        if blocked_gates.contains(&gate_keys[i]) {
            assert(blocked_gates@.contains(keys[i as int]));
            return true;
        }
        i = i + 1;
    }
    false
}

/// Appends a value after its length in four bytes.
pub fn push_component(out: &mut Vec<u8>, value: &[u8])
    ensures
        final(out)@ == old(out)@ + component(value@),
{
    let ghost start = out@;
    push_be_u32(out, (value.len() as u64 % 0x1_0000_0000) as u32);
    let ghost head = out@;
    let mut i: usize = 0;
    assert(value@.take(0) =~= Seq::<u8>::empty());
    while i < value.len()
        invariant
            i <= value@.len(),
            out@ == head + value@.take(i as int),
        decreases value@.len() - i,
    {
        out.push(value[i]);
        assert(value@.take(i as int + 1) =~= value@.take(i as int).push(value@[i as int]));
        i = i + 1;
    }
    assert(value@.take(i as int) =~= value@);
    assert(out@ =~= start + component(value@));
}

/// The raw key of an item under an index: none where it lacks a field.
pub fn legacy_index_key(spec: &IndexSpec, fields: &FieldMap) -> (r: Option<Vec<u8>>)
    ensures
        match r {
            Some(k) => raw_key(field_bytes(*fields), texts(spec.fields@)) == Some(k@),
            None => raw_key(field_bytes(*fields), texts(spec.fields@)) is None,
        },
{
    let ghost names = texts(spec.fields@);
    let ghost held = field_bytes(*fields);
    let mut out: Vec<u8> = Vec::new();
    let mut i: usize = 0;
    assert(names.take(0) =~= Seq::<Seq<char>>::empty());
    assert(out@ =~= Seq::<u8>::empty());
    while i < spec.fields.len()
        invariant
            i <= spec.fields@.len(),
            names == texts(spec.fields@),
            held == field_bytes(*fields),
            raw_key(held, names.take(i as int)) == Some(out@),
        decreases spec.fields@.len() - i,
    {
        proof {
            let t = names.take(i as int + 1);
            assert(t.drop_last() =~= names.take(i as int));
            assert(t.last() == spec.fields@[i as int]@);
        }
        match fields.get(&spec.fields[i]) {
            None => {
                proof {
                    lemma_raw_key_stops(held, names, i as int + 1);
                }
                return None;
            },
            Some(v) => {
                push_component(&mut out, bytes_slice(v));
            },
        }
        i = i + 1;
    }
    assert(names.take(i as int) =~= names);
    Some(out)
}

proof fn lemma_raw_key_stops(fields: Map<Seq<char>, Seq<u8>>, names: Seq<Seq<char>>, n: int)
    requires
        0 <= n <= names.len(),
        raw_key(fields, names.take(n)) is None,
    ensures
        raw_key(fields, names) is None,
    decreases names.len() - n,
{
    if n == names.len() {
        assert(names.take(n) =~= names);
    } else {
        assert(names.take(n + 1).drop_last() =~= names.take(n));
        lemma_raw_key_stops(fields, names, n + 1);
    }
}

/// Whether a key stands among others.
pub(crate) fn holds_key(keys: &Vec<(String, Vec<u8>)>, key: &(String, Vec<u8>)) -> (r: bool)
    ensures
        r == keys_view(keys@).contains((key.0@, key.1@)),
{
    let ghost all = keys_view(keys@);
    let mut i: usize = 0;
    while i < keys.len()
        invariant
            i <= keys@.len(),
            all == keys_view(keys@),
            forall|j: int| 0 <= j < i ==> all[j] != (key.0@, key.1@),
        decreases keys@.len() - i,
    {
        let same = match bytes_standing(keys[i].1.as_slice(), key.1.as_slice()) {
            Standing::Same => same_text(keys[i].0.as_str(), key.0.as_str()),
            _ => false,
        };
        assert(all[i as int] == (keys@[i as int].0@, keys@[i as int].1@));
        if same {
            assert(all.contains((key.0@, key.1@)));
            return true;
        }
        i = i + 1;
    }
    false
}

pub(crate) fn copy_key(key: &(String, Vec<u8>)) -> (r: (String, Vec<u8>))
    ensures
        r.0@ == key.0@,
        r.1@ == key.1@,
{
    (key.0.clone(), clone_bytes(&key.1))
}

/// The keys that another list lacks.
pub(crate) fn lacking_keys(keys: &Vec<(String, Vec<u8>)>, other: &Vec<(String, Vec<u8>)>) -> (r: Vec<
    (String, Vec<u8>),
>)
    ensures
        keys_view(r@) == lacking(keys_view(keys@), keys_view(other@)),
{
    let ghost all = keys_view(keys@);
    let mut out: Vec<(String, Vec<u8>)> = Vec::new();
    let mut i: usize = 0;
    assert(all.take(0) =~= Seq::<(Seq<char>, Seq<u8>)>::empty());
    assert(keys_view(out@) =~= Seq::<(Seq<char>, Seq<u8>)>::empty());
    while i < keys.len()
        invariant
            i <= keys@.len(),
            all == keys_view(keys@),
            keys_view(out@) == lacking(all.take(i as int), keys_view(other@)),
        decreases keys@.len() - i,
    {
        proof {
            let t = all.take(i as int + 1);
            assert(t.drop_last() =~= all.take(i as int));
            assert(t.last() == (keys@[i as int].0@, keys@[i as int].1@));
        }
        if !holds_key(other, &keys[i]) {
            let ghost before = out@;
            let k = copy_key(&keys[i]);
            out.push(k);
            assert(keys_view(out@) =~= keys_view(before).push((k.0@, k.1@)));
        }
        i = i + 1;
    }
    assert(all.take(i as int) =~= all);
    out
}

/// A copy of an item's fields that can be changed.
pub fn copy_fields(fields: &FieldMap) -> (r: FieldMap)
    ensures
        field_bytes(r) == field_bytes(*fields),
{
    let n = fields.len();
    let ghost keys = fields.listing();
    let mut out: FieldMap = OrdMap::new();
    let mut i: usize = 0;
    while i < n
        invariant
            i <= n,
            n == fields.listing().len(),
            n == fields.values().len(),
            keys == fields.listing(),
            forall|j: int|
                0 <= j < n ==> fields@.contains_key(#[trigger] fields.listing()[j])
                    && fields@[fields.listing()[j]] == fields.values()[j],
            forall|k: Seq<char>|
                out@.contains_key(k) <==> exists|j: int| 0 <= j < i && #[trigger] keys[j] == k,
            forall|k: Seq<char>| #[trigger]
                out@.contains_key(k) ==> fields@.contains_key(k) && bytes_of(out@[k]) == bytes_of(
                    fields@[k],
                ),
        decreases n - i,
    {
        let key = fields.key_at(i).clone();
        let ghost before = out@;
        assert(fields@.contains_key(keys[i as int]));
        out.insert(key, bytes_share(fields.value_at(i)));
        proof {
            assert forall|k: Seq<char>|
                out@.contains_key(k) <==> exists|j: int|
                    0 <= j < i + 1 && #[trigger] keys[j] == k by {
                if out@.contains_key(k) {
                    if k == key@ {
                        assert(keys[i as int] == k);
                    } else {
                        assert(before.contains_key(k));
                        let j = choose|j: int| 0 <= j < i && #[trigger] keys[j] == k;
                        assert(keys[j] == k);
                    }
                }
                if exists|j: int| 0 <= j < i + 1 && #[trigger] keys[j] == k {
                    let j = choose|j: int| 0 <= j < i + 1 && #[trigger] keys[j] == k;
                    if j < i {
                        assert(before.contains_key(k));
                    }
                }
            }
        }
        i = i + 1;
    }
    proof {
        assert forall|k: Seq<char>| fields@.contains_key(k) implies out@.contains_key(k) by {
            assert(keys.contains(k));
            let j = choose|j: int| 0 <= j < keys.len() && keys[j] == k;
            assert(keys[j] == k);
        }
        assert(field_bytes(out) =~= field_bytes(*fields));
    }
    out
}

impl ProjectionData {
    pub proof fn lemma_items_insert(m: Map<ItemId, ItemRecord>, id: ItemId, rec: ItemRecord)
        ensures
            items_v(m.insert(id, rec)) == items_v(m).insert(id, rec@),
            items_v(m.remove(id)) == items_v(m).remove(id),
    {
        assert(items_v(m.insert(id, rec)) =~= items_v(m).insert(id, rec@));
        assert(items_v(m.remove(id)) =~= items_v(m).remove(id));
    }

    /// Puts a record in the table.
    pub(crate) fn put_record(&mut self, id: ItemId, rec: ItemRecord)
        ensures
            final(self)@ == put(old(self)@, id, rec@),
    {
        proof {
            Self::lemma_items_insert(self.items@, id, rec);
        }
        fx_insert(&mut self.items, id, rec);
    }

    /// Takes a record out of the table.
    pub(crate) fn take_record(&mut self, id: ItemId) -> (r: Option<ItemRecord>)
        ensures
            match r {
                Some(rec) => {
                    &&& old(self)@.items.contains_key(id)
                    &&& rec@ == old(self)@.items[id]
                    &&& final(self)@ == (Model {
                        items: old(self)@.items.remove(id),
                        ..old(self)@
                    })
                    &&& final(self).items@ == old(self).items@.remove(id)
                },
                None => !old(self)@.items.contains_key(id) && final(self)@ == old(self)@,
            },
    {
        let ghost before = self.items@;
        let r = fx_remove(&mut self.items, id);
        proof {
            if r is Some {
                Self::lemma_items_insert(before, id, r->Some_0);
            } else {
                assert(before.remove(id) =~= before);
            }
        }
        r
    }

    pub(crate) fn record(&self, id: ItemId) -> (r: Option<&ItemRecord>)
        ensures
            match r {
                Some(rec) => self@.items.contains_key(id) && rec@ == self@.items[id],
                None => !self@.items.contains_key(id),
            },
    {
        fx_get(&self.items, id)
    }

    pub(crate) fn enter(&mut self, rec: &ItemRecord)
        ensures
            final(self)@ == enter(old(self)@, rec@),
    {
        let key = elig_key(rec, &self.priority_model);
        self.eligible.insert(key);
    }

    pub(crate) fn leave(&mut self, rec: &ItemRecord)
        ensures
            final(self)@ == leave(old(self)@, rec@),
    {
        let key = elig_key(rec, &self.priority_model);
        self.eligible.remove(&key);
    }

    pub(crate) fn is_ready(&self, rec: &ItemRecord) -> (r: bool)
        ensures
            r == ready(self@, rec@),
    {
        match rec.state {
            ItemState::Pending => !gate_keys_blocked(&self.blocked_gates, &rec.gate_keys),
            _ => false,
        }
    }

    pub(crate) fn metrics_inc(&mut self, state: ItemState)
        requires
            counts_room(old(self)@, 1),
        ensures
            final(self)@ == (Model { metrics: counted(old(self)@.metrics, state), ..old(self)@ }),
    {
        match state {
            ItemState::Pending => {
                self.metrics.pending = self.metrics.pending + 1;
            },
            ItemState::Leased => {
                self.metrics.leased = self.metrics.leased + 1;
            },
            ItemState::Complete => {
                self.metrics.complete = self.metrics.complete + 1;
                self.metrics.resident_terminal_count = self.metrics.resident_terminal_count + 1;
            },
            ItemState::Failed => {
                self.metrics.failed = self.metrics.failed + 1;
                self.metrics.resident_terminal_count = self.metrics.resident_terminal_count + 1;
            },
        }
    }

    pub(crate) fn metrics_dec(&mut self, state: ItemState)
        ensures
            final(self)@ == (Model { metrics: uncounted(old(self)@.metrics, state), ..old(self)@ }),
    {
        match state {
            ItemState::Pending => {
                self.metrics.pending = down_one(self.metrics.pending);
            },
            ItemState::Leased => {
                self.metrics.leased = down_one(self.metrics.leased);
            },
            ItemState::Complete => {
                self.metrics.complete = down_one(self.metrics.complete);
                self.metrics.resident_terminal_count = down_one(
                    self.metrics.resident_terminal_count,
                );
            },
            ItemState::Failed => {
                self.metrics.failed = down_one(self.metrics.failed);
                self.metrics.resident_terminal_count = down_one(
                    self.metrics.resident_terminal_count,
                );
            },
        }
    }

    pub(crate) fn metrics_transition(&mut self, before: ItemState, after: ItemState)
        requires
            counts_room(old(self)@, 1),
        ensures
            final(self)@ == (Model {
                metrics: recounted(old(self)@.metrics, before, after),
                ..old(self)@
            }),
    {
        if before != after {
            self.metrics_dec(before);
            self.metrics_inc(after);
        }
    }

    /// Takes an item's lease out of the lease indexes.
    pub(crate) fn unlease(&mut self, id: ItemId, token: &Option<String>, expires: Option<UtcTimestamp>)
        ensures
            final(self)@ == unleased(old(self)@, id, opt_text(*token), expires),
    {
        self.leased_ids.remove(&id);
        match expires {
            Some(e) => {
                self.ordinary_leases_by_expiry.remove(&(e, id));
            },
            None => {},
        }
        match token {
            Some(t) => {
                let pair = (t.clone(), id);
                self.leased_by_consumer.remove(&pair);
            },
            None => {},
        }
    }

    /// The keys of values under every index that covers them.
    pub fn record_index_keys(&self, fields: &FieldMap, entity: &Option<Arc<Entity>>) -> (r:
        EngineResult<Vec<(String, Vec<u8>)>>)
        ensures
            match r {
                Ok(k) => index_keys(self@, field_bytes(*fields), opt_doc(*entity)) == Ok::<
                    Seq<(Seq<char>, Seq<u8>)>,
                    ErrorV,
                >(keys_view(k@)),
                Err(e) => index_keys(self@, field_bytes(*fields), opt_doc(*entity)) == Err::<
                    Seq<(Seq<char>, Seq<u8>)>,
                    ErrorV,
                >(e@),
            },
    {
        let ghost specs = specs_v(self.index_specs@);
        let ghost held = field_bytes(*fields);
        let mut out: Vec<(String, Vec<u8>)> = Vec::new();
        let mut i: usize = 0;
        assert(specs.take(0) =~= Seq::<IndexSpecV>::empty());
        assert(keys_view(out@) =~= Seq::<(Seq<char>, Seq<u8>)>::empty());
        while i < self.index_specs.len()
            invariant
                i <= self.index_specs@.len(),
                specs == specs_v(self.index_specs@),
                held == field_bytes(*fields),
                keys_view(out@) == raw_keys(specs.take(i as int), held),
            decreases self.index_specs@.len() - i,
        {
            proof {
                let t = specs.take(i as int + 1);
                assert(t.drop_last() =~= specs.take(i as int));
                assert(t.last() == self.index_specs@[i as int]@);
            }
            match legacy_index_key(&self.index_specs[i], fields) {
                Some(k) => {
                    let ghost before = out@;
                    let ghost entry = (self.index_specs@[i as int].name@, k@);
                    out.push((self.index_specs[i].name.clone(), k));
                    assert(keys_view(out@) =~= keys_view(before).push(entry));
                },
                None => {},
            }
            i = i + 1;
        }
        assert(specs.take(i as int) =~= specs);
        match entity {
            None => Ok(out),
            Some(e) => match &e.keys {
                Err(t) => Err(EngineError::Storage(t.clone())),
                Ok(more) => {
                    let ghost raw = keys_view(out@);
                    let ghost typed = keys_view(more@);
                    let mut k: usize = 0;
                    assert(raw =~= raw + typed.take(0));
                    while k < more.len()
                        invariant
                            k <= more@.len(),
                            typed == keys_view(more@),
                            keys_view(out@) == raw + typed.take(k as int),
                        decreases more@.len() - k,
                    {
                        let ghost before = out@;
                        let key = copy_key(&more[k]);
                        out.push(key);
                        proof {
                            assert(keys_view(out@) =~= keys_view(before).push((key.0@, key.1@)));
                            assert(typed.take(k as int + 1) =~= typed.take(k as int).push(
                                typed[k as int],
                            ));
                            assert(keys_view(out@) =~= raw + typed.take(k as int + 1));
                        }
                        k = k + 1;
                    }
                    assert(typed.take(k as int) =~= typed);
                    Ok(out)
                },
            },
        }
    }

    /// Adds an item to every index that the keys name.
    pub(crate) fn index_insert_keys(&mut self, id: ItemId, keys: &Vec<(String, Vec<u8>)>)
        ensures
            final(self)@ == indexed(old(self)@, id, keys_view(keys@)),
    {
        let ghost start = self@;
        let ghost all = keys_view(keys@);
        let mut i: usize = 0;
        assert(all.take(0) =~= Seq::<(Seq<char>, Seq<u8>)>::empty());
        while i < keys.len()
            invariant
                i <= keys@.len(),
                all == keys_view(keys@),
                self@ == indexed(start, id, all.take(i as int)),
            decreases keys@.len() - i,
        {
            proof {
                let t = all.take(i as int + 1);
                assert(t.drop_last() =~= all.take(i as int));
                assert(t.last() == (keys@[i as int].0@, keys@[i as int].1@));
            }
            let key = copy_key(&keys[i]);
            match self.index_kinds.get(&key.0) {
                Some(true) => {
                    self.unique.insert(key, id);
                },
                Some(false) => {
                    self.multi.insert((key, id));
                },
                None => {},
            }
            i = i + 1;
        }
        assert(all.take(i as int) =~= all);
    }

    /// Takes an item out of every index that the keys name. Another holder of a unique key stays.
    pub(crate) fn index_remove_keys(&mut self, id: ItemId, keys: &Vec<(String, Vec<u8>)>)
        ensures
            final(self)@ == unindexed(old(self)@, id, keys_view(keys@)),
    {
        let ghost start = self@;
        let ghost all = keys_view(keys@);
        let mut i: usize = 0;
        assert(all.take(0) =~= Seq::<(Seq<char>, Seq<u8>)>::empty());
        while i < keys.len()
            invariant
                i <= keys@.len(),
                all == keys_view(keys@),
                self@ == unindexed(start, id, all.take(i as int)),
            decreases keys@.len() - i,
        {
            proof {
                let t = all.take(i as int + 1);
                assert(t.drop_last() =~= all.take(i as int));
                assert(t.last() == (keys@[i as int].0@, keys@[i as int].1@));
            }
            let key = copy_key(&keys[i]);
            match self.index_kinds.get(&key.0) {
                Some(true) => {
                    let held = match self.unique.get(&key) {
                        Some(holder) => *holder == id,
                        None => false,
                    };
                    if held {
                        self.unique.remove(&key);
                    }
                },
                Some(false) => {
                    self.multi.remove(&(key, id));
                },
                None => {},
            }
            i = i + 1;
        }
        assert(all.take(i as int) =~= all);
    }

    /// Moves an item from its old gate keys to its new ones.
    pub(crate) fn replace_gate_memberships(&mut self, id: ItemId, before: &Vec<String>, after: &Vec<String>)
        ensures
            final(self)@ == regated(old(self)@, id, texts(before@), texts(after@)),
    {
        let ghost start = self@;
        let ghost was = texts(before@);
        let ghost will = texts(after@);
        let mut i: usize = 0;
        while i < before.len()
            invariant
                i <= before@.len(),
                was == texts(before@),
                will == texts(after@),
                self@ == (Model { gate_members: self@.gate_members, ..start }),
                forall|p: (Seq<char>, ItemId)| #[trigger]
                    self@.gate_members.contains(p) <==> start.gate_members.contains(p) && !(p.1
                        == id && !will.contains(p.0) && exists|j: int|
                        0 <= j < i && #[trigger] was[j] == p.0),
            decreases before@.len() - i,
        {
            let ghost prior = self@.gate_members;
            assert(was[i as int] == before@[i as int]@);
            if !contains_text(after, before[i].as_str()) {
                let pair = (before[i].clone(), id);
                self.gate_members.remove(&pair);
            }
            proof {
                let key = was[i as int];
                assert forall|p: (Seq<char>, ItemId)| #[trigger]
                    self@.gate_members.contains(p) <==> start.gate_members.contains(p) && !(p.1
                        == id && !will.contains(p.0) && exists|j: int|
                        0 <= j < i + 1 && #[trigger] was[j] == p.0) by {
                    assert(prior.contains(p) <==> start.gate_members.contains(p) && !(p.1 == id
                        && !will.contains(p.0) && exists|j: int|
                        0 <= j < i && #[trigger] was[j] == p.0));
                    if exists|j: int| 0 <= j < i && #[trigger] was[j] == p.0 {
                        let j = choose|j: int| 0 <= j < i && #[trigger] was[j] == p.0;
                        assert(was[j] == p.0 && 0 <= j < i + 1);
                    }
                    if exists|j: int| 0 <= j < i + 1 && #[trigger] was[j] == p.0 {
                        let j = choose|j: int| 0 <= j < i + 1 && #[trigger] was[j] == p.0;
                        if j < i {
                            assert(was[j] == p.0 && 0 <= j < i);
                        }
                    }
                }
            }
            i = i + 1;
        }
        let ghost middle = self@;
        let mut k: usize = 0;
        while k < after.len()
            invariant
                k <= after@.len(),
                was == texts(before@),
                will == texts(after@),
                self@ == (Model { gate_members: self@.gate_members, ..start }),
                forall|p: (Seq<char>, ItemId)| #[trigger]
                    self@.gate_members.contains(p) <==> middle.gate_members.contains(p) || (p.1
                        == id && !was.contains(p.0) && exists|j: int|
                        0 <= j < k && #[trigger] will[j] == p.0),
            decreases after@.len() - k,
        {
            let ghost prior = self@.gate_members;
            assert(will[k as int] == after@[k as int]@);
            if !contains_text(before, after[k].as_str()) {
                let pair = (after[k].clone(), id);
                self.gate_members.insert(pair);
            }
            proof {
                assert forall|p: (Seq<char>, ItemId)| #[trigger]
                    self@.gate_members.contains(p) <==> middle.gate_members.contains(p) || (p.1
                        == id && !was.contains(p.0) && exists|j: int|
                        0 <= j < k + 1 && #[trigger] will[j] == p.0) by {
                    assert(prior.contains(p) <==> middle.gate_members.contains(p) || (p.1 == id
                        && !was.contains(p.0) && exists|j: int|
                        0 <= j < k && #[trigger] will[j] == p.0));
                    if exists|j: int| 0 <= j < k && #[trigger] will[j] == p.0 {
                        let j = choose|j: int| 0 <= j < k && #[trigger] will[j] == p.0;
                        assert(will[j] == p.0 && 0 <= j < k + 1);
                    }
                    if exists|j: int| 0 <= j < k + 1 && #[trigger] will[j] == p.0 {
                        let j = choose|j: int| 0 <= j < k + 1 && #[trigger] will[j] == p.0;
                        if j < k {
                            assert(will[j] == p.0 && 0 <= j < k);
                        }
                    }
                }
            }
            k = k + 1;
        }
        proof {
            let wanted = regated(start, id, was, will);
            assert forall|p: (Seq<char>, ItemId)|
                self@.gate_members.contains(p) == wanted.gate_members.contains(p) by {
                assert(self@.gate_members.contains(p) <==> middle.gate_members.contains(p) || (p.1
                    == id && !was.contains(p.0) && exists|j: int|
                    0 <= j < k && #[trigger] will[j] == p.0));
                assert(middle.gate_members.contains(p) <==> start.gate_members.contains(p) && !(p.1
                    == id && !will.contains(p.0) && exists|j: int|
                    0 <= j < i && #[trigger] was[j] == p.0));
                assert(was.contains(p.0) <==> exists|j: int| 0 <= j < i && #[trigger] was[j] == p.0)
                    by {
                    if was.contains(p.0) {
                        let j = choose|j: int| 0 <= j < was.len() && was[j] == p.0;
                        assert(was[j] == p.0);
                    }
                }
                assert(will.contains(p.0) <==> exists|j: int|
                    0 <= j < k && #[trigger] will[j] == p.0) by {
                    if will.contains(p.0) {
                        let j = choose|j: int| 0 <= j < will.len() && will[j] == p.0;
                        assert(will[j] == p.0);
                    }
                }
            }
            assert(self@.gate_members =~= wanted.gate_members);
        }
    }

    /// Puts an item under its gate keys.
    pub(crate) fn join_gates(&mut self, id: ItemId, keys: &Vec<String>)
        ensures
            final(self)@ == gates_joined(old(self)@, id, texts(keys@)),
    {
        let ghost start = self@;
        let ghost will = texts(keys@);
        let mut k: usize = 0;
        while k < keys.len()
            invariant
                k <= keys@.len(),
                will == texts(keys@),
                self@ == (Model { gate_members: self@.gate_members, ..start }),
                forall|p: (Seq<char>, ItemId)| #[trigger]
                    self@.gate_members.contains(p) <==> start.gate_members.contains(p) || (p.1
                        == id && exists|j: int| 0 <= j < k && #[trigger] will[j] == p.0),
            decreases keys@.len() - k,
        {
            let ghost prior = self@.gate_members;
            assert(will[k as int] == keys@[k as int]@);
            let pair = (keys[k].clone(), id);
            self.gate_members.insert(pair);
            proof {
                assert forall|p: (Seq<char>, ItemId)| #[trigger]
                    self@.gate_members.contains(p) <==> start.gate_members.contains(p) || (p.1
                        == id && exists|j: int| 0 <= j < k + 1 && #[trigger] will[j] == p.0) by {
                    assert(prior.contains(p) <==> start.gate_members.contains(p) || (p.1 == id
                        && exists|j: int| 0 <= j < k && #[trigger] will[j] == p.0));
                    if exists|j: int| 0 <= j < k && #[trigger] will[j] == p.0 {
                        let j = choose|j: int| 0 <= j < k && #[trigger] will[j] == p.0;
                        assert(will[j] == p.0 && 0 <= j < k + 1);
                    }
                    if exists|j: int| 0 <= j < k + 1 && #[trigger] will[j] == p.0 {
                        let j = choose|j: int| 0 <= j < k + 1 && #[trigger] will[j] == p.0;
                        if j < k {
                            assert(will[j] == p.0 && 0 <= j < k);
                        }
                    }
                }
            }
            k = k + 1;
        }
        proof {
            let wanted = gates_joined(start, id, will);
            assert forall|p: (Seq<char>, ItemId)|
                self@.gate_members.contains(p) == wanted.gate_members.contains(p) by {
                assert(self@.gate_members.contains(p) <==> start.gate_members.contains(p) || (p.1
                    == id && exists|j: int| 0 <= j < k && #[trigger] will[j] == p.0));
                if will.contains(p.0) {
                    let j = choose|j: int| 0 <= j < will.len() && will[j] == p.0;
                    assert(will[j] == p.0);
                }
            }
            assert(self@.gate_members =~= wanted.gate_members);
        }
    }
}

fn down_one(n: u64) -> (r: u64)
    ensures
        r == less_one(n),
{
    if n > 0 {
        n - 1
    } else {
        0
    }
}

} // verus!
